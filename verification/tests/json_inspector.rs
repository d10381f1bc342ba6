use lib::{
    InputEvent, JsonDocument, JsonInspectorAction, JsonInspectorState, JsonMember, JsonNumber,
    JsonPointer, JsonRowRole, JsonValue, KeyAction, KeyCode, KeyEvent, Modifiers,
    escape_json_string_content, is_blocked_initial_only_repeat, json_copy_request,
    json_row_segments, normalize_state, state_for_action, state_for_pointer, visible_window,
};

fn repeat_key(code: KeyCode, modifiers: Modifiers) -> InputEvent {
    InputEvent::Key(KeyEvent { code, modifiers, action: KeyAction::Repeat })
}

fn json_pointer(value: &str) -> JsonPointer {
    JsonPointer::new(value).unwrap()
}

fn expanded_text(state: &JsonInspectorState) -> Vec<String> {
    state.expanded().iter().map(|pointer| pointer.as_str().to_string()).collect()
}

fn inspector_document() -> JsonDocument {
    JsonDocument::new(
        JsonValue::object(vec![
            JsonMember::new("short", JsonValue::string("ok")),
            JsonMember::new(
                "nested",
                JsonValue::object(vec![
                    JsonMember::new("inner", JsonValue::boolean(true)),
                    JsonMember::new("list", JsonValue::array(vec![JsonValue::null()])),
                ])
                .unwrap(),
            ),
            JsonMember::new("last", JsonValue::null()),
        ])
        .unwrap(),
    )
    .unwrap()
}

fn selected_index(document: &JsonDocument, state: &JsonInspectorState) -> usize {
    document.index_of(state.selected()).unwrap()
}

#[test]
fn bounded_viewport_constructs_only_the_requested_window() {
    let values = (0..100)
        .map(|value| JsonValue::number(JsonNumber::new(&value.to_string()).unwrap()))
        .collect::<Vec<_>>();
    let document = JsonDocument::new(JsonValue::array(values)).unwrap();
    let selected = json_pointer("/50");
    let state = JsonInspectorState::new(selected.clone(), vec![JsonPointer::root()]);
    let selected = document.index_of(&selected).unwrap();

    let window = visible_window(&document, &state, selected, 7);

    assert_eq!(window.len(), 7);
    assert!(window.contains(&selected));
    assert_eq!(document.node_at(window[0]).path().as_str(), "/47");
    assert_eq!(document.node_at(window[6]).path().as_str(), "/53");
}

#[test]
fn state_clones_share_expansion_until_changed() {
    let state = JsonInspectorState::default();
    let clone = state.clone();
    assert!(state.shares_expansion(&clone));

    let changed = clone.with_expanded(json_pointer("/nested"), true);
    assert!(!state.shares_expansion(&changed));
    assert!(changed.is_expanded(&json_pointer("/nested")));
}

#[test]
fn expansion_is_kept_ordered_and_unique() {
    let state = JsonInspectorState::new(
        JsonPointer::root(),
        vec![json_pointer("/b"), json_pointer("/a"), json_pointer("/b"), JsonPointer::root()],
    );
    assert_eq!(expanded_text(&state), vec!["", "/a", "/b"]);
    let state = state.with_expanded(json_pointer("/a"), false);
    assert_eq!(expanded_text(&state), vec!["", "/b"]);
    assert!(!state.is_expanded(&json_pointer("/a")));
}

#[test]
fn collapsed_branches_hide_their_rows() {
    let document = inspector_document();
    let state = JsonInspectorState::default();
    let all = visible_window(&document, &state, 0, 0);
    let paths: Vec<&str> = all.iter().map(|index| document.node_at(*index).path().as_str()).collect();
    assert_eq!(paths, vec!["", "/short", "/nested", "/last"]);

    let expanded = state.with_expanded(json_pointer("/nested"), true);
    let all = visible_window(&document, &expanded, 0, 0);
    assert_eq!(all.len(), 6);
    assert_eq!(document.node_at(all[5]).path().as_str(), "/last");
}

#[test]
fn keyboard_navigation_follows_visible_rows() {
    let document = inspector_document();
    let state = JsonInspectorState::default().with_selected(json_pointer("/short"));
    let selected = selected_index(&document, &state);

    let next = state_for_action(&document, &state, selected, JsonInspectorAction::Next);
    assert_eq!(next.selected().as_str(), "/nested");
    let index = selected_index(&document, &next);

    let expanded = state_for_action(&document, &next, index, JsonInspectorAction::Expand);
    assert_eq!(expanded.selected().as_str(), "/nested");
    assert!(expanded.is_expanded(&json_pointer("/nested")));

    let child = state_for_action(&document, &expanded, index, JsonInspectorAction::Expand);
    assert_eq!(child.selected().as_str(), "/nested/inner");

    let last = state_for_action(&document, &child, 0, JsonInspectorAction::Last);
    assert_eq!(last.selected().as_str(), "/last");
    let back = state_for_action(&document, &last, selected_index(&document, &last), JsonInspectorAction::Previous);
    assert_eq!(back.selected().as_str(), "/nested/list");

    let parent = state_for_action(&document, &child, selected_index(&document, &child), JsonInspectorAction::Collapse);
    assert_eq!(parent.selected().as_str(), "/nested");
    let collapsed = state_for_action(&document, &parent, index, JsonInspectorAction::Collapse);
    assert!(!collapsed.is_expanded(&json_pointer("/nested")));

    let first = state_for_action(&document, &collapsed, index, JsonInspectorAction::First);
    assert_eq!(first.selected().as_str(), "");
    let copy = state_for_action(&document, &first, 0, JsonInspectorAction::Copy);
    assert_eq!(copy.selected().as_str(), "");
    assert_eq!(expanded_text(&copy), expanded_text(&first));
}

#[test]
fn activating_a_branch_twice_restores_the_expansion() {
    let document = inspector_document();
    let state = JsonInspectorState::default().with_selected(json_pointer("/nested"));
    let index = selected_index(&document, &state);
    let once = state_for_action(&document, &state, index, JsonInspectorAction::Activate);
    assert_eq!(expanded_text(&once), vec!["", "/nested"]);
    let twice = state_for_action(&document, &once, index, JsonInspectorAction::Activate);
    assert_eq!(expanded_text(&twice), expanded_text(&state));
    assert_eq!(twice.selected().as_str(), "/nested");
}

#[test]
fn pointer_selection_toggles_branches_only() {
    let document = inspector_document();
    let state = JsonInspectorState::default();
    let nested = document.index_of(&json_pointer("/nested")).unwrap();
    let clicked = state_for_pointer(&document, &state, nested);
    assert_eq!(clicked.selected().as_str(), "/nested");
    assert!(clicked.is_expanded(&json_pointer("/nested")));

    let short = document.index_of(&json_pointer("/short")).unwrap();
    let scalar = state_for_pointer(&document, &clicked, short);
    assert_eq!(scalar.selected().as_str(), "/short");
    assert_eq!(expanded_text(&scalar), expanded_text(&clicked));
}

#[test]
fn normalization_selects_the_collapsed_ancestor_or_the_root() {
    let document = inspector_document();
    let hidden = JsonInspectorState::default().with_selected(json_pointer("/nested/list/0"));
    assert_eq!(normalize_state(&document, &hidden).selected().as_str(), "/nested");

    let missing = JsonInspectorState::default().with_selected(json_pointer("/absent"));
    assert_eq!(normalize_state(&document, &missing).selected().as_str(), "");

    let shown = hidden.with_expanded(json_pointer("/nested"), true);
    assert_eq!(normalize_state(&document, &shown).selected().as_str(), "/nested/list");
}

fn preview_document() -> JsonDocument {
    JsonDocument::new(
        JsonValue::object(vec![
            JsonMember::new("short", JsonValue::string("ok")),
            JsonMember::new("long", JsonValue::string("abcdef日ghi")),
            JsonMember::new(
                "nested",
                JsonValue::object(vec![
                    JsonMember::new("flag", JsonValue::boolean(true)),
                    JsonMember::new(
                        "items",
                        JsonValue::array(vec![
                            JsonValue::number(JsonNumber::new("1").unwrap()),
                            JsonValue::number(JsonNumber::new("2").unwrap()),
                        ]),
                    ),
                ])
                .unwrap(),
            ),
            JsonMember::new("empty", JsonValue::array(vec![])),
        ])
        .unwrap(),
    )
    .unwrap()
}

/// One grapheme per character, as every test value here segments
fn single_char_graphemes(text: &str) -> Vec<usize> {
    text.chars().map(|_| 1).collect()
}

fn row_display(document: &JsonDocument, state: &JsonInspectorState, pointer: &str, maximum: usize) -> String {
    let index = document.index_of(&json_pointer(pointer)).unwrap();
    let node = document.node_at(index);
    let previewed = match node.kind() {
        lib::JsonKind::String => {
            let serialized = node.serialized();
            serialized[1..serialized.len() - 1].to_string()
        }
        _ => node.serialized().to_string(),
    };
    json_row_segments(document, state, index, maximum, &single_char_graphemes(&previewed))
        .iter()
        .map(|segment| segment.text())
        .collect()
}

#[test]
fn row_preview_is_grapheme_safe_and_complete_copy_stays_unchanged() {
    let document = preview_document();
    let state = JsonInspectorState::default();
    let display = row_display(&document, &state, "/long", 7);
    assert!(display.contains("\"abcdef日…\""));
    let index = document.index_of(&json_pointer("/long")).unwrap();
    assert_eq!(document.node_at(index).serialized(), "\"abcdef日ghi\"");
    let request = json_copy_request(&document, index, "inspector");
    assert_eq!(request.text(), "\"abcdef日ghi\"");
    assert_eq!(request.path().as_str(), "/long");
    assert_eq!(request.kind(), lib::JsonKind::String);
    assert_eq!(request.source(), "inspector");
}

#[test]
fn rows_show_indentation_disclosure_labels_and_summaries() {
    let document = preview_document();
    let collapsed = JsonInspectorState::default();
    assert_eq!(row_display(&document, &collapsed, "", 10), "▼ {4}");
    assert_eq!(row_display(&document, &collapsed, "/short", 10), "    \"short\": \"ok\"");
    assert_eq!(row_display(&document, &collapsed, "/nested", 10), "  ▶ \"nested\": {2}");
    assert_eq!(row_display(&document, &collapsed, "/empty", 10), "    \"empty\": []");
    assert_eq!(row_display(&document, &collapsed, "/nested/flag", 10), "      \"flag\": true");
    assert_eq!(row_display(&document, &collapsed, "/nested/items/1", 10), "        [1]: 2");
    let roles: Vec<JsonRowRole> = json_row_segments(&document, &collapsed, 0, 10, &[])
        .iter()
        .map(|segment| segment.role())
        .collect();
    assert_eq!(roles, vec![JsonRowRole::Punctuation, JsonRowRole::Punctuation, JsonRowRole::Summary, JsonRowRole::Punctuation]);
    assert_eq!(escape_json_string_content("a\"b\\\n\u{1}"), "a\\\"b\\\\\\n\\u0001");
}

#[test]
fn copy_repeat_passes_through_without_a_copy_handler() {
    let event = repeat_key(KeyCode::Character('c'), Modifiers { control: true, ..Modifiers::none() });
    assert!(!is_blocked_initial_only_repeat(&event, false));
}

#[test]
fn initial_only_repeats_are_consumed() {
    let control = Modifiers { control: true, ..Modifiers::none() };
    assert!(is_blocked_initial_only_repeat(&repeat_key(KeyCode::Enter, Modifiers::none()), true));
    assert!(is_blocked_initial_only_repeat(&repeat_key(KeyCode::Character(' '), Modifiers::none()), false));
    assert!(is_blocked_initial_only_repeat(&repeat_key(KeyCode::Character('c'), control), true));
    assert!(!is_blocked_initial_only_repeat(&repeat_key(KeyCode::Enter, control), true));
    assert!(!is_blocked_initial_only_repeat(&repeat_key(KeyCode::Down, Modifiers::none()), true));
    let press = InputEvent::Key(KeyEvent {
        code: KeyCode::Enter,
        modifiers: Modifiers::none(),
        action: KeyAction::Press,
    });
    assert!(!is_blocked_initial_only_repeat(&press, true));
}

fn fixture_document() -> JsonDocument {
    JsonDocument::new(
        JsonValue::object(vec![
            JsonMember::new("short", JsonValue::string("ok")),
            JsonMember::new("long", JsonValue::string("abcdef日ghi")),
            JsonMember::new(
                "nested",
                JsonValue::object(vec![
                    JsonMember::new("flag", JsonValue::boolean(true)),
                    JsonMember::new(
                        "items",
                        JsonValue::array(vec![
                            JsonValue::number(JsonNumber::new("1").unwrap()),
                            JsonValue::number(JsonNumber::new("2").unwrap()),
                        ]),
                    ),
                ])
                .unwrap(),
            ),
            JsonMember::new("empty", JsonValue::array(vec![])),
        ])
        .unwrap(),
    )
    .unwrap()
}

fn fixture_pointer(value: &str) -> JsonPointer {
    if value == "$" {
        JsonPointer::root()
    } else {
        json_pointer(value)
    }
}

fn fixture_state(selected: &str, expanded: &str) -> JsonInspectorState {
    JsonInspectorState::new(
        fixture_pointer(selected),
        if expanded == "-" { Vec::new() } else { expanded.split(',').map(fixture_pointer).collect() },
    )
}

fn pointer_text(pointer: &JsonPointer) -> String {
    if pointer.as_str().is_empty() { "$".to_string() } else { pointer.as_str().to_string() }
}

fn fixture_expanded(state: &JsonInspectorState) -> String {
    let values = state.expanded().iter().map(pointer_text).collect::<Vec<_>>();
    if values.is_empty() { "-".to_string() } else { values.join(",") }
}

fn fixture_message(state: &JsonInspectorState) -> String {
    format!("state:{}:{}", pointer_text(state.selected()), fixture_expanded(state))
}

fn fixture_action(value: &str) -> JsonInspectorAction {
    match value {
        "enter" => JsonInspectorAction::Activate,
        "up" => JsonInspectorAction::Previous,
        "down" => JsonInspectorAction::Next,
        "home" => JsonInspectorAction::First,
        "end" => JsonInspectorAction::Last,
        "left" => JsonInspectorAction::Collapse,
        "right" => JsonInspectorAction::Expand,
        _ => panic!("unknown fixture action {value}"),
    }
}

#[test]
fn interactions_match_shared_fixtures() {
    // selected, expanded, event, expected selected, expected expanded, expected message,
    // expected copy, consumed
    let records: [[&str; 8]; 16] = [
        ["$", "-", "-", "$", "-", "-", "-", "-"],
        ["$", "-", "right", "$", "$", "state:$:$", "-", "true"],
        ["$", "$", "down", "/short", "$", "state:/short:$", "-", "true"],
        ["/short", "$", "copy", "/short", "$", "copy:/short", "\"ok\"", "true"],
        ["$", "$", "pointer-nested", "/nested", "$,/nested", "state:/nested:$,/nested", "-", "true"],
        ["/nested/items/1", "$", "-", "/nested", "$", "-", "-", "-"],
        ["$", "$,/nested", "end", "/empty", "$,/nested", "state:/empty:$,/nested", "-", "true"],
        ["/nested/flag", "$,/nested", "left", "/nested", "$,/nested", "state:/nested:$,/nested", "-", "true"],
        ["/nested", "$,/nested", "left", "/nested", "$", "state:/nested:$", "-", "true"],
        ["/nested", "$,/nested", "right", "/nested/flag", "$,/nested", "state:/nested/flag:$,/nested", "-", "true"],
        [
            "/nested/items", "$,/nested", "enter", "/nested/items", "$,/nested,/nested/items",
            "state:/nested/items:$,/nested,/nested/items", "-", "true",
        ],
        ["/short", "$", "enter", "/short", "$", "-", "-", "true"],
        ["$", "$", "up", "$", "$", "-", "-", "true"],
        ["/empty", "$", "home", "$", "$", "state:$:$", "-", "true"],
        ["$", "-", "repeat-enter", "$", "-", "-", "-", "true"],
        ["/nested", "$,/nested", "repeat-copy", "/nested", "$,/nested", "-", "-", "true"],
    ];
    let document = fixture_document();
    for (case, record) in records.iter().enumerate() {
        let initial = normalize_state(&document, &fixture_state(record[0], record[1]));
        let mut next = initial.clone();
        let mut message = String::from("-");
        let mut copy = String::from("-");
        let consumed = match record[2] {
            "-" => None,
            "repeat-enter" => {
                assert!(is_blocked_initial_only_repeat(&repeat_key(KeyCode::Enter, Modifiers::none()), true));
                Some(true)
            }
            "repeat-copy" => {
                let control = Modifiers { control: true, ..Modifiers::none() };
                assert!(is_blocked_initial_only_repeat(&repeat_key(KeyCode::Character('c'), control), true));
                Some(true)
            }
            "copy" => {
                let selected = document.index_of(initial.selected()).unwrap();
                let node = document.node_at(selected);
                message = format!("copy:{}", pointer_text(node.path()));
                copy = node.serialized().to_owned();
                Some(true)
            }
            "pointer-nested" => {
                let nested = document.index_of(&json_pointer("/nested")).unwrap();
                next = state_for_pointer(&document, &initial, nested);
                if fixture_message(&next) != fixture_message(&initial) {
                    message = fixture_message(&next);
                }
                Some(true)
            }
            value => {
                let selected = document.index_of(initial.selected()).unwrap();
                next = state_for_action(&document, &initial, selected, fixture_action(value));
                if fixture_message(&next) != fixture_message(&initial) {
                    message = fixture_message(&next);
                }
                Some(true)
            }
        };
        assert_eq!(pointer_text(next.selected()), record[3], "case {} selected", case);
        assert_eq!(fixture_expanded(&next), record[4], "case {} expanded", case);
        assert_eq!(message, record[5], "case {}", case);
        assert_eq!(copy, record[6], "case {}", case);
        assert_eq!(
            consumed.map_or("-", |value| if value { "true" } else { "false" }),
            record[7],
            "case {} consumed",
            case
        );
        let state = JsonInspectorState::default();
        let display = row_display(&document, &state, "/long", 5);
        assert!(display.contains("\"abcde…\""), "case {}", case);
    }
}
