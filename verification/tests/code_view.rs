use lib::{
    CodeCell, CodeCopyKind, CodeDocument, CodeLayout, CodeLayoutOptions, CodeLine, CodeSpan,
    CodeViewAction, CodeViewState, InputEvent, KeyAction, KeyCode, KeyEvent, Modifiers,
    code_view_state_for_action, copy_actions_enabled, copy_request, is_blocked_copy_repeat,
    normalize_code_view, pointer_state, slice_cells_by_width, visible_row_window,
};

fn ascii(text: &str) -> Vec<CodeCell> {
    text.chars().map(|character| CodeCell::new(0, &character.to_string(), 1)).collect()
}

fn layout(lines: &[&str], wrap: bool, width: u32) -> CodeLayout {
    let document =
        CodeDocument::new(&mut lines.iter().map(|line| CodeLine::plain(line).unwrap()), true)
            .unwrap();
    let graphemes: Vec<Vec<CodeCell>> = lines.iter().map(|line| ascii(line)).collect();
    CodeLayout::new(
        document,
        CodeLayoutOptions::default().with_viewport_width(width).with_line_numbers(false).with_wrap(wrap),
        &graphemes,
    )
    .unwrap()
}

#[test]
fn state_normalizes_selection_and_horizontal_offset() {
    let no_wrap = layout(&["a", "abcdefgh"], false, 4);
    let state =
        normalize_code_view(&no_wrap, CodeViewState::with_selection(9, 0).with_horizontal_offset(99));
    assert_eq!(state.cursor(), 1);
    assert_eq!(state.selected_lines(), 0..2);
    assert_eq!(state.horizontal_offset(), 4);
    let wrapped = layout(&["abcdefgh"], true, 4);
    assert_eq!(normalize_code_view(&wrapped, state).horizontal_offset(), 0);
}

#[test]
fn action_navigation_and_extension_are_line_oriented() {
    let layout = layout(&["a", "b", "c"], false, 4);
    let state =
        code_view_state_for_action(&layout, CodeViewState::new(1), CodeViewAction::ExtendNext, 4);
    assert_eq!(state.cursor(), 2);
    assert_eq!(state.selected_lines(), 1..3);
    let state = code_view_state_for_action(&layout, state, CodeViewAction::Previous, 4);
    assert_eq!(state, CodeViewState::new(1));
}

#[test]
fn viewport_is_bounded_and_follows_selected_line() {
    let values = (0..100).map(|value| value.to_string()).collect::<Vec<_>>();
    let references = values.iter().map(String::as_str).collect::<Vec<_>>();
    let layout = layout(&references, false, 4);
    assert_eq!(visible_row_window(&layout, 50, 7), 47..54);
    assert_eq!(visible_row_window(&layout, 0, 7), 0..7);
    assert_eq!(visible_row_window(&layout, 99, 7), 93..100);
    assert_eq!(visible_row_window(&layout, 5, 0), 0..100);
}

#[test]
fn cell_crop_preserves_complete_graphemes_and_styles() {
    let cells = vec![CodeCell::new(0, "A", 1), CodeCell::new(0, "日", 2), CodeCell::new(0, "B", 1)];
    let cropped = slice_cells_by_width(&cells, 1, 2);
    assert_eq!(cropped.len(), 1);
    assert_eq!(cropped[0].text(), "日");
    let half = slice_cells_by_width(&cells, 2, 2);
    assert_eq!(half.iter().map(|cell| cell.text()).collect::<String>(), "B");
}

#[test]
fn copy_request_owns_selected_complete_lines() {
    let layout = layout(&["a", "b", "c"], false, 4);
    let request =
        copy_request(&layout, CodeViewState::with_selection(1, 0), CodeCopyKind::Selection, "code")
            .expect("copy request");
    assert_eq!(request.text(), "a\nb");
    assert_eq!(request.lines(), 0..2);
    assert_eq!(request.bytes(), 0..3);
    assert_eq!(request.source(), "code");
    assert_eq!(request.kind(), CodeCopyKind::Selection);
    let document = copy_request(&layout, CodeViewState::new(0), CodeCopyKind::Document, "code").unwrap();
    assert_eq!(document.text(), "a\nb\nc\n");
    assert_eq!(document.bytes(), 0..6);
}

#[test]
fn hidden_lines_block_copy_requests() {
    let hidden = CodeLine::styled(vec![CodeSpan::new("secret", true)], &[]).unwrap();
    let document = CodeDocument::new(&mut vec![CodeLine::plain("a").unwrap(), hidden].into_iter(), false).unwrap();
    let layout = CodeLayout::new(
        document,
        CodeLayoutOptions::default().with_line_numbers(false),
        &[ascii("a"), ascii("secret")],
    )
    .unwrap();
    assert!(copy_request(&layout, CodeViewState::new(1), CodeCopyKind::Selection, "x").is_none());
    assert_eq!(copy_actions_enabled(&layout, CodeViewState::new(0), true), (true, false));
    assert_eq!(copy_actions_enabled(&layout, CodeViewState::new(0), false), (false, false));
}

#[test]
fn pointer_shift_extends_from_existing_anchor() {
    let state = CodeViewState::new(1);
    let next = pointer_state(state, 2, true);
    assert_eq!(next.selected_lines(), 1..3);
    assert_eq!(pointer_state(next, 0, false), CodeViewState::new(0));
}

#[test]
fn wrap_layout_uses_zero_horizontal_offset() {
    let layout = layout(&["abcdefgh"], true, 4);
    assert!(layout.options().wraps());
    assert_eq!(layout.visual_row_count(), 2);
    assert_eq!(layout.rows_for_line(0), 0..2);
}

#[test]
fn layout_options_are_available_to_view_tests() {
    let options = CodeLayoutOptions::default();
    assert!(options.shows_line_numbers());
}

#[test]
fn code_view_matches_shared_fixtures() {
    let layout = layout(&["abcdefgh", "b", "c", "d"], false, 4);
    let start = CodeViewState::with_selection(2, 1).with_horizontal_offset(1);
    // action, expected cursor, expected anchor, expected offset
    let cases = [
        (CodeViewAction::Previous, 1, None, 1),
        (CodeViewAction::Next, 3, None, 1),
        (CodeViewAction::First, 0, None, 1),
        (CodeViewAction::Last, 3, None, 1),
        (CodeViewAction::ExtendPrevious, 1, None, 1),
        (CodeViewAction::ExtendNext, 3, Some(1), 1),
        (CodeViewAction::ExtendFirst, 0, Some(1), 1),
        (CodeViewAction::ExtendLast, 3, Some(1), 1),
        (CodeViewAction::HorizontalPrevious, 2, Some(1), 0),
        (CodeViewAction::HorizontalNext, 2, Some(1), 5),
        (CodeViewAction::SelectAll, 3, Some(0), 1),
        (CodeViewAction::CopySelection, 2, Some(1), 1),
        (CodeViewAction::CopyDocument, 2, Some(1), 1),
    ];
    for (action, cursor, anchor, offset) in cases {
        let next = code_view_state_for_action(&layout, start, action, 4);
        assert_eq!(next.cursor(), cursor, "{action:?} cursor");
        assert_eq!(next.selection_anchor(), anchor, "{action:?} anchor");
        assert_eq!(next.horizontal_offset(), offset, "{action:?} offset");
    }
    let empty = CodeLayout::new(
        CodeDocument::new(&mut vec![].into_iter(), false).unwrap(),
        CodeLayoutOptions::default(),
        &[],
    )
    .unwrap();
    let state = code_view_state_for_action(&empty, CodeViewState::new(3), CodeViewAction::Next, 4);
    assert_eq!(state, CodeViewState::new(0));
}

#[test]
fn repeat_copy_is_blocked_only_for_an_enabled_exact_binding() {
    let layout = layout(&["a"], false, 4);
    let (selection, document) = copy_actions_enabled(&layout, CodeViewState::default(), true);
    let event = |modifiers| {
        InputEvent::Key(KeyEvent { code: KeyCode::Character('c'), modifiers, action: KeyAction::Repeat })
    };
    let control = Modifiers { control: true, ..Modifiers::none() };
    assert!(is_blocked_copy_repeat(&event(control), selection, document));
    assert!(!is_blocked_copy_repeat(
        &event(Modifiers { control: true, alt: true, ..Modifiers::none() }),
        selection,
        document
    ));

    let hidden = CodeLine::styled(vec![CodeSpan::new("secret", true)], &[]).unwrap();
    let source = CodeDocument::new(&mut vec![hidden].into_iter(), false).unwrap();
    let hidden_layout =
        CodeLayout::new(source, CodeLayoutOptions::default().with_line_numbers(false), &[ascii("secret")])
            .unwrap();
    let (selection, document) = copy_actions_enabled(&hidden_layout, CodeViewState::default(), true);
    assert!(!is_blocked_copy_repeat(&event(control), selection, document));
}

#[test]
fn document_copy_repeat_needs_control_shift() {
    let press = InputEvent::Key(KeyEvent {
        code: KeyCode::Character('c'),
        modifiers: Modifiers { control: true, shift: true, ..Modifiers::none() },
        action: KeyAction::Repeat,
    });
    assert!(is_blocked_copy_repeat(&press, false, true));
    assert!(!is_blocked_copy_repeat(&press, true, false));
    let first = InputEvent::Key(KeyEvent {
        code: KeyCode::Character('c'),
        modifiers: Modifiers { control: true, ..Modifiers::none() },
        action: KeyAction::Press,
    });
    assert!(!is_blocked_copy_repeat(&first, true, true));
    assert!(!is_blocked_copy_repeat(&InputEvent::Text("c".to_string()), true, true));
}
