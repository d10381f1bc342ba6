use lib::{
    SelectableTextAction, SelectableTextContent, SelectableTextState, TextCopyKind, current_line,
    next_cursor, next_word, pointer_press_state, pointer_selection_offset, previous_cursor,
    previous_word, selectable_text_state_for_action, text_copy_request,
};

/// Content whose graphemes are given explicitly
fn content(graphemes: &[&str]) -> SelectableTextContent {
    SelectableTextContent::from_graphemes(graphemes.iter().map(|g| g.to_string()).collect(), true)
}

/// Content segmented one character per grapheme, as every test value here segments
fn simple(text: &str) -> SelectableTextContent {
    SelectableTextContent::from_graphemes(text.chars().map(|c| c.to_string()).collect(), true)
}

#[test]
fn state_selection_is_ordered_and_collapses() {
    let state = SelectableTextState::with_selection(5, 2);
    assert_eq!(state.selection(), Some(2..5));
    assert_eq!(state.selection_anchor(), Some(2));
    assert_eq!(state.clear_selection().selection(), None);
    assert_eq!(SelectableTextState::new(3).select(3).selection(), None);
    assert_eq!(SelectableTextState::new(3).select(1).selection(), Some(1..3));
    assert_eq!(SelectableTextState::default().cursor(), 0);
}

#[test]
fn normalization_snaps_offsets_to_grapheme_boundaries() {
    // "e" + combining acute is one grapheme of three bytes
    let text = content(&["a", "e\u{301}", "b"]);
    assert_eq!(text.text(), "ae\u{301}b");
    assert_eq!(text.len(), 5);
    assert_eq!(text.normalize_state(SelectableTextState::new(3)).cursor(), 1);
    assert_eq!(text.normalize_state(SelectableTextState::new(99)).cursor(), 5);
    let collapsed = text.normalize_state(SelectableTextState::with_selection(2, 3));
    assert_eq!(collapsed.selection(), None);
    assert_eq!(collapsed.cursor(), 1);
    let kept = text.normalize_state(SelectableTextState::with_selection(5, 0));
    assert_eq!(kept.selection(), Some(0..5));
}

#[test]
fn normalizing_twice_matches_normalizing_once() {
    let text = content(&["a", "e\u{301}", "b"]);
    for (cursor, anchor) in [(3, 2), (4, 0), (99, 2), (2, 2), (0, 7)] {
        let once = text.normalize_state(SelectableTextState::with_selection(cursor, anchor));
        let twice = text.normalize_state(once);
        assert_eq!(twice.cursor(), once.cursor());
        assert_eq!(twice.selection(), once.selection());
    }
}

#[test]
fn cursor_moves_by_graphemes_words_and_lines() {
    let text = content(&["a", "e\u{301}", "b"]);
    assert_eq!(next_cursor(&text, 1), 4);
    assert_eq!(previous_cursor(&text, 4), 1);
    assert_eq!(previous_cursor(&text, 0), 0);
    assert_eq!(next_cursor(&text, 5), 5);

    let words = simple("one  two three");
    assert_eq!(next_word(&words, 0), 5);
    assert_eq!(next_word(&words, 3), 5);
    assert_eq!(next_word(&words, 9), 14);
    assert_eq!(previous_word(&words, 7), 5);
    assert_eq!(previous_word(&words, 5), 0);
    assert_eq!(previous_word(&words, 0), 0);

    let lines = content(&["a", "b", "\r\n", "c", "d", "\n", "e"]);
    assert_eq!(current_line(&lines, 1), 0..2);
    assert_eq!(current_line(&lines, 5), 4..6);
    assert_eq!(current_line(&lines, 8), 7..8);
}

#[test]
fn actions_follow_the_selection_rules() {
    let text = simple("ab cd");
    let state = SelectableTextState::with_selection(4, 1);
    let left = selectable_text_state_for_action(&text, state, SelectableTextAction::CursorLeft);
    assert_eq!(left, SelectableTextState::new(1));
    let right = selectable_text_state_for_action(&text, state, SelectableTextAction::CursorRight);
    assert_eq!(right, SelectableTextState::new(4));
    let extend = selectable_text_state_for_action(&text, state, SelectableTextAction::SelectionExtendRight);
    assert_eq!(extend.selection(), Some(1..5));
    let all = selectable_text_state_for_action(&text, SelectableTextState::new(2), SelectableTextAction::SelectAll);
    assert_eq!(all.selection(), Some(0..5));
    let end = selectable_text_state_for_action(&text, SelectableTextState::new(2), SelectableTextAction::CursorDocumentEnd);
    assert_eq!(end, SelectableTextState::new(5));
    let word = selectable_text_state_for_action(&text, SelectableTextState::new(0), SelectableTextAction::SelectionExtendWordRight);
    assert_eq!(word.selection(), Some(0..3));
    let home = selectable_text_state_for_action(&text, SelectableTextState::new(4), SelectableTextAction::CursorLineStart);
    assert_eq!(home, SelectableTextState::new(0));
}

#[test]
fn copy_requests_own_the_selected_text() {
    let text = content(&["a", "e\u{301}", "b"]);
    let request = text_copy_request(&text, SelectableTextState::with_selection(4, 1), TextCopyKind::Selection, "text")
        .expect("selection");
    assert_eq!(request.text(), "e\u{301}");
    assert_eq!(request.range(), 1..4);
    assert_eq!(request.source(), "text");
    assert_eq!(request.kind(), TextCopyKind::Selection);
    assert!(text_copy_request(&text, SelectableTextState::new(1), TextCopyKind::Selection, "text").is_none());
    let document = text_copy_request(&text, SelectableTextState::new(1), TextCopyKind::Document, "text").unwrap();
    assert_eq!(document.text(), "ae\u{301}b");
    assert_eq!(document.range(), 0..5);
    assert!(text.is_copyable());
    assert!(!SelectableTextContent::from_graphemes(vec!["x".to_string()], false).is_copyable());
}

#[test]
fn pointer_selection_reaches_the_far_edge_of_the_hit_grapheme() {
    assert_eq!(pointer_selection_offset(2, 3, 5), 2);
    assert_eq!(pointer_selection_offset(6, 7, 5), 7);
    let state = SelectableTextState::new(5);
    assert_eq!(pointer_press_state(state, 6, 7, true).selection(), Some(5..7));
    assert_eq!(pointer_press_state(state, 6, 7, false), SelectableTextState::new(6));
}

#[test]
fn content_clones_share_immutable_storage() {
    let graphemes = "left".chars().chain("right".chars()).map(|c| c.to_string()).collect();
    let content = SelectableTextContent::from_graphemes(graphemes, true);
    let clone = content.clone();
    assert!(content.shares_storage(&clone));
    assert_eq!(content.text(), "leftright");
    assert_eq!(clone.text(), "leftright");
    assert!(!content.shares_storage(&simple("leftright")));

    let plain = simple("one allocation");
    assert_eq!(plain.text(), "one allocation");
    assert!(plain.clone().shares_storage(&plain));
}
