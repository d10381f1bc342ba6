use lib::{
    DuplicateSuggestionId, InputEvent, KeyAction, KeyCode, KeyEvent, Modifiers, SuggestionId,
    SuggestionItems, SuggestionRowContext, normalized_suggestion_selection,
    suggestion_blocked_repeat, suggestion_row_id, suggestion_window,
};

#[test]
fn selection_uses_stable_identity_and_falls_back_to_first() {
    let candidates = SuggestionItems::new(vec![SuggestionId::new("a"), SuggestionId::new("b")])
        .expect("unique candidates");
    assert_eq!(
        normalized_suggestion_selection(&candidates, Some(&SuggestionId::new("b"))),
        Some(1)
    );
    assert_eq!(
        normalized_suggestion_selection(&candidates, Some(&SuggestionId::new("missing"))),
        Some(0)
    );
}

#[test]
fn visible_window_follows_selection() {
    assert_eq!(suggestion_window(10, 0, 3), (0, 3));
    assert_eq!(suggestion_window(10, 5, 3), (3, 6));
    assert_eq!(suggestion_window(10, 9, 3), (7, 10));
}

#[test]
fn immutable_items_reject_duplicates_and_share_storage() {
    let items = SuggestionItems::new(vec![SuggestionId::new("a"), SuggestionId::new("b")])
        .expect("unique candidates");
    let clone = items.clone();
    assert!(items.shares_storage(&clone));
    assert_eq!(items.len(), 2);
    assert_eq!(items.get(1).map(SuggestionId::as_str), Some("b"));

    let duplicate: DuplicateSuggestionId =
        SuggestionItems::new(vec![SuggestionId::new("same"), SuggestionId::new("same")])
            .expect_err("duplicate must fail");
    assert_eq!(duplicate.id().as_str(), "same");
}

#[test]
fn selection_is_absent_without_candidates() {
    let empty = SuggestionItems::default();
    assert!(empty.is_empty());
    assert_eq!(normalized_suggestion_selection(&empty, None), None);
    let items = SuggestionItems::new(vec![SuggestionId::new("x")]).unwrap();
    assert_eq!(normalized_suggestion_selection(&items, None), Some(0));
    assert!(!items.shares_storage(&SuggestionItems::new(vec![SuggestionId::new("x")]).unwrap()));
}

#[test]
fn window_is_never_empty_and_fits_the_candidates() {
    assert_eq!(suggestion_window(2, 1, 0), (1, 2));
    assert_eq!(suggestion_window(2, 5, 10), (0, 2));
    assert_eq!(suggestion_window(0, 0, 3), (0, 0));
    let context = SuggestionRowContext::new(3, SuggestionId::new("c"), true);
    assert_eq!(context.index(), 3);
    assert_eq!(context.id().as_str(), "c");
    assert!(context.is_selected());
}

#[test]
fn derived_row_ids_distinguish_popup_and_candidate_boundaries() {
    let first = suggestion_row_id("x", &SuggestionId::new("y:suggestion-row:1:z"));
    let second = suggestion_row_id("x:suggestion-row:20:y", &SuggestionId::new("z"));
    assert_ne!(first, second);
}

#[test]
fn row_ids_frame_each_identity_by_its_byte_length() {
    assert_eq!(suggestion_row_id("popup", &SuggestionId::new("a")), "suggestion-row:5:popup:1:a");
    assert_eq!(suggestion_row_id("é", &SuggestionId::new("")), "suggestion-row:2:é:0:");
}

#[test]
fn open_popup_consumes_unmodified_accept_and_dismiss_repeats() {
    let repeat = |code, modifiers| InputEvent::Key(KeyEvent { code, modifiers, action: KeyAction::Repeat });
    assert!(suggestion_blocked_repeat(&repeat(KeyCode::Enter, Modifiers::none())));
    assert!(suggestion_blocked_repeat(&repeat(KeyCode::Escape, Modifiers::none())));
    assert!(!suggestion_blocked_repeat(&repeat(KeyCode::Down, Modifiers::none())));
    assert!(!suggestion_blocked_repeat(&repeat(
        KeyCode::Enter,
        Modifiers { shift: true, ..Modifiers::none() }
    )));
    let press = InputEvent::Key(KeyEvent {
        code: KeyCode::Enter,
        modifiers: Modifiers::none(),
        action: KeyAction::Press,
    });
    assert!(!suggestion_blocked_repeat(&press));
}
