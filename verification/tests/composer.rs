use lib::{
    ComposerHistory, ComposerHistoryEntry, ComposerHistoryEntryId, ComposerState, TextAreaState,
    composer_changed_state, composer_has_history_previous, composer_history_next,
    composer_history_previous,
};

fn history(entries: &[(&str, &str)]) -> ComposerHistory {
    ComposerHistory::new(
        entries
            .iter()
            .map(|(id, value)| ComposerHistoryEntry::new(id, value))
            .collect(),
    )
    .unwrap()
}

#[test]
fn history_rejects_duplicate_stable_ids() {
    let error = ComposerHistory::new(vec![
        ComposerHistoryEntry::new("same", "first"),
        ComposerHistoryEntry::new("same", "second"),
    ])
    .unwrap_err();

    assert_eq!(error.id().as_str(), "same");
}

#[test]
fn history_reconciliation_follows_id_across_front_truncation() {
    let original = history(&[("old", "old"), ("middle", "middle"), ("new", "new")]);
    let draft = TextAreaState::new("draft", 2).select(0);
    let state = ComposerState::new(draft.clone());
    let state = composer_history_previous(&state, &original).unwrap();
    let state = composer_history_previous(&state, &original).unwrap();
    let state = composer_changed_state(&state, TextAreaState::new("middle", 1));
    let truncated = history(&[("middle", "middle"), ("new", "new")]);

    let reconciled = state.reconcile_history(&truncated);

    assert_eq!(reconciled.history_index(), Some(0));
    assert_eq!(reconciled.history_entry_id().map(|id| id.as_str()), Some("middle"));
    assert_eq!(reconciled.text_area().value(), "middle");
    assert_eq!(reconciled.text_area().cursor(), 1);
    assert_eq!(reconciled.draft(), Some(&draft));
}

#[test]
fn history_reconciliation_updates_value_and_restores_draft_when_removed() {
    let original = history(&[("entry", "old value")]);
    let draft = TextAreaState::new("draft", 2).select(0);
    let state = composer_history_previous(&ComposerState::new(draft.clone()), &original).unwrap();
    let replaced = history(&[("entry", "replacement")]);

    let replaced_state = state.clone().reconcile_history(&replaced);
    assert_eq!(replaced_state.text_area().value(), "replacement");
    assert_eq!(replaced_state.text_area().cursor(), "replacement".len());

    let restored = state.reconcile_history(&ComposerHistory::default());
    assert_eq!(restored.text_area(), &draft);
    assert_eq!(restored.history_index(), None);
    assert_eq!(restored.history_entry_id(), None);
    assert_eq!(restored.draft(), None);
}

#[test]
fn recalling_and_returning_restores_the_draft() {
    let entries = history(&[("a", "first"), ("b", "second")]);
    let start = ComposerState::at_end("typing");
    assert!(composer_has_history_previous(&start, &entries));
    let newest = composer_history_previous(&start, &entries).unwrap();
    assert_eq!(newest.text_area().value(), "second");
    assert_eq!(newest.history_index(), Some(1));
    let oldest = composer_history_previous(&newest, &entries).unwrap();
    assert_eq!(oldest.text_area().value(), "first");
    assert!(!composer_has_history_previous(&oldest, &entries));
    assert!(composer_history_previous(&oldest, &entries).is_none());
    let back = composer_history_next(&oldest, &entries).unwrap();
    assert_eq!(back.text_area().value(), "second");
    let draft = composer_history_next(&back, &entries).unwrap();
    assert_eq!(draft.text_area().value(), "typing");
    assert_eq!(draft.history_index(), None);
    assert!(composer_history_next(&draft, &entries).is_none());
}

#[test]
fn empty_history_has_nothing_to_recall() {
    let state = ComposerState::at_end("x");
    let empty = ComposerHistory::default();
    assert!(!composer_has_history_previous(&state, &empty));
    assert!(composer_history_previous(&state, &empty).is_none());
    assert!(empty.is_empty());
    assert_eq!(empty.len(), 0);
    assert!(empty.get(0).is_none());
}

#[test]
fn history_lookup_and_accessors() {
    let entries = history(&[("a", "one"), ("b", "two")]);
    assert_eq!(entries.len(), 2);
    assert_eq!(entries.get(1).map(|entry| entry.value()), Some("two"));
    assert_eq!(entries.position(&ComposerHistoryEntryId::new("b")), Some(1));
    assert_eq!(entries.position(&ComposerHistoryEntryId::new("z")), None);
    assert_eq!(entries.as_slice()[0].id().as_str(), "a");
}

#[test]
fn editing_the_text_leaves_browsing() {
    let entries = history(&[("a", "one")]);
    let browsing = composer_history_previous(&ComposerState::at_end("draft"), &entries).unwrap();
    let same = composer_changed_state(&browsing, TextAreaState::new("one", 0));
    assert_eq!(same.history_index(), Some(0));
    let edited = composer_changed_state(&browsing, TextAreaState::at_end("one!"));
    assert_eq!(edited.history_index(), None);
    assert_eq!(edited.draft(), None);
    let replaced = browsing.with_text_area(TextAreaState::at_end("other"));
    assert_eq!(replaced.history_entry_id(), None);
}
