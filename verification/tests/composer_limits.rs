use lib::{
    ComposerLengthLimit, ComposerLengthUnit, ComposerOverflowPolicy, TextAreaInsertionDecision,
    TextAreaState, composer_insertion_decision, composer_visible_rows,
};

fn graphemes(parts: &[&str]) -> Vec<String> {
    parts.iter().map(|part| part.to_string()).collect()
}

#[test]
fn limit_constructors_record_unit_and_policy() {
    let bytes = ComposerLengthLimit::utf8_bytes(8, ComposerOverflowPolicy::Reject);
    assert_eq!(bytes.maximum, 8);
    assert_eq!(bytes.unit, ComposerLengthUnit::Utf8Bytes);
    assert_eq!(bytes.overflow, ComposerOverflowPolicy::Reject);
    let clusters = ComposerLengthLimit::graphemes(3, ComposerOverflowPolicy::Truncate);
    assert_eq!(clusters.unit, ComposerLengthUnit::Graphemes);
    assert_eq!(clusters.overflow, ComposerOverflowPolicy::Truncate);
}

#[test]
fn fitting_insertion_is_accepted() {
    let limit = ComposerLengthLimit::utf8_bytes(6, ComposerOverflowPolicy::Reject);
    let state = TextAreaState::at_end("abc");
    let decision = composer_insertion_decision(limit, &state, 3, 0, &graphemes(&["d", "e", "f"]));
    assert_eq!(decision, TextAreaInsertionDecision::Accept);
}

#[test]
fn overflowing_insertion_is_rejected_under_reject_policy() {
    let limit = ComposerLengthLimit::utf8_bytes(5, ComposerOverflowPolicy::Reject);
    let state = TextAreaState::at_end("abc");
    let decision = composer_insertion_decision(limit, &state, 3, 0, &graphemes(&["d", "e", "f"]));
    assert_eq!(decision, TextAreaInsertionDecision::Reject);
}

#[test]
fn overflowing_insertion_is_truncated_to_fitting_bytes() {
    let limit = ComposerLengthLimit::utf8_bytes(5, ComposerOverflowPolicy::Truncate);
    let state = TextAreaState::at_end("abc");
    let decision = composer_insertion_decision(limit, &state, 3, 0, &graphemes(&["d", "e", "f"]));
    assert_eq!(decision, TextAreaInsertionDecision::Replace("de".to_string()));
}

#[test]
fn byte_truncation_keeps_whole_graphemes() {
    let limit = ComposerLengthLimit::utf8_bytes(3, ComposerOverflowPolicy::Truncate);
    let state = TextAreaState::at_end("");
    let decision = composer_insertion_decision(limit, &state, 0, 0, &graphemes(&["é", "é"]));
    assert_eq!(decision, TextAreaInsertionDecision::Replace("é".to_string()));
}

#[test]
fn grapheme_truncation_counts_clusters() {
    let limit = ComposerLengthLimit::graphemes(3, ComposerOverflowPolicy::Truncate);
    let state = TextAreaState::at_end("ab");
    let decision = composer_insertion_decision(limit, &state, 2, 0, &graphemes(&["é", "y"]));
    assert_eq!(decision, TextAreaInsertionDecision::Replace("é".to_string()));
}

#[test]
fn selected_text_does_not_count_against_the_limit() {
    let limit = ComposerLengthLimit::utf8_bytes(4, ComposerOverflowPolicy::Reject);
    let state = TextAreaState::at_end("abcd").select(2);
    let decision = composer_insertion_decision(limit, &state, 4, 2, &graphemes(&["x", "y"]));
    assert_eq!(decision, TextAreaInsertionDecision::Accept);
}

#[test]
fn truncation_with_no_room_inserts_nothing() {
    let limit = ComposerLengthLimit::graphemes(2, ComposerOverflowPolicy::Truncate);
    let state = TextAreaState::at_end("abc");
    let decision = composer_insertion_decision(limit, &state, 3, 0, &graphemes(&["x"]));
    assert_eq!(decision, TextAreaInsertionDecision::Replace(String::new()));
}

#[test]
fn visible_rows_clamp_content_between_normalized_bounds() {
    assert_eq!(composer_visible_rows(0, 0, 0), 1);
    assert_eq!(composer_visible_rows(10, 2, 5), 5);
    assert_eq!(composer_visible_rows(3, 2, 5), 3);
    assert_eq!(composer_visible_rows(1, 4, 2), 4);
    assert_eq!(composer_visible_rows(usize::MAX, 1, u32::MAX), u32::MAX);
}
