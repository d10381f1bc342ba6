use std::cell::Cell;

use lib::{
    CodeLine, CodeSpan, DiffDocument, DiffDocumentErrorKind, DiffDocumentLimits, DiffHunk,
    DiffLine, DiffLineKind, DiffRange, DiffSide, InvalidDiffRangeKind,
};

fn plain(text: &str) -> CodeLine {
    CodeLine::plain(text).unwrap()
}

fn sample_document() -> DiffDocument {
    let hunk = DiffHunk::new(DiffRange::new(1, 3).unwrap(), DiffRange::new(1, 4).unwrap());
    DiffDocument::new(
        &mut vec![
            DiffLine::metadata(plain("diff --git a/a.txt b/a.txt")),
            DiffLine::hunk(hunk, plain("@@ -1,3 +1,4 @@")),
            DiffLine::context(1, 1, plain("same")).unwrap(),
            DiffLine::deletion(2, plain("old")).unwrap(),
            DiffLine::addition(2, plain("new")).unwrap(),
            DiffLine::addition(3, plain("more")).unwrap(),
            DiffLine::context(3, 4, plain("last")).unwrap(),
        ].into_iter(),
        true,
    )
    .unwrap()
}

#[test]
fn range_and_line_constructors_reject_invalid_numbers() {
    let error = DiffRange::new(0, 1).unwrap_err();
    assert_eq!(error.kind(), InvalidDiffRangeKind::Start);
    let error = DiffRange::new(u64::MAX, 2).unwrap_err();
    assert_eq!(error.kind(), InvalidDiffRangeKind::Overflow);
    assert_eq!(DiffRange::new(0, 0).unwrap(), DiffRange::default());
    assert_eq!(DiffRange::new(u64::MAX, 1).unwrap().last(), Some(u64::MAX));

    let error = DiffLine::context(0, 1, plain("a")).unwrap_err();
    assert_eq!(error.side(), DiffSide::Old);
    let error = DiffLine::context(1, 0, plain("a")).unwrap_err();
    assert_eq!(error.side(), DiffSide::New);
    let error = DiffLine::addition(0, plain("a")).unwrap_err();
    assert_eq!(error.side(), DiffSide::New);
    let error = DiffLine::deletion(0, plain("a")).unwrap_err();
    assert_eq!(error.side(), DiffSide::Old);
}

#[test]
fn range_errors_and_lines_keep_their_fields() {
    let overflow = DiffRange::new(u64::MAX, 2).unwrap_err();
    assert_eq!(overflow.start(), u64::MAX);
    assert_eq!(overflow.count(), 2);
    assert_eq!(DiffRange::new(0, 0).unwrap().last(), None);
    assert_eq!(DiffRange::new(3, 4).unwrap().last(), Some(6));
    assert_eq!(DiffLine::context(0, 1, plain("x")).unwrap_err().value(), 0);
    let line = DiffLine::context(4, 5, plain("x")).unwrap();
    assert_eq!(line.old_line(), Some(4));
    assert_eq!(line.new_line(), Some(5));
    assert_eq!(line.kind(), DiffLineKind::Context);
}

#[test]
fn document_copy_is_generated_with_exact_markers_and_ranges() {
    let document = sample_document();
    assert_eq!(document.text_bytes(), 71);
    assert_eq!(document.byte_range_for_lines(0..2), Some(0..42));
    assert_eq!(
        document.copy_text_for_lines(0..2).as_deref(),
        Some("diff --git a/a.txt b/a.txt\n@@ -1,3 +1,4 @@")
    );
    assert_eq!(document.byte_range_for_lines(2..7), Some(43..71));
    assert_eq!(
        document.copy_text_for_lines(2..7).as_deref(),
        Some(" same\n-old\n+new\n+more\n last\n")
    );
    assert_eq!(document.byte_range_for_lines(7..7), Some(71..71));
    assert_eq!(document.copy_text_for_lines(7..7).as_deref(), Some(""));
}

#[test]
fn hunk_metadata_and_projection_follow_the_lines() {
    let hunk = DiffHunk::new(DiffRange::new(1, 2).unwrap(), DiffRange::new(1, 2).unwrap());
    let document = DiffDocument::new(
        &mut vec![
            DiffLine::metadata(plain("diff")),
            DiffLine::hunk(hunk, plain("@@ -1,2 +1,2 @@")),
            DiffLine::context(1, 1, plain("same")).unwrap(),
        ].into_iter(),
        false,
    )
    .unwrap();
    assert_eq!(document.line(1).and_then(DiffLine::hunk_metadata), Some(hunk));
    assert_eq!(document.projection().text(), "diff\n@@ -1,2 +1,2 @@\nsame");
}

#[test]
fn hidden_content_blocks_only_overlapping_copy_ranges() {
    let hidden = CodeLine::styled(vec![CodeSpan::new("secret", true)], &[]).unwrap();
    let document = DiffDocument::new(
        &mut vec![DiffLine::addition(1, plain("public")).unwrap(), DiffLine::deletion(1, hidden).unwrap()].into_iter(),
        false,
    )
    .unwrap();
    assert!(document.is_range_copyable(0..1));
    assert!(!document.is_range_copyable(1..2));
    assert!(document.copy_text_for_lines(1..2).is_none());
}

#[test]
fn limits_include_unified_markers_and_stop_consuming_input() {
    let consumed = Cell::new(0_u64);
    let mut source = (0_u64..3).map(|value| {
        consumed.set(value + 1);
        DiffLine::addition(value + 1, plain("a")).unwrap()
    });
    let error = DiffDocument::new_with_limits(
        &mut source,
        false,
        DiffDocumentLimits::default().with_max_lines(1),
    )
    .unwrap_err();
    assert_eq!(error.kind(), DiffDocumentErrorKind::LineLimit);
    assert_eq!(error.observed(), 2);
    assert_eq!(consumed.get(), 2);

    let error = DiffDocument::new_with_limits(
        &mut vec![DiffLine::metadata(
            CodeLine::styled(vec![CodeSpan::new("a", false), CodeSpan::new("b", false)], &[0, 1, 2])
                .unwrap(),
        )].into_iter(),
        false,
        DiffDocumentLimits::default().with_max_spans(1),
    )
    .unwrap_err();
    assert_eq!(error.kind(), DiffDocumentErrorKind::SpanLimit);
    assert_eq!(error.observed(), 2);

    let error = DiffDocument::new_with_limits(
        &mut vec![DiffLine::addition(1, plain("a")).unwrap()].into_iter(),
        false,
        DiffDocumentLimits::default().with_max_text_bytes(1),
    )
    .unwrap_err();
    assert_eq!(error.kind(), DiffDocumentErrorKind::TextByteLimit);
    assert_eq!(error.observed(), 2);
}

#[test]
fn text_byte_limits_count_markers_and_separators() {
    let lines = || vec![DiffLine::addition(1, plain("abc")).unwrap(), DiffLine::addition(2, plain("d")).unwrap()];
    let error = DiffDocument::new_with_limits(&mut lines().into_iter(), false, DiffDocumentLimits::default().with_max_text_bytes(3))
        .unwrap_err();
    assert_eq!(error.kind(), DiffDocumentErrorKind::TextByteLimit);
    assert_eq!(error.observed(), 4);
    let error = DiffDocument::new_with_limits(&mut lines().into_iter(), false, DiffDocumentLimits::default().with_max_text_bytes(5))
        .unwrap_err();
    assert_eq!(error.observed(), 6);
    let error = DiffDocument::new_with_limits(&mut lines().into_iter(), true, DiffDocumentLimits::default().with_max_text_bytes(7))
        .unwrap_err();
    assert_eq!(error.observed(), 8);
    let document = DiffDocument::new_with_limits(&mut lines().into_iter(), true, DiffDocumentLimits::default().with_max_text_bytes(8)).unwrap();
    assert_eq!(document.text_bytes(), 8);
}

#[test]
fn kinds_and_sides_have_stable_names() {
    assert_eq!(DiffLineKind::Addition.marker(), Some('+'));
    assert_eq!(DiffLineKind::Deletion.marker(), Some('-'));
    assert_eq!(DiffLineKind::Context.marker(), Some(' '));
    assert_eq!(DiffLineKind::Hunk.marker(), None);
    assert_eq!(DiffLineKind::Metadata.as_str(), "metadata");
    assert_eq!(DiffSide::New.as_str(), "new");
    assert_eq!(InvalidDiffRangeKind::Overflow.as_str(), "overflow");
    assert_eq!(DiffDocumentErrorKind::SpanLimit.as_str(), "span-limit");
    let empty = DiffDocument::default();
    assert_eq!(empty.line_count(), 0);
    assert_eq!(empty.text_bytes(), 0);
    assert!(!empty.has_trailing_newline());
}
