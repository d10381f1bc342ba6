use std::cell::Cell;

use lib::{
    CodeCell, CodeLayout, CodeLayoutOptions, CodeDocument, CodeDocumentErrorKind, CodeDocumentLimits, CodeLayoutErrorKind, CodeLayoutLimits,
    CodeLine, CodeSpan, InvalidCodeLineKind, check_layout_limit, code_layout_widths, decimal_digits,
};

/// One cell per character of run 0, each one cell wide
fn ascii(text: &str) -> Vec<CodeCell> {
    text.chars().map(|character| CodeCell::new(0, &character.to_string(), 1)).collect()
}

fn plain_document(lines: &[&str]) -> (CodeDocument, Vec<Vec<CodeCell>>) {
    let document =
        CodeDocument::new(&mut lines.iter().map(|line| CodeLine::plain(line).unwrap()), false)
            .unwrap();
    (document, lines.iter().map(|line| ascii(line)).collect())
}

fn options(viewport: u32, tab: u8, wrap: bool, line_numbers: bool) -> CodeLayoutOptions {
    CodeLayoutOptions::default()
        .with_viewport_width(viewport)
        .with_tab_width(tab)
        .with_wrap(wrap)
        .with_line_numbers(line_numbers)
}

#[test]
fn line_rejects_breaks_and_split_graphemes() {
    let line = CodeLine::plain("a\nb").unwrap_err();
    assert_eq!(line.kind(), InvalidCodeLineKind::LineBreak);
    assert_eq!(line.byte_offset(), 1);
    // "e" followed by a combining acute accent forms one grapheme: offset 1 is no boundary
    let split = CodeLine::styled(vec![CodeSpan::new("e", false), CodeSpan::new("\u{301}", false)], &[0, 3])
        .unwrap_err();
    assert_eq!(split.kind(), InvalidCodeLineKind::GraphemeBoundary);
    assert_eq!(split.span_index(), 0);
    assert_eq!(split.byte_offset(), 1);
}

#[test]
fn document_preserves_line_ranges_and_trailing_newline() {
    let document = CodeDocument::new(
        &mut vec![CodeLine::plain("a").unwrap(), CodeLine::plain("日").unwrap()].into_iter(),
        true,
    )
    .unwrap();
    assert_eq!(document.text(), "a\n日\n");
    assert_eq!(document.byte_range_for_lines(0..1), Some(0..1));
    assert_eq!(document.byte_range_for_lines(1..2), Some(2..6));
    assert_eq!(document.byte_range_for_lines(0..2), Some(0..6));
    assert_eq!(document.byte_range_for_lines(2..2), Some(6..6));
    assert_eq!(document.byte_range_for_lines(1..0), None);
    assert_eq!(document.byte_range_for_lines(0..3), None);
    assert!(document.has_trailing_newline());
    assert_eq!(document.line_count(), 2);
    assert_eq!(document.line(1).map(CodeLine::text), Some("日"));
}

#[test]
fn hidden_line_makes_only_overlapping_ranges_non_copyable() {
    let hidden = CodeLine::styled(vec![CodeSpan::new("secret", true)], &[]).unwrap();
    assert!(!hidden.is_copyable());
    let document = CodeDocument::new(&mut vec![CodeLine::plain("public").unwrap(), hidden].into_iter(), false).unwrap();
    assert!(document.is_range_copyable(0..1));
    assert!(!document.is_range_copyable(1..2));
    assert!(!document.is_range_copyable(0..2));
    assert!(document.is_range_copyable(2..2));
    assert!(!document.is_range_copyable(0..3));
}

#[test]
fn source_and_layout_limits_fail_before_publication() {
    let line = CodeLine::plain("abcd").unwrap();
    let error = CodeDocument::new_with_limits(
        &mut vec![line.clone(), line.clone()].into_iter(),
        false,
        CodeDocumentLimits::default().with_max_lines(1),
    )
    .unwrap_err();
    assert_eq!(error.kind(), CodeDocumentErrorKind::LineLimit);

    let error = CodeDocument::new_with_limits(
        &mut vec![CodeLine::styled(vec![CodeSpan::new("a", false), CodeSpan::new("b", false)], &[0, 1, 2]).unwrap()].into_iter(),
        false,
        CodeDocumentLimits::default().with_max_spans(1),
    )
    .unwrap_err();
    assert_eq!(error.kind(), CodeDocumentErrorKind::SpanLimit);
    assert_eq!(error.observed(), 2);

    let error = CodeDocument::new_with_limits(
        &mut vec![CodeLine::plain("ab").unwrap()].into_iter(),
        false,
        CodeDocumentLimits::default().with_max_text_bytes(1),
    )
    .unwrap_err();
    assert_eq!(error.kind(), CodeDocumentErrorKind::TextByteLimit);
    assert_eq!(error.observed(), 2);

    let (document, graphemes) = plain_document(&["abcd"]);
    let error = CodeLayout::new_with_limits(
        document,
        options(1, 4, true, false),
        &graphemes,
        CodeLayoutLimits::default().with_max_visual_rows(2),
    )
    .unwrap_err();
    assert_eq!(error.kind(), CodeLayoutErrorKind::VisualRowLimit);
    assert_eq!(error.observed(), 3);

    let (document, graphemes) = plain_document(&["ab"]);
    let error = CodeLayout::new_with_limits(
        document,
        CodeLayoutOptions::default().with_line_numbers(false),
        &graphemes,
        CodeLayoutLimits::default().with_max_display_bytes(1),
    )
    .unwrap_err();
    assert_eq!(error.kind(), CodeLayoutErrorKind::DisplayByteLimit);
    assert_eq!(error.observed(), 2);

    let (document, graphemes) = plain_document(&["a\t"]);
    let error = CodeLayout::new_with_limits(
        document,
        CodeLayoutOptions::default().with_line_numbers(false).with_tab_width(u8::MAX),
        &graphemes,
        CodeLayoutLimits::default().with_max_display_bytes(2),
    )
    .unwrap_err();
    assert_eq!(error.kind(), CodeLayoutErrorKind::DisplayByteLimit);
    assert_eq!(error.observed(), 3);

    let error = check_layout_limit(CodeLayoutErrorKind::VisualRowLimit, 4, 5).unwrap_err();
    assert_eq!(error.kind(), CodeLayoutErrorKind::VisualRowLimit);
    assert_eq!(error.limit(), 4);
    assert_eq!(error.observed(), 5);
    assert!(check_layout_limit(CodeLayoutErrorKind::DisplayByteLimit, 4, 4).is_ok());
    assert_eq!(CodeLayoutLimits::default().with_max_visual_rows(0).max_visual_rows(), 1_000_000);
}

#[test]
fn document_stops_consuming_source_at_the_first_line_over_limit() {
    let consumed = Cell::new(0_u64);
    let line = CodeLine::plain("a").unwrap();
    let mut source = std::iter::from_fn(|| {
        consumed.set(consumed.get() + 1);
        Some(line.clone())
    });
    let error = CodeDocument::new_with_limits(
        &mut source,
        false,
        CodeDocumentLimits::default().with_max_lines(2),
    )
    .unwrap_err();
    assert_eq!(error.kind(), CodeDocumentErrorKind::LineLimit);
    assert_eq!(error.observed(), 3);
    assert_eq!(consumed.get(), 3);
}

#[test]
fn text_byte_limit_stops_at_the_line_that_passes_it() {
    let error = CodeDocument::new_with_limits(
        &mut vec![CodeLine::plain("ab").unwrap(), CodeLine::plain("cd").unwrap(), CodeLine::plain("e").unwrap()].into_iter(),
        true,
        CodeDocumentLimits::default().with_max_text_bytes(4),
    )
    .unwrap_err();
    assert_eq!(error.kind(), CodeDocumentErrorKind::TextByteLimit);
    assert_eq!(error.observed(), 5);
    assert_eq!(error.limit(), 4);
}

#[test]
fn styled_lines_concatenate_their_spans() {
    let line = CodeLine::styled(vec![CodeSpan::new("ab", false), CodeSpan::new("日", false)], &[0, 2, 5]).unwrap();
    assert_eq!(line.text(), "ab日");
    assert_eq!(line.spans().len(), 2);
    assert!(line.is_copyable());
    let empty = CodeLine::styled(vec![], &[]).unwrap();
    assert_eq!(empty.text(), "");
    assert_eq!(CodeLine::plain("x\ry").unwrap_err().span_index(), 0);
    let later = CodeLine::styled(vec![CodeSpan::new("ab", false), CodeSpan::new("c\nd", false)], &[]).unwrap_err();
    assert_eq!(later.kind(), InvalidCodeLineKind::LineBreak);
    assert_eq!(later.span_index(), 1);
    assert_eq!(later.byte_offset(), 3);
}

#[test]
fn gutter_width_counts_line_number_digits() {
    assert_eq!(decimal_digits(0), 1);
    assert_eq!(decimal_digits(9), 1);
    assert_eq!(decimal_digits(10), 2);
    assert_eq!(decimal_digits(12_345), 5);
    assert_eq!(code_layout_widths(120, 80, true), (6, 74));
    assert_eq!(code_layout_widths(0, 80, true), (4, 76));
    assert_eq!(code_layout_widths(120, 80, false), (0, 80));
    assert_eq!(code_layout_widths(120, 6, true), (0, 6));
    assert_eq!(code_layout_widths(120, 0, false), (0, 1));
    assert_eq!(InvalidCodeLineKind::GraphemeBoundary.as_str(), "grapheme-boundary");
    assert_eq!(CodeDocumentErrorKind::TextByteLimit.as_str(), "text-byte-limit");
}
