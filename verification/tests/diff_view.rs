use lib::{
    CodeCell, CodeLine, CodeSpan, CodeViewAction, DiffCopyKind, DiffDocument, DiffHunk,
    DiffLayout, DiffLayoutOptions, DiffLine, DiffRange, DiffViewState, code_gutter_text,
    code_view_state_for_action, diff_copy_actions_enabled, diff_copy_request, diff_gutter_text,
    diff_line_number, normalize_code_view, pointer_state, slice_cells_by_width, visible_row_window,
};

fn plain(text: &str) -> CodeLine {
    CodeLine::plain(text).unwrap()
}

fn ascii(text: &str) -> Vec<CodeCell> {
    text.chars().map(|character| CodeCell::new(0, &character.to_string(), 1)).collect()
}

fn layout(wrap: bool) -> DiffLayout {
    let document = DiffDocument::new(
        &mut vec![
            DiffLine::metadata(plain("header")),
            DiffLine::deletion(1, plain("old")).unwrap(),
            DiffLine::addition(1, plain("new")).unwrap(),
        ].into_iter(),
        true,
    )
    .unwrap();
    DiffLayout::new(
        document,
        DiffLayoutOptions::default().with_viewport_width(10).with_wrap(wrap),
        &[ascii("header"), ascii("old"), ascii("new")],
    )
    .unwrap()
}

fn sample_layout(wrap: bool) -> DiffLayout {
    let hunk = DiffHunk::new(DiffRange::new(1, 3).unwrap(), DiffRange::new(1, 4).unwrap());
    let texts = ["diff --git a/a.txt b/a.txt", "@@ -1,3 +1,4 @@", "same", "old", "new", "more", "last"];
    let document = DiffDocument::new(
        &mut vec![
            DiffLine::metadata(plain(texts[0])),
            DiffLine::hunk(hunk, plain(texts[1])),
            DiffLine::context(1, 1, plain(texts[2])).unwrap(),
            DiffLine::deletion(2, plain(texts[3])).unwrap(),
            DiffLine::addition(2, plain(texts[4])).unwrap(),
            DiffLine::addition(3, plain(texts[5])).unwrap(),
            DiffLine::context(3, 4, plain(texts[6])).unwrap(),
        ].into_iter(),
        true,
    )
    .unwrap();
    let graphemes: Vec<Vec<CodeCell>> = texts.iter().map(|text| ascii(text)).collect();
    DiffLayout::new(
        document,
        DiffLayoutOptions::default().with_viewport_width(12).with_wrap(wrap),
        &graphemes,
    )
    .unwrap()
}

fn row_text(layout: &DiffLayout, row: usize) -> String {
    let record = layout.code_layout().row(row).unwrap();
    let line = layout.document().line(record.line()).unwrap();
    let mut text = diff_gutter_text(layout, line.kind(), line.old_line(), line.new_line(), record.is_continuation());
    for cell in slice_cells_by_width(record.cells(), 0, layout.code_width()) {
        text.push_str(cell.text());
    }
    text
}

#[test]
fn gutter_formats_old_new_markers_and_continuations() {
    let unwrapped = layout(false);
    assert_eq!(row_text(&unwrapped, 1), "1   - old");
    let wrapped = layout(true);
    let continuation = wrapped.code_layout().row(1).expect("metadata continuation");
    assert!(continuation.is_continuation());
    assert!(row_text(&wrapped, 1).starts_with("    > "));
}

#[test]
fn pointer_shift_extends_the_controlled_selection() {
    let layout = layout(false);
    let next = pointer_state(DiffViewState::new(1), 2, true);
    let received = normalize_code_view(layout.code_layout(), next);
    assert_eq!(received.selected_lines(), 1..3);
}

#[test]
fn bounded_window_depends_on_viewport_not_document_size() {
    let layout = sample_layout(false);
    assert_eq!(visible_row_window(layout.code_layout(), 4, 3).len(), 3);
}

#[test]
fn diff_view_matches_shared_fixtures() {
    let layout = sample_layout(false);
    let code = layout.code_layout();
    let start = DiffViewState::with_selection(3, 2);
    // action, expected cursor, expected lines
    let cases = [
        (CodeViewAction::Previous, 2, 2..3),
        (CodeViewAction::Next, 4, 4..5),
        (CodeViewAction::First, 0, 0..1),
        (CodeViewAction::Last, 6, 6..7),
        (CodeViewAction::ExtendNext, 4, 2..5),
        (CodeViewAction::ExtendFirst, 0, 0..3),
        (CodeViewAction::SelectAll, 6, 0..7),
    ];
    for (action, cursor, lines) in cases {
        let next = code_view_state_for_action(code, start, action, 4);
        assert_eq!(next.cursor(), cursor, "{action:?} cursor");
        assert_eq!(next.selected_lines(), lines, "{action:?} lines");
    }
    let request = diff_copy_request(&layout, start, DiffCopyKind::Selection, "diff").expect("copy");
    assert_eq!(request.text(), " same\n-old");
    assert_eq!(request.lines(), 2..4);
    assert_eq!(request.bytes(), 43..53);
    assert_eq!(request.kind(), DiffCopyKind::Selection);
    assert_eq!(request.source(), "diff");
    let whole = diff_copy_request(&layout, start, DiffCopyKind::Document, "diff").expect("copy");
    assert_eq!(whole.lines(), 0..7);
    assert!(whole.text().ends_with(" last\n"));
}

#[test]
fn hidden_diff_lines_disable_copy() {
    let secret = CodeLine::styled(vec![CodeSpan::new("token", true)], &[]).unwrap();
    let document = DiffDocument::new(
        &mut vec![DiffLine::context(1, 1, plain("open")).unwrap(), DiffLine::addition(2, secret).unwrap()].into_iter(),
        false,
    )
    .unwrap();
    assert_eq!(diff_copy_actions_enabled(&document, DiffViewState::new(0), true), (true, false));
    assert_eq!(diff_copy_actions_enabled(&document, DiffViewState::new(1), true), (false, false));
    assert_eq!(diff_copy_actions_enabled(&document, DiffViewState::new(0), false), (false, false));
    let layout = DiffLayout::new(document, DiffLayoutOptions::default(), &[ascii("open"), ascii("token")]).unwrap();
    assert!(diff_copy_request(&layout, DiffViewState::new(1), DiffCopyKind::Selection, "d").is_none());
}

#[test]
fn line_number_fields_are_right_aligned() {
    assert_eq!(diff_line_number(Some(7), 3, false), "  7");
    assert_eq!(diff_line_number(Some(12_345), 3, false), "12345");
    assert_eq!(diff_line_number(None, 2, false), "  ");
    assert_eq!(diff_line_number(Some(7), 2, true), "  ");
    assert_eq!(code_gutter_text(5, 8, false), " 9 | ");
    assert_eq!(code_gutter_text(5, 8, true), "   > ");
    assert_eq!(code_gutter_text(0, 8, false), "");
    assert_eq!(code_gutter_text(4, 99, false), "100 | ");
}
