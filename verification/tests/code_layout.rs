use lib::{
    CodeCell, CodeDocument, CodeLayout, CodeLayoutOptions,
    CodeLine, CodeSpan, CodeVisualRow,
};

/// One cell per character of run 0, each one cell wide
fn ascii(text: &str) -> Vec<CodeCell> {
    text.chars().map(|character| CodeCell::new(0, &character.to_string(), 1)).collect()
}

fn plain_document(lines: &[&str]) -> (CodeDocument, Vec<Vec<CodeCell>>) {
    let document =
        CodeDocument::new(&mut lines.iter().map(|line| CodeLine::plain(line).unwrap()), false)
            .unwrap();
    (document, lines.iter().map(|line| ascii(line)).collect())
}

fn row_text(row: &CodeVisualRow) -> String {
    row.cells().iter().map(|cell| cell.text()).collect()
}

/// Texts of consecutive cells of one run, as a renderer styles them
fn run_texts(row: &CodeVisualRow) -> Vec<(usize, String)> {
    let mut runs: Vec<(usize, String)> = Vec::new();
    for cell in row.cells() {
        match runs.last_mut() {
            Some((span, text)) if *span == cell.span() => text.push_str(cell.text()),
            _ => runs.push((cell.span(), cell.text().to_string())),
        }
    }
    runs
}

fn options(viewport: u32, tab: u8, wrap: bool, line_numbers: bool) -> CodeLayoutOptions {
    CodeLayoutOptions::default()
        .with_viewport_width(viewport)
        .with_tab_width(tab)
        .with_wrap(wrap)
        .with_line_numbers(line_numbers)
}

#[test]
fn layout_expands_tabs_wraps_and_preserves_styles() {
    let line = CodeLine::styled(
        vec![CodeSpan::new("A\t", false), CodeSpan::new("日B", false)],
        &[0, 1, 2, 5, 6],
    )
    .unwrap();
    let document = CodeDocument::new(&mut vec![line].into_iter(), false).unwrap();
    let graphemes = vec![vec![
        CodeCell::new(0, "A", 1),
        CodeCell::new(0, "\t", 0),
        CodeCell::new(1, "日", 2),
        CodeCell::new(1, "B", 1),
    ]];
    let layout = CodeLayout::new(
        document,
        CodeLayoutOptions::default().with_viewport_width(8).with_line_numbers(false).with_wrap(true),
        &graphemes,
    )
    .unwrap();
    assert_eq!(layout.visual_row_count(), 1);
    let row = layout.row(0).unwrap();
    assert_eq!(row.width(), 7);
    let runs = run_texts(row);
    assert_eq!(runs[0], (0, "A   ".to_string()));
    assert_eq!(runs[1], (1, "日B".to_string()));
}

#[test]
fn cjk_profile_changes_wrapping() {
    let (document, _) = plain_document(&["·A"]);
    let modern_cells = vec![vec![CodeCell::new(0, "·", 1), CodeCell::new(0, "A", 1)]];
    let cjk_cells = vec![vec![CodeCell::new(0, "·", 2), CodeCell::new(0, "A", 1)]];
    let (second, _) = plain_document(&["·A"]);
    let modern = CodeLayout::new(document, options(2, 4, true, false), &modern_cells).unwrap();
    let cjk = CodeLayout::new(second, options(2, 4, true, false), &cjk_cells).unwrap();
    assert_eq!(modern.visual_row_count(), 1);
    assert_eq!(cjk.visual_row_count(), 2);
}

#[test]
fn code_layout_matches_shared_fixtures() {
    // input, viewport, tab, wrap, line numbers, gutter, code width, rows, widths, continuations
    let cases: [(&str, u32, u8, bool, bool, u32, u32, &[&str], &[u32], &[bool]); 6] = [
        ("abcdef", 4, 4, true, false, 0, 4, &["abcd", "ef"], &[4, 2], &[false, true]),
        ("a\tb", 80, 4, false, true, 4, 76, &["a   b"], &[5], &[false]),
        ("", 10, 4, true, false, 0, 10, &[""], &[0], &[false]),
        ("ab\tc", 3, 4, true, false, 0, 3, &["ab ", " c"], &[3, 2], &[false, true]),
        ("hello", 3, 4, false, true, 0, 3, &["hello"], &[5], &[false]),
        ("\t\tx", 6, 2, true, true, 4, 2, &["  ", "  ", "x"], &[2, 2, 1], &[false, true, true]),
    ];
    for (index, (input, viewport, tab, wrap, numbers, gutter, code, rows, widths, continuations)) in
        cases.iter().enumerate()
    {
        let (document, graphemes) = plain_document(&[input]);
        let layout =
            CodeLayout::new(document, options(*viewport, *tab, *wrap, *numbers), &graphemes).unwrap();
        assert_eq!(layout.gutter_width(), *gutter, "case {index} gutter");
        assert_eq!(layout.code_width(), *code, "case {index} code width");
        let actual_rows: Vec<String> =
            (0..layout.visual_row_count()).map(|row| row_text(layout.row(row).unwrap())).collect();
        assert_eq!(actual_rows, rows.to_vec(), "case {index} rows");
        let actual_widths: Vec<u32> =
            (0..layout.visual_row_count()).map(|row| layout.row(row).unwrap().width()).collect();
        assert_eq!(actual_widths, widths.to_vec(), "case {index} widths");
        let actual_continuations: Vec<bool> = (0..layout.visual_row_count())
            .map(|row| layout.row(row).unwrap().is_continuation())
            .collect();
        assert_eq!(actual_continuations, continuations.to_vec(), "case {index} continuations");
    }
}

#[test]
fn every_line_owns_a_contiguous_run_of_rows() {
    let (document, graphemes) = plain_document(&["abcdefg", "", "xy"]);
    let layout = CodeLayout::new(document, options(3, 4, true, false), &graphemes).unwrap();
    assert_eq!(layout.visual_row_count(), 5);
    assert_eq!(layout.rows_for_line(0), 0..3);
    assert_eq!(layout.rows_for_line(1), 3..4);
    assert_eq!(layout.rows_for_line(2), 4..5);
    assert_eq!(layout.rows_for_line(3), 0..0);
    for row in 0..5 {
        let line = layout.row(row).unwrap().line();
        assert!(layout.rows_for_line(line).contains(&row));
    }
    assert!(layout.row(5).is_none());
    assert_eq!(layout.maximum_row_width(), 3);
    assert_eq!(layout.document().line_count(), 3);
    assert!(layout.options().wraps());
    assert_eq!(layout.clone().visual_row_count(), 5);
}

#[test]
fn tabs_stop_at_the_next_multiple_of_the_tab_width() {
    for prefix in ["", "a", "ab", "abc"] {
        let input = format!("{prefix}\tz");
        let (document, graphemes) = plain_document(&[&input]);
        let layout = CodeLayout::new(document, options(80, 4, false, false), &graphemes).unwrap();
        assert_eq!(row_text(layout.row(0).unwrap()).find('z'), Some(4));
    }
}

#[test]
fn layout_options_restore_defaults_for_zero() {
    let options = CodeLayoutOptions::default().with_viewport_width(0).with_tab_width(0);
    assert_eq!(options.viewport_width(), 80);
    assert_eq!(options.tab_width(), 4);
    assert!(!options.wraps());
    assert!(options.shows_line_numbers());
}
