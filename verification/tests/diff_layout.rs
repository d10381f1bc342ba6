use lib::{
    CodeCell, CodeLine, DiffDocument, DiffHunk, DiffLayout, DiffLayoutOptions, DiffLine, DiffRange,
    diff_layout_widths,
};

fn plain(text: &str) -> CodeLine {
    CodeLine::plain(text).unwrap()
}

fn ascii(text: &str) -> Vec<CodeCell> {
    text.chars().map(|character| CodeCell::new(0, &character.to_string(), 1)).collect()
}

fn sample_document() -> DiffDocument {
    let hunk = DiffHunk::new(DiffRange::new(1, 3).unwrap(), DiffRange::new(1, 4).unwrap());
    DiffDocument::new(
        &mut vec![
            DiffLine::metadata(plain("diff --git a/a.txt b/a.txt")),
            DiffLine::hunk(hunk, plain("@@ -1,3 +1,4 @@")),
            DiffLine::context(1, 1, plain("same")).unwrap(),
            DiffLine::deletion(2, plain("old")).unwrap(),
            DiffLine::addition(2, plain("new")).unwrap(),
            DiffLine::addition(3, plain("more")).unwrap(),
            DiffLine::context(3, 4, plain("last")).unwrap(),
        ].into_iter(),
        true,
    )
    .unwrap()
}

fn optional(value: Option<u64>) -> String {
    value.map_or_else(|| "-".to_owned(), |value| value.to_string())
}

#[test]
fn hunk_ranges_reserve_number_width_before_body_lines_exist() {
    let document = DiffDocument::new(
        &mut vec![DiffLine::hunk(
            DiffHunk::new(DiffRange::new(995, 10).unwrap(), DiffRange::new(9_995, 10).unwrap()),
            plain("@@ pending @@"),
        )].into_iter(),
        false,
    )
    .unwrap();
    let layout = DiffLayout::new(
        document,
        DiffLayoutOptions::default().with_viewport_width(20),
        &[ascii("@@ pending @@")],
    )
    .unwrap();
    assert_eq!(layout.old_number_width(), 4);
    assert_eq!(layout.new_number_width(), 5);
    assert_eq!(layout.gutter_width(), 13);
    assert_eq!(layout.code_width(), 7);
}

#[test]
fn diff_document_matches_shared_fixtures() {
    let document = sample_document();
    // line, kind, old, new, hunk
    let lines = [
        (0, "metadata", "-", "-", "-"),
        (1, "hunk", "-", "-", "1:3:1:4"),
        (2, "context", "1", "1", "-"),
        (3, "deletion", "2", "-", "-"),
        (4, "addition", "-", "2", "-"),
        (6, "context", "3", "4", "-"),
    ];
    for (index, kind, old, new, hunk) in lines {
        let line = document.line(index).expect("fixture line");
        assert_eq!(line.kind().as_str(), kind, "line {index} kind");
        assert_eq!(optional(line.old_line()), old, "line {index} old");
        assert_eq!(optional(line.new_line()), new, "line {index} new");
        let actual = line.hunk_metadata().map_or_else(
            || "-".to_owned(),
            |hunk| {
                format!(
                    "{}:{}:{}:{}",
                    hunk.old_range().start(),
                    hunk.old_range().count(),
                    hunk.new_range().start(),
                    hunk.new_range().count()
                )
            },
        );
        assert_eq!(actual, hunk, "line {index} hunk");
    }
    let whole = "diff --git a/a.txt b/a.txt\n@@ -1,3 +1,4 @@\n same\n-old\n+new\n+more\n last\n";
    // start, end, bytes, copy
    let copies = [
        (2, 4, "43:53", " same\n-old"),
        (6, 7, "65:71", " last\n"),
        (0, 7, "0:71", whole),
        (3, 3, "49:49", ""),
    ];
    for (start, end, bytes, copy) in copies {
        let range = document.byte_range_for_lines(start..end).expect("fixture range");
        assert_eq!(format!("{}:{}", range.start, range.end), bytes, "copy {start}..{end} bytes");
        assert_eq!(
            document.copy_text_for_lines(start..end).expect("fixture copy"),
            copy,
            "copy {start}..{end}"
        );
    }
}

#[test]
fn diff_layout_matches_shared_fixtures() {
    // line, viewport, tab, wrap, line numbers, gutter, code width, rows, widths, continuations
    let cases: Vec<(DiffLine, &str, u32, u8, bool, bool, u32, u32, &[&str], &[u32], &[bool])> = vec![
        (DiffLine::context(1, 1, plain("abcdef")).unwrap(), "abcdef", 10, 4, true, true, 6, 4, &["abcd", "ef"], &[4, 2], &[false, true]),
        (DiffLine::addition(120, plain("a\tb")).unwrap(), "a\tb", 20, 4, false, true, 8, 12, &["a   b"], &[5], &[false]),
        (DiffLine::deletion(7, plain("xyz")).unwrap(), "xyz", 5, 4, true, true, 2, 3, &["xyz"], &[3], &[false]),
        (DiffLine::context(1, 1, plain("hi")).unwrap(), "hi", 2, 4, false, false, 0, 2, &["hi"], &[2], &[false]),
        (DiffLine::context(3, 4, plain("abc")).unwrap(), "abc", 1, 4, true, true, 0, 1, &["a", "b", "c"], &[1, 1, 1], &[false, true, true]),
    ];
    for (index, (line, input, viewport, tab, wrap, numbers, gutter, code, rows, widths, continuations)) in
        cases.into_iter().enumerate()
    {
        let document = DiffDocument::new(&mut vec![line].into_iter(), false).unwrap();
        let layout = DiffLayout::new(
            document,
            DiffLayoutOptions::default()
                .with_viewport_width(viewport)
                .with_tab_width(tab)
                .with_wrap(wrap)
                .with_line_numbers(numbers),
            &[ascii(input)],
        )
        .unwrap();
        assert_eq!(layout.gutter_width(), gutter, "case {index} gutter");
        assert_eq!(layout.code_width(), code, "case {index} code width");
        let mut actual_rows = Vec::new();
        let mut actual_widths = Vec::new();
        let mut actual_continuations = Vec::new();
        for row in 0..layout.visual_row_count() {
            let row = layout.code_layout().row(row).unwrap();
            actual_rows.push(row.cells().iter().map(|cell| cell.text()).collect::<String>());
            actual_widths.push(row.width());
            actual_continuations.push(row.is_continuation());
        }
        assert_eq!(actual_rows, rows.to_vec(), "case {index} rows");
        assert_eq!(actual_widths, widths.to_vec(), "case {index} widths");
        assert_eq!(actual_continuations, continuations.to_vec(), "case {index} continuations");
    }
}

#[test]
fn number_fields_grow_with_the_largest_line_number() {
    let document = sample_document();
    assert_eq!(diff_layout_widths(&document, 80, true), (6, 1, 1));
    assert_eq!(diff_layout_widths(&document, 6, true), (2, 0, 0));
    assert_eq!(diff_layout_widths(&document, 2, true), (0, 0, 0));
    assert_eq!(diff_layout_widths(&document, 80, false), (2, 0, 0));
    let wide = DiffDocument::new(&mut vec![DiffLine::context(99, 100_000, plain("x")).unwrap()].into_iter(), false).unwrap();
    assert_eq!(diff_layout_widths(&wide, 80, true), (12, 2, 6));
}
