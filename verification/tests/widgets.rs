use lib::{
    ChartPoint, Navigation, PaginatorAction, chart_bounds, chart_scale, completed_cells, navigate,
    normalize_selection, normalized_bounds, normalized_page, page_for_action, paginator_window,
    render_sparkline, scaled_bar_cells, scaled_level, sparkline_bounds, spinner_text,
    thumb_geometry,
};

#[test]
fn bar_chart_scaling_matches_shared_fixtures() {
    // value, maximum, width, filled
    let records: [(u64, u64, u16, usize); 6] = [
        (5, 10, 20, 10),
        (15, 10, 20, 20),
        (0, 0, 8, 0),
        (3, 7, 10, 4),
        (u64::MAX, u64::MAX, u16::MAX, 65_535),
        (1, u64::MAX, u16::MAX, 0),
    ];
    for (index, record) in records.iter().enumerate() {
        assert_eq!(scaled_bar_cells(record.0, record.1, record.2), record.3, "case {index}");
    }
}

#[test]
fn chart_scaling_matches_shared_fixtures() {
    // value, minimum, maximum, cells, expected
    let records: [(i32, i32, i32, i32, i32); 7] = [
        (5, 0, 10, 11, 5),
        (-5, 0, 10, 11, 0),
        (20, 0, 10, 11, 10),
        (3, 0, 10, 1, 0),
        (5, 5, 5, 10, 0),
        (i32::MIN, i32::MIN, i32::MAX, i32::MAX, 0),
        (i32::MAX, i32::MIN, i32::MAX, i32::MAX, 2_147_483_646),
    ];
    for (index, record) in records.iter().enumerate() {
        assert_eq!(chart_scale(record.0, record.1, record.2, record.3), record.4, "case {index}");
    }
}

#[test]
fn chart_bounds_widen_empty_ranges() {
    assert_eq!(normalized_bounds(3, 3, 7, 1), (3, 4, 7, 8));
    assert_eq!(normalized_bounds(i32::MAX, 0, 0, 5), (i32::MAX - 1, 0, 0, 5));
    assert_eq!(chart_bounds(&[], None), (0, 1, 0, 1));
    let points = [ChartPoint::new(2, -1), ChartPoint::new(-4, 9), ChartPoint::new(7, 3)];
    assert_eq!(chart_bounds(&points, None), (-4, 7, -1, 9));
    assert_eq!(chart_bounds(&points, Some((1, 1, 2, 3))), (1, 2, 2, 3));
    assert_eq!(chart_bounds(&[ChartPoint::new(5, 5)], None), (5, 6, 5, 6));
}

#[test]
fn progress_matches_shared_fixtures() {
    assert_eq!(completed_cells(5, 10, 20), 10);
    assert_eq!(completed_cells(50, 10, 20), 20);
    assert_eq!(completed_cells(1, 3, 10), 3);
    assert_eq!(completed_cells(7, 0, 10), 0);
    assert_eq!(completed_cells(u64::MAX - 1, u64::MAX, u16::MAX), 65_534);
}

#[test]
fn rendering_matches_shared_fixtures() {
    assert_eq!(render_sparkline(&[1, 2, 3], 0, None), "");
    assert_eq!(render_sparkline(&[0, 7], 4, None), "  ▁█");
    assert_eq!(render_sparkline(&[0, 1, 2, 3, 4, 5, 6, 7], 3, None), "▆▇█");
    assert_eq!(render_sparkline(&[5, 5], 2, None), "▁▁");
    assert_eq!(render_sparkline(&[0, 50, 100], 3, Some((0, 200))), "▁▂▄");
    assert_eq!(sparkline_bounds(&[4, 9, 1]), (1, 9));
    assert_eq!(sparkline_bounds(&[]), (0, 0));
    assert_eq!(scaled_level(15, 10, 20, 4), 2);
    assert_eq!(scaled_level(5, 10, 20, 4), 0);
    assert_eq!(scaled_level(5, 10, 10, 4), 0);
}

#[test]
fn spinner_matches_shared_fixtures() {
    assert_eq!(spinner_text(0, ""), "⠋");
    assert_eq!(spinner_text(11, "Loading"), "⠙ Loading");
    assert_eq!(spinner_text(9, ""), "⠏");
}

#[test]
fn paging_matches_shared_fixtures() {
    // total, page, limit, normalized, start, end, previous, next
    let records: [(usize, usize, usize, Option<usize>, usize, usize, usize, usize); 5] = [
        (0, 0, 3, None, 0, 0, 0, 0),
        (10, 4, 5, Some(4), 2, 7, 3, 5),
        (10, 12, 3, Some(9), 7, 10, 8, 9),
        (5, 1, 0, Some(1), 0, 5, 0, 2),
        (5, 0, 5, Some(0), 0, 5, 0, 1),
    ];
    for (index, record) in records.iter().enumerate() {
        let normalized = normalized_page(record.1, record.0);
        assert_eq!(normalized, record.3, "case {index}");
        assert_eq!(paginator_window(record.0, record.1, record.2), (record.4, record.5), "case {index}");
        if normalized.is_none() {
            assert_eq!(page_for_action(record.1, record.0, PaginatorAction::Previous), None);
            continue;
        }
        assert_eq!(page_for_action(record.1, record.0, PaginatorAction::Previous), Some(record.6), "case {index} previous");
        assert_eq!(page_for_action(record.1, record.0, PaginatorAction::Next), Some(record.7), "case {index} next");
    }
    assert_eq!(page_for_action(3, 8, PaginatorAction::First), Some(0));
    assert_eq!(page_for_action(3, 8, PaginatorAction::Last), Some(7));
}

#[test]
fn thumb_geometry_matches_shared_fixtures() {
    // content, viewport, offset, track, start, length
    let records: [(u64, u64, u64, u16, u16, u16); 7] = [
        (100, 10, 0, 10, 0, 1),
        (100, 10, 90, 10, 9, 1),
        (100, 10, 45, 10, 4, 1),
        (10, 20, 0, 5, 0, 5),
        (0, 0, 0, 5, 0, 5),
        (100, 50, 1000, 0, 0, 0),
        (1000, 1, 999, 20, 19, 1),
    ];
    for (index, record) in records.iter().enumerate() {
        assert_eq!(
            thumb_geometry(record.0, record.1, record.2, record.3),
            (record.4, record.5),
            "case {index}"
        );
    }
}

#[test]
fn navigation_matches_shared_fixtures() {
    // count, selected, action, expected
    let records = [
        (0, 0, Navigation::Down, None),
        (5, 2, Navigation::Up, Some(1)),
        (5, 0, Navigation::Up, Some(0)),
        (5, 4, Navigation::Down, Some(4)),
        (5, 9, Navigation::Normalize, Some(4)),
        (5, 2, Navigation::Home, Some(0)),
        (5, 2, Navigation::End, Some(4)),
        (5, 2, Navigation::Down, Some(3)),
    ];
    for (index, record) in records.iter().enumerate() {
        assert_eq!(navigate(record.0, record.1, record.2), record.3, "case {index}");
    }
    assert_eq!(normalize_selection(3, 7), Some(2));
    assert_eq!(normalize_selection(0, 7), None);
}
