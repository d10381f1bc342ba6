use lib::{ChartPoint, chart_plot_area, chart_series_cells, line_cells};

#[test]
fn shallow_line_steps_once_per_column() {
    assert_eq!(
        line_cells((0, 0), (4, 2)),
        vec![(0, 0), (1, 1), (2, 1), (3, 2), (4, 2)]
    );
}

#[test]
fn steep_line_steps_once_per_row() {
    assert_eq!(
        line_cells((0, 0), (-2, 5)),
        vec![(0, 0), (0, 1), (-1, 2), (-1, 3), (-2, 4), (-2, 5)]
    );
}

#[test]
fn leftward_line_rounds_halves_toward_the_end() {
    assert_eq!(
        line_cells((5, 1), (0, 3)),
        vec![(5, 1), (4, 1), (3, 2), (2, 2), (1, 3), (0, 3)]
    );
}

#[test]
fn single_point_line_is_one_cell() {
    assert_eq!(line_cells((3, 3), (3, 3)), vec![(3, 3)]);
}

#[test]
fn plot_area_leaves_room_for_axes() {
    assert_eq!(chart_plot_area(10, 5, true), Some((1, 9, 4)));
    assert_eq!(chart_plot_area(3, 2, false), Some((0, 3, 2)));
    assert_eq!(chart_plot_area(1, 1, true), None);
    assert_eq!(chart_plot_area(0, 5, false), None);
    assert_eq!(chart_plot_area(5, 0, false), None);
}

#[test]
fn series_cells_map_points_and_join_them() {
    let points = [ChartPoint::new(0, 0), ChartPoint::new(10, 10)];
    let (markers, segments) = chart_series_cells(&points, (0, 10, 0, 10), 1, 11, 11);
    assert_eq!(markers, vec![(1, 10), (11, 0)]);
    assert_eq!(segments.len(), 1);
    assert_eq!(
        segments[0],
        vec![
            (1, 10),
            (2, 9),
            (3, 8),
            (4, 7),
            (5, 6),
            (6, 5),
            (7, 4),
            (8, 3),
            (9, 2),
            (10, 1),
            (11, 0)
        ]
    );
}

#[test]
fn series_without_points_has_no_cells() {
    let (markers, segments) = chart_series_cells(&[], (0, 1, 0, 1), 0, 4, 4);
    assert!(markers.is_empty());
    assert!(segments.is_empty());
}

#[test]
fn drawn_line_joins_its_endpoints_with_touching_cells() {
    for (start, end) in [((0, 0), (7, 3)), ((4, -2), (-3, 9)), ((-5, -5), (5, 5))] {
        let cells = line_cells(start, end);
        assert_eq!(cells[0], start);
        assert_eq!(*cells.last().unwrap(), end);
        for pair in cells.windows(2) {
            assert!((pair[0].0 - pair[1].0).abs() <= 1);
            assert!((pair[0].1 - pair[1].1).abs() <= 1);
        }
    }
}
