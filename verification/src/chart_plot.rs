use vstd::prelude::*;

use vstd::arithmetic::div_mod::{lemma_fundamental_div_mod, lemma_fundamental_div_mod_converse, lemma_mod_pos_bound};

use crate::scale::{ChartPoint, chart_scale, spec_chart_scale};

verus! {

/// The distance between two coordinates
pub open spec fn distance(from: int, to: int) -> int {
    if from <= to {
        to - from
    } else {
        from - to
    }
}

/// The coordinate `count` cells from `from` in the direction of `to`
pub open spec fn toward(from: int, to: int, count: int) -> int {
    if from < to {
        from + count
    } else {
        from - count
    }
}

/// Cells taken along the shorter axis after `steps` cells along the longer one: the exact
/// proportion `steps * minor / major`, rounded to the nearest cell with halves rounded up
pub open spec fn minor_steps(steps: int, minor: int, major: int) -> int {
    if major == 0 {
        0
    } else {
        (2 * steps * minor + major) / (2 * major)
    }
}

/// Cell `index` of the line from `start` to `end`: one cell per step along the longer axis,
/// the other coordinate the nearest cell to the exact line, halves rounded toward `end`
pub open spec fn line_cell(start: (i32, i32), end: (i32, i32), index: int) -> (int, int) {
    let dx = distance(start.0 as int, end.0 as int);
    let dy = distance(start.1 as int, end.1 as int);
    if dx >= dy {
        (
            toward(start.0 as int, end.0 as int, index),
            toward(start.1 as int, end.1 as int, minor_steps(index, dy, dx)),
        )
    } else {
        (
            toward(start.0 as int, end.0 as int, minor_steps(index, dx, dy)),
            toward(start.1 as int, end.1 as int, index),
        )
    }
}

/// The number of cells of the line from `start` to `end`: one more than its longer extent
pub open spec fn line_length(start: (i32, i32), end: (i32, i32)) -> int {
    let dx = distance(start.0 as int, end.0 as int);
    let dy = distance(start.1 as int, end.1 as int);
    if dx >= dy {
        dx + 1
    } else {
        dy + 1
    }
}

/// How the rounded shorter-axis count moves when the line takes one more step along its
/// longer axis, through the offset `count * major - steps * minor` of the drawn cell from the
/// exact line
proof fn lemma_minor_step(steps: int, minor: int, major: int)
    requires
        0 <= minor <= major,
        0 < major,
        0 <= steps,
    ensures
        ({
            let count = minor_steps(steps, minor, major);
            let next = minor_steps(steps + 1, minor, major);
            let offset = count * major - steps * minor;
            let next_offset = next * major - (steps + 1) * minor;
            &&& -major < 2 * offset <= major
            &&& next == count || next == count + 1
            &&& (next == count + 1) == (2 * offset <= 2 * minor - major)
            &&& next == count ==> next_offset == offset - minor
            &&& next == count + 1 ==> next_offset == offset - minor + major
            &&& 0 <= count
            &&& steps <= major ==> count <= minor
        }),
{
    let total = 2 * steps * minor + major;
    let divisor = 2 * major;
    let count = total / divisor;
    let rest = total % divisor;
    lemma_fundamental_div_mod(total, divisor);
    lemma_mod_pos_bound(total, divisor);
    assert(0 <= 2 * steps * minor) by (nonlinear_arith)
        requires
            0 <= steps,
            0 <= minor,
    ;
    assert(total == divisor * count + rest);
    assert(2 * (count * major - steps * minor) == major - rest) by (nonlinear_arith)
        requires
            total == 2 * steps * minor + major,
            divisor == 2 * major,
            total == divisor * count + rest,
    ;
    let next_total = 2 * (steps + 1) * minor + major;
    assert(next_total == total + 2 * minor) by (nonlinear_arith)
        requires
            next_total == 2 * (steps + 1) * minor + major,
            total == 2 * steps * minor + major,
    ;
    if rest + 2 * minor < divisor {
        assert(next_total == count * divisor + (rest + 2 * minor)) by (nonlinear_arith)
            requires
                next_total == total + 2 * minor,
                total == divisor * count + rest,
        ;
        lemma_fundamental_div_mod_converse(next_total, divisor, count, rest + 2 * minor);
    } else {
        assert(next_total == (count + 1) * divisor + (rest + 2 * minor - divisor)) by (nonlinear_arith)
            requires
                next_total == total + 2 * minor,
                total == divisor * count + rest,
        ;
        lemma_fundamental_div_mod_converse(next_total, divisor, count + 1, rest + 2 * minor - divisor);
    }
    let next = minor_steps(steps + 1, minor, major);
    if next == count {
        assert(next * major - (steps + 1) * minor == count * major - steps * minor - minor)
            by (nonlinear_arith)
            requires
                next == count,
        ;
    } else {
        assert(next * major - (steps + 1) * minor == count * major - steps * minor - minor
            + major) by (nonlinear_arith)
            requires
                next == count + 1,
        ;
    }
    if count < 0 {
        assert(divisor * count < 0) by (nonlinear_arith)
            requires
                divisor > 0,
                count < 0,
        ;
    }
    if steps <= major && count > minor {
        assert(divisor * count >= divisor * (minor + 1)) by (nonlinear_arith)
            requires
                divisor > 0,
                count >= minor + 1,
        ;
        assert(2 * steps * minor <= 2 * major * minor) by (nonlinear_arith)
            requires
                0 <= steps <= major,
                0 <= minor,
        ;
        assert(divisor * (minor + 1) == 2 * major * minor + 2 * major) by (nonlinear_arith)
            requires
                divisor == 2 * major,
        ;
    }
}

/// After the whole longer extent the line has also covered the whole shorter one
proof fn lemma_minor_steps_at_end(minor: int, major: int)
    requires
        0 <= minor <= major,
    ensures
        minor_steps(major, minor, major) == minor,
{
    if major > 0 {
        assert(2 * major * minor + major == minor * (2 * major) + major) by (nonlinear_arith);
        lemma_fundamental_div_mod_converse(2 * major * minor + major, 2 * major, minor, major);
    }
}

/// A drawn line starts on its first endpoint, ends on its last, and each cell touches the next
/// one by a side or a corner
pub proof fn lemma_line_joins_endpoints(start: (i32, i32), end: (i32, i32))
    ensures
        line_cell(start, end, 0) == (start.0 as int, start.1 as int),
        line_cell(start, end, line_length(start, end) - 1) == (end.0 as int, end.1 as int),
        forall|index: int|
            0 <= index < line_length(start, end) - 1 ==> {
                let here = #[trigger] line_cell(start, end, index);
                let next = line_cell(start, end, index + 1);
                &&& distance(here.0, next.0) <= 1
                &&& distance(here.1, next.1) <= 1
            },
{
    let dx = distance(start.0 as int, end.0 as int);
    let dy = distance(start.1 as int, end.1 as int);
    let major = if dx >= dy {
        dx
    } else {
        dy
    };
    let minor = if dx >= dy {
        dy
    } else {
        dx
    };
    if major > 0 {
        lemma_fundamental_div_mod_converse(major, 2 * major, 0, major);
    }
    lemma_minor_steps_at_end(minor, major);
    assert forall|index: int| 0 <= index < line_length(start, end) - 1 implies {
        let here = #[trigger] line_cell(start, end, index);
        let next = line_cell(start, end, index + 1);
        &&& distance(here.0, next.0) <= 1
        &&& distance(here.1, next.1) <= 1
    } by {
        lemma_minor_step(index, minor, major);
    }
}

/// The cells of the straight line from `start` to `end`, both included, as a line drawing
/// visits them: a step along the longer axis for every cell, and a step along the shorter one
/// where the exact line is nearer the next row or column
pub fn line_cells(start: (i32, i32), end: (i32, i32)) -> (cells: Vec<(i32, i32)>)
    requires
        line_length(start, end) <= usize::MAX,
    ensures
        cells@.len() == line_length(start, end),
        forall|index: int|
            0 <= index < cells@.len() ==> (cells@[index].0 as int, cells@[index].1 as int)
                == line_cell(start, end, index),
{
    let start_x = start.0 as i64;
    let start_y = start.1 as i64;
    let end_x = end.0 as i64;
    let end_y = end.1 as i64;
    let delta_x: i64 = if start_x <= end_x {
        end_x - start_x
    } else {
        start_x - end_x
    };
    let delta_y: i64 = if start_y <= end_y {
        start_y - end_y
    } else {
        end_y - start_y
    };
    let step_x: i64 = if start_x < end_x {
        1
    } else {
        -1
    };
    let step_y: i64 = if start_y < end_y {
        1
    } else {
        -1
    };
    let ghost dx: int = delta_x as int;
    let ghost dy: int = -delta_y;
    let ghost x_major: bool = dx >= dy;
    let ghost major: int = if x_major {
        dx
    } else {
        dy
    };
    let ghost minor: int = if x_major {
        dy
    } else {
        dx
    };
    let mut x = start_x;
    let mut y = start_y;
    let mut error = delta_x + delta_y;
    let mut cells: Vec<(i32, i32)> = Vec::new();
    let ghost mut steps: int = 0;
    let ghost mut offset: int = 0;
    proof {
        assert(minor_steps(0, minor, major) == 0) by {
            if major > 0 {
                lemma_fundamental_div_mod_converse(major, 2 * major, 0, major);
            }
        }
        assert(0int * major - 0int * minor == 0) by (nonlinear_arith);
    }
    loop
        invariant
            start_x == start.0,
            start_y == start.1,
            end_x == end.0,
            end_y == end.1,
            dx == distance(start.0 as int, end.0 as int),
            dy == distance(start.1 as int, end.1 as int),
            delta_x == dx,
            delta_y == -dy,
            step_x == (if start_x < end_x {
                1int
            } else {
                -1int
            }),
            step_y == (if start_y < end_y {
                1int
            } else {
                -1int
            }),
            x_major == (dx >= dy),
            major == (if x_major {
                dx
            } else {
                dy
            }),
            minor == (if x_major {
                dy
            } else {
                dx
            }),
            line_length(start, end) == major + 1,
            line_length(start, end) <= usize::MAX,
            0 <= steps <= major,
            cells@.len() == steps,
            forall|index: int|
                0 <= index < steps ==> (cells@[index].0 as int, cells@[index].1 as int)
                    == line_cell(start, end, index),
            offset == minor_steps(steps, minor, major) * major - steps * minor,
            0 <= minor_steps(steps, minor, major) <= minor,
            (x as int, y as int) == line_cell(start, end, steps),
            error == dx - dy + (if x_major {
                offset
            } else {
                -offset
            }),
            -major <= 2 * offset <= major,
        decreases major - steps,
    {
        proof {
            if x_major {
                assert(x == toward(start_x as int, end_x as int, steps));
            }
        }
        cells.push((x as i32, y as i32));
        if x == end_x && y == end_y {
            proof {
                if steps < major {
                    if x_major {
                        assert(x == toward(start_x as int, end_x as int, steps));
                    } else {
                        assert(y == toward(start_y as int, end_y as int, steps));
                    }
                }
            }
            return cells;
        }
        proof {
            if steps == major {
                lemma_minor_steps_at_end(minor, major);
            }
            lemma_minor_step(steps, minor, major);
        }
        let doubled = 2 * error;
        if doubled >= delta_y {
            error = error + delta_y;
            x = x + step_x;
        }
        if doubled <= delta_x {
            error = error + delta_x;
            y = y + step_y;
        }
        proof {
            let next = minor_steps(steps + 1, minor, major);
            offset = next * major - (steps + 1) * minor;
            steps = steps + 1;
            lemma_minor_step(steps, minor, major);
        }
    }
}

/// The plot area of a chart of `width` by `height` cells: its first column, width and height,
/// after one column and one row for the axes when they are shown; `None` when it is empty
pub open spec fn spec_chart_plot_area(width: u16, height: u16, show_axes: bool) -> Option<(i32, i32, i32)> {
    let margin: int = if show_axes {
        1
    } else {
        0
    };
    if width == 0 || height == 0 || width <= margin || height <= margin {
        None
    } else {
        Some((margin as i32, (width - margin) as i32, (height - margin) as i32))
    }
}

/// Computes the plot area of a chart of `width` by `height` cells
pub fn chart_plot_area(width: u16, height: u16, show_axes: bool) -> (area: Option<(i32, i32, i32)>)
    ensures
        area == spec_chart_plot_area(width, height, show_axes),
{
    let margin: i32 = if show_axes {
        1
    } else {
        0
    };
    let width = width as i32;
    let height = height as i32;
    if width == 0 || height == 0 || width <= margin || height <= margin {
        None
    } else {
        Some((margin, width - margin, height - margin))
    }
}

/// The plot cell of a data point: columns from `left`, rows counted down from the top, with the
/// largest value in the first row
pub open spec fn chart_cell(
    point: ChartPoint,
    bounds: (i32, i32, i32, i32),
    left: i32,
    plot_width: i32,
    plot_height: i32,
) -> (int, int) {
    (
        left + spec_chart_scale(point.x, bounds.0, bounds.1, plot_width),
        plot_height - 1 - spec_chart_scale(point.y, bounds.2, bounds.3, plot_height),
    )
}

/// The cells of one chart series inside its plot area: the marker cell of every point in
/// order, and the line cells joining each point to the next
pub fn chart_series_cells(
    points: &[ChartPoint],
    bounds: (i32, i32, i32, i32),
    left: i32,
    plot_width: i32,
    plot_height: i32,
) -> (cells: (Vec<(i32, i32)>, Vec<Vec<(i32, i32)>>))
    requires
        0 <= left <= 1,
        1 <= plot_width <= u16::MAX,
        1 <= plot_height <= u16::MAX,
    ensures
        cells.0@.len() == points@.len(),
        forall|index: int|
            0 <= index < points@.len() ==> (cells.0@[index].0 as int, cells.0@[index].1 as int)
                == chart_cell(points@[index], bounds, left, plot_width, plot_height),
        cells.1@.len() == (if points@.len() == 0 {
            0
        } else {
            points@.len() - 1
        }),
        forall|index: int|
            0 <= index < cells.1@.len() ==> #[trigger] cells.1@[index]@.len() == line_length(
                cells.0@[index],
                cells.0@[index + 1],
            ),
        forall|index: int, cell: int|
            0 <= index < cells.1@.len() && 0 <= cell < cells.1@[index]@.len() ==> (
            #[trigger] cells.1@[index]@[cell].0 as int,
            cells.1@[index]@[cell].1 as int,
            ) == line_cell(cells.0@[index], cells.0@[index + 1], cell),
{
    let mut markers: Vec<(i32, i32)> = Vec::new();
    let mut segments: Vec<Vec<(i32, i32)>> = Vec::new();
    let mut index: usize = 0;
    while index < points.len()
        invariant
            0 <= index <= points@.len(),
            0 <= left <= 1,
            1 <= plot_width <= u16::MAX,
            1 <= plot_height <= u16::MAX,
            markers@.len() == index,
            forall|k: int|
                0 <= k < index ==> (markers@[k].0 as int, markers@[k].1 as int) == chart_cell(
                    points@[k],
                    bounds,
                    left,
                    plot_width,
                    plot_height,
                ),
            forall|k: int|
                0 <= k < index ==> 0 <= #[trigger] markers@[k].0 <= u16::MAX && 0 <= markers@[k].1
                    <= u16::MAX,
            segments@.len() == (if index == 0 {
                0
            } else {
                index - 1
            }),
            forall|k: int|
                0 <= k < segments@.len() ==> #[trigger] segments@[k]@.len() == line_length(
                    markers@[k],
                    markers@[k + 1],
                ),
            forall|k: int, cell: int|
                0 <= k < segments@.len() && 0 <= cell < segments@[k]@.len() ==> (
                #[trigger] segments@[k]@[cell].0 as int,
                segments@[k]@[cell].1 as int,
                ) == line_cell(markers@[k], markers@[k + 1], cell),
        decreases points@.len() - index,
    {
        let point = points[index];
        let column = chart_scale(point.x, bounds.0, bounds.1, plot_width);
        let row = chart_scale(point.y, bounds.2, bounds.3, plot_height);
        let current = (left + column, plot_height - 1 - row);
        if index > 0 {
            let previous = markers[index - 1];
            let segment = line_cells(previous, current);
            segments.push(segment);
        }
        markers.push(current);
        index = index + 1;
    }
    (markers, segments)
}

} // verus!
