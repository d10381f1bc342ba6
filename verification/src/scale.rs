use vstd::prelude::*;

verus! {

/// The product of two 64-bit quantities fits in 128 bits
proof fn lemma_wide_product(first: u128, second: u128)
    requires
        first <= u64::MAX,
        second <= u64::MAX,
    ensures
        first * second <= u128::MAX,
{
    assert(first * second <= (u64::MAX as u128) * (u64::MAX as u128)) by (nonlinear_arith)
        requires
            first <= u64::MAX,
            second <= u64::MAX,
    ;
}

/// `value` limited to `low..=high`
pub open spec fn clamp_between(value: int, low: int, high: int) -> int {
    if value < low {
        low
    } else if value > high {
        high
    } else {
        value
    }
}

/// The level of `value` within `minimum..=maximum` split into `levels` steps, rounded down;
/// zero for an empty range or no levels
pub open spec fn spec_scaled_level(value: u64, minimum: u64, maximum: u64, levels: u64) -> int {
    if maximum <= minimum || levels == 0 {
        0
    } else {
        let clamped = clamp_between(value as int, minimum as int, maximum as int);
        let level = (clamped - minimum) * levels / (maximum - minimum);
        if level > usize::MAX {
            usize::MAX as int
        } else {
            level
        }
    }
}

/// Scales a sample into one of `levels + 1` levels
pub fn scaled_level(value: u64, minimum: u64, maximum: u64, levels: u64) -> (level: usize)
    ensures
        level == spec_scaled_level(value, minimum, maximum, levels),
{
    if maximum <= minimum || levels == 0 {
        return 0;
    }
    let clamped = if value < minimum {
        minimum
    } else if value > maximum {
        maximum
    } else {
        value
    };
    let offset = (clamped - minimum) as u128;
    let span = (maximum - minimum) as u128;
    proof {
        lemma_wide_product(offset, levels as u128);
    }
    let level = offset * (levels as u128) / span;
    if level > usize::MAX as u128 {
        usize::MAX
    } else {
        level as usize
    }
}

/// Filled cells of one bar: `value` scaled against `maximum` onto `width` cells
pub open spec fn spec_scaled_bar_cells(value: u64, maximum: u64, width: u16) -> int {
    if maximum == 0 {
        0
    } else {
        spec_scaled_level(value, 0, maximum, width as u64)
    }
}

/// Filled cells of one bar chart bar
pub fn scaled_bar_cells(value: u64, maximum: u64, width: u16) -> (cells: usize)
    ensures
        cells == spec_scaled_bar_cells(value, maximum, width),
        cells <= width,
{
    if maximum == 0 {
        0
    } else {
        let cells = scaled_level(value, 0, maximum, width as u64);
        let ghost clamped = clamp_between(value as int, 0, maximum as int);
        assert(clamped * (width as int) / (maximum as int) <= width) by (nonlinear_arith)
            requires
                0 <= clamped <= maximum,
                maximum > 0,
                width >= 0,
        ;
        cells
    }
}

/// Completed cells of a progress bar of `width` cells
pub open spec fn spec_completed_cells(current: u64, total: u64, width: u16) -> int {
    if total == 0 {
        0
    } else {
        (if current < total {
            current as int
        } else {
            total as int
        }) * width / total as int
    }
}

/// Completed cells of a progress bar: the finished share of `width`, rounded down
pub fn completed_cells(current: u64, total: u64, width: u16) -> (cells: usize)
    ensures
        cells == spec_completed_cells(current, total, width),
        cells <= width,
{
    if total == 0 {
        return 0;
    }
    let done = if current < total {
        current
    } else {
        total
    };
    proof {
        lemma_wide_product(done as u128, width as u128);
    }
    let cells = (done as u128) * (width as u128) / (total as u128);
    assert(cells <= width) by (nonlinear_arith)
        requires
            cells == (done as int) * (width as int) / (total as int),
            done <= total,
            total > 0,
    ;
    cells as usize
}

/// Direction in which a scrollbar is rendered
#[derive(Clone, Copy, Debug, PartialEq, Eq, Structural, Hash)]
pub enum ScrollbarOrientation {
    /// Render one cell per row
    Vertical,
    /// Render all cells in one row
    Horizontal,
}

/// Thumb start and length on a track of `track` cells for a viewport of `viewport` items
/// at `offset` into `content` items
pub open spec fn spec_thumb_geometry(content: u64, viewport: u64, offset: u64, track: u16) -> (
    int,
    int,
) {
    if track == 0 {
        (0, 0)
    } else if content == 0 || viewport >= content {
        (0, track as int)
    } else {
        let length = clamp_between(viewport * track / content as int, 1, track as int);
        let maximum_offset = content - viewport;
        let maximum_start = track - length;
        let clamped = if offset < maximum_offset {
            offset as int
        } else {
            maximum_offset as int
        };
        (clamped * maximum_start / maximum_offset, length)
    }
}

/// Places the scrollbar thumb
pub fn thumb_geometry(
    content_length: u64,
    viewport_length: u64,
    offset: u64,
    track_length: u16,
) -> (geometry: (u16, u16))
    ensures
        (geometry.0 as int, geometry.1 as int) == spec_thumb_geometry(
            content_length,
            viewport_length,
            offset,
            track_length,
        ),
        geometry.0 + geometry.1 <= track_length,
{
    if track_length == 0 {
        return (0, 0);
    }
    if content_length == 0 || viewport_length >= content_length {
        return (0, track_length);
    }
    proof {
        lemma_wide_product(viewport_length as u128, track_length as u128);
    }
    let raw = (viewport_length as u128) * (track_length as u128) / (content_length as u128);
    let length: u16 = if raw < 1 {
        1
    } else if raw > track_length as u128 {
        track_length
    } else {
        raw as u16
    };
    let maximum_offset = content_length - viewport_length;
    let maximum_start = track_length - length;
    let clamped = if offset < maximum_offset {
        offset
    } else {
        maximum_offset
    };
    proof {
        lemma_wide_product(clamped as u128, maximum_start as u128);
    }
    let start = (clamped as u128) * (maximum_start as u128) / (maximum_offset as u128);
    assert(start <= maximum_start) by (nonlinear_arith)
        requires
            start == (clamped as int) * (maximum_start as int) / (maximum_offset as int),
            clamped <= maximum_offset,
            maximum_offset > 0,
    ;
    (start as u16, length)
}

/// One signed integer chart coordinate
#[derive(Clone, Copy, Debug, PartialEq, Eq, Structural, Hash)]
pub struct ChartPoint {
    /// Horizontal data coordinate
    pub x: i32,
    /// Vertical data coordinate
    pub y: i32,
}

impl ChartPoint {
    /// Creates one chart coordinate
    pub fn new(x: i32, y: i32) -> (point: Self)
        ensures
            point == (ChartPoint { x, y }),
    {
        ChartPoint { x, y }
    }
}

/// One axis range widened to at least one unit
pub open spec fn widened_axis(minimum: i32, maximum: i32) -> (i32, i32) {
    if maximum <= minimum {
        if minimum < i32::MAX {
            (minimum, (minimum + 1) as i32)
        } else {
            ((minimum - 1) as i32, maximum)
        }
    } else {
        (minimum, maximum)
    }
}

/// Chart bounds whose ranges are each widened to at least one unit
pub open spec fn spec_normalized_bounds(
    minimum_x: i32,
    maximum_x: i32,
    minimum_y: i32,
    maximum_y: i32,
) -> (i32, i32, i32, i32) {
    let x = widened_axis(minimum_x, maximum_x);
    let y = widened_axis(minimum_y, maximum_y);
    (x.0, x.1, y.0, y.1)
}

fn widen_axis(minimum: i32, maximum: i32) -> (axis: (i32, i32))
    ensures
        axis == widened_axis(minimum, maximum),
{
    if maximum <= minimum {
        if minimum < i32::MAX {
            (minimum, minimum + 1)
        } else {
            (minimum - 1, maximum)
        }
    } else {
        (minimum, maximum)
    }
}

/// Widens empty or inverted chart ranges to one unit
pub fn normalized_bounds(
    minimum_x: i32,
    maximum_x: i32,
    minimum_y: i32,
    maximum_y: i32,
) -> (bounds: (i32, i32, i32, i32))
    ensures
        bounds == spec_normalized_bounds(minimum_x, maximum_x, minimum_y, maximum_y),
{
    let x = widen_axis(minimum_x, maximum_x);
    let y = widen_axis(minimum_y, maximum_y);
    (x.0, x.1, y.0, y.1)
}

/// Smallest and largest coordinates of every point, in order x, x, y, y
pub open spec fn points_extent(points: Seq<ChartPoint>) -> (i32, i32, i32, i32)
    recommends
        points.len() > 0,
    decreases points.len(),
{
    if points.len() <= 1 {
        (points[0].x, points[0].x, points[0].y, points[0].y)
    } else {
        let rest = points_extent(points.drop_last());
        let point = points.last();
        (
            if point.x < rest.0 {
                point.x
            } else {
                rest.0
            },
            if point.x > rest.1 {
                point.x
            } else {
                rest.1
            },
            if point.y < rest.2 {
                point.y
            } else {
                rest.2
            },
            if point.y > rest.3 {
                point.y
            } else {
                rest.3
            },
        )
    }
}

/// Chart bounds: explicit bounds when given, else the extent of every point, else a unit square
pub open spec fn spec_chart_bounds(points: Seq<ChartPoint>, bounds: Option<(i32, i32, i32, i32)>) -> (
    i32,
    i32,
    i32,
    i32,
) {
    match bounds {
        Some(b) => spec_normalized_bounds(b.0, b.1, b.2, b.3),
        None => if points.len() == 0 {
            (0, 1, 0, 1)
        } else {
            let extent = points_extent(points);
            spec_normalized_bounds(extent.0, extent.1, extent.2, extent.3)
        },
    }
}

/// Data bounds of a chart over the points of all of its series, in drawing order
pub fn chart_bounds(
    points: &[ChartPoint],
    bounds: Option<(i32, i32, i32, i32)>,
) -> (result: (i32, i32, i32, i32))
    ensures
        result == spec_chart_bounds(points@, bounds),
{
    if let Some(b) = bounds {
        return normalized_bounds(b.0, b.1, b.2, b.3);
    }
    if points.len() == 0 {
        return (0, 1, 0, 1);
    }
    let first = points[0];
    let mut extent = (first.x, first.x, first.y, first.y);
    let mut index: usize = 1;
    proof {
        assert(points@.take(1).len() == 1);
    }
    while index < points.len()
        invariant
            1 <= index <= points@.len(),
            extent == points_extent(points@.take(index as int)),
        decreases points@.len() - index,
    {
        proof {
            assert(points@.take(index + 1).drop_last() =~= points@.take(index as int));
        }
        let point = points[index];
        extent = (
            if point.x < extent.0 {
                point.x
            } else {
                extent.0
            },
            if point.x > extent.1 {
                point.x
            } else {
                extent.1
            },
            if point.y < extent.2 {
                point.y
            } else {
                extent.2
            },
            if point.y > extent.3 {
                point.y
            } else {
                extent.3
            },
        );
        index = index + 1;
    }
    assert(points@.take(points@.len() as int) =~= points@);
    normalized_bounds(extent.0, extent.1, extent.2, extent.3)
}

/// The cell of `value` on an axis of `cells` cells spanning `minimum..=maximum`, rounded down
pub open spec fn spec_chart_scale(value: i32, minimum: i32, maximum: i32, cells: i32) -> int {
    if cells <= 1 || maximum <= minimum {
        0
    } else {
        (clamp_between(value as int, minimum as int, maximum as int) - minimum) * (cells - 1) / (
        maximum - minimum)
    }
}

/// Projects one data coordinate onto a cell
pub fn chart_scale(value: i32, minimum: i32, maximum: i32, cells: i32) -> (cell: i32)
    ensures
        cell == spec_chart_scale(value, minimum, maximum, cells),
        cells > 1 ==> 0 <= cell < cells,
{
    if cells <= 1 || maximum <= minimum {
        return 0;
    }
    let clamped = if value < minimum {
        minimum
    } else if value > maximum {
        maximum
    } else {
        value
    };
    let offset = clamped as i64 - minimum as i64;
    let steps = (cells - 1) as i64;
    assert(0 <= offset * steps <= 0xffff_ffff * 0x7fff_ffff) by (nonlinear_arith)
        requires
            0 <= offset <= 0xffff_ffff,
            0 <= steps <= 0x7fff_ffff,
    ;
    let numerator = offset * steps;
    let denominator = maximum as i64 - minimum as i64;
    let cell = numerator / denominator;
    assert(0 <= cell <= steps) by (nonlinear_arith)
        requires
            cell == numerator / denominator,
            numerator == offset * steps,
            0 <= offset <= denominator,
            denominator > 0,
            steps >= 0,
    ;
    cell as i32
}

/// When part of the content is visible, the thumb's share of the track follows the viewport's
/// share of the content: its length is the largest whole number of cells whose share of the
/// track does not exceed that share, but at least one cell and at most the whole track
pub proof fn lemma_thumb_length_follows_visible_share(
    content_length: u64,
    viewport_length: u64,
    offset: u64,
    track_length: u16,
)
    requires
        track_length > 0,
        0 < viewport_length < content_length,
    ensures
        ({
            let length = spec_thumb_geometry(content_length, viewport_length, offset, track_length).1;
            &&& 1 <= length <= track_length
            &&& (length == 1 || length * content_length <= viewport_length * track_length)
            &&& (length == track_length || viewport_length * track_length < (length + 1)
                * content_length)
        }),
{
    let product: int = viewport_length * track_length;
    let content = content_length as int;
    let quotient = product / content;
    vstd::arithmetic::div_mod::lemma_fundamental_div_mod(product, content);
    vstd::arithmetic::div_mod::lemma_mod_pos_bound(product, content);
    let remainder = product % content;
    assert(quotient * content <= product && product < (quotient + 1) * content) by (nonlinear_arith)
        requires
            product == content * quotient + remainder,
            0 <= remainder < content,
    ;
    assert(quotient >= 0) by (nonlinear_arith)
        requires
            product >= 0,
            content > 0,
            product < (quotient + 1) * content,
    ;
    let length = spec_thumb_geometry(content_length, viewport_length, offset, track_length).1;
    assert(length == clamp_between(quotient, 1, track_length as int));
    if quotient < 1 {
        assert(product < 2 * content) by (nonlinear_arith)
            requires
                quotient < 1,
                quotient >= 0,
                product < (quotient + 1) * content,
                content > 0,
        ;
    } else if quotient > track_length {
        assert(track_length * content <= product) by (nonlinear_arith)
            requires
                quotient > track_length,
                quotient * content <= product,
                content > 0,
        ;
    }
}

/// When part of the content is visible, the thumb's start follows the scroll position: it is
/// at the top for offset zero, ends at the track's end once the offset reaches the last
/// position, never runs past the track, and otherwise takes the largest whole number of cells
/// whose share of the free track does not exceed the offset's share of the scroll range
pub proof fn lemma_thumb_start_follows_offset(
    content_length: u64,
    viewport_length: u64,
    offset: u64,
    track_length: u16,
)
    requires
        track_length > 0,
        0 < viewport_length < content_length,
    ensures
        ({
            let geometry = spec_thumb_geometry(content_length, viewport_length, offset, track_length);
            let start = geometry.0;
            let free = track_length - geometry.1;
            let range = content_length - viewport_length;
            let position = if offset < range {
                offset as int
            } else {
                range
            };
            &&& 0 <= start <= free
            &&& start + geometry.1 <= track_length
            &&& offset == 0 ==> start == 0
            &&& offset >= range ==> start == free
            &&& start * range <= position * free < (start + 1) * range
        }),
{
    lemma_thumb_length_follows_visible_share(content_length, viewport_length, offset, track_length);
    let geometry = spec_thumb_geometry(content_length, viewport_length, offset, track_length);
    let free: int = track_length - geometry.1;
    let range: int = content_length - viewport_length;
    let position: int = if offset < range {
        offset as int
    } else {
        range
    };
    let product = position * free;
    let start = product / range;
    assert(geometry.0 == start);
    vstd::arithmetic::div_mod::lemma_fundamental_div_mod(product, range);
    assert(product >= 0) by (nonlinear_arith)
        requires
            position >= 0,
            free >= 0,
            product == position * free,
    ;
    vstd::arithmetic::div_mod::lemma_mod_pos_bound(product, range);
    let remainder = product % range;
    assert(start * range <= product && product < (start + 1) * range) by (nonlinear_arith)
        requires
            product == range * start + remainder,
            0 <= remainder < range,
    ;
    assert(0 <= start <= free) by (nonlinear_arith)
        requires
            start * range <= product,
            product < (start + 1) * range,
            product == position * free,
            0 <= position <= range,
            range > 0,
            free >= 0,
    ;
    if offset >= range {
        assert(start == free) by (nonlinear_arith)
            requires
                start * range <= product,
                product < (start + 1) * range,
                product == range * free,
                range > 0,
        ;
    }
    if offset == 0 {
        assert(product == 0) by (nonlinear_arith)
            requires
                position == 0,
                product == position * free,
        ;
        assert(start == 0) by (nonlinear_arith)
            requires
                product == 0,
                start * range <= product,
                product < (start + 1) * range,
                range > 0,
        ;
    }
}

} // verus!
