use std::sync::Arc;

use vstd::prelude::*;

use crate::code::{CodeLayoutError, CodeLayoutErrorKind, CodeLayoutLimits, spec_decimal_digits};
use crate::code_layout::{
    lines_covered,
    CellModel, CodeCell, CodeLayout, CodeLayoutModel, CodeLayoutOptions, line_cell_models,
    spec_code_layout,
};
use crate::diff::{DiffDocument, DiffLineModel, DiffRange, diff_contents};
use crate::text::share;

verus! {

/// Options of a diff projection: the viewport, tab stops, wrapping, and whether the old and
/// new line numbers are shown
pub type DiffLayoutOptions = CodeLayoutOptions;

/// Diff layout limits are the code layout visual-row and display-byte limits
pub type DiffLayoutLimits = CodeLayoutLimits;

/// Diff layout failures are code layout resource failures
pub type DiffLayoutError = CodeLayoutError;

/// Diff layout failure categories are code layout categories
pub type DiffLayoutErrorKind = CodeLayoutErrorKind;

/// `10` raised to `exponent`
pub open spec fn power_of_ten(exponent: nat) -> nat
    decreases exponent,
{
    if exponent == 0 {
        1
    } else {
        10 * power_of_ten((exponent - 1) as nat)
    }
}

/// A value below `10^count` has at most `count` digits
proof fn lemma_digits_below(value: nat, count: nat)
    requires
        count >= 1,
        value < power_of_ten(count),
    ensures
        spec_decimal_digits(value) <= count,
    decreases count,
{
    if value >= 10 {
        if count == 1 {
            assert(power_of_ten(1) == 10 * power_of_ten(0));
        } else {
            let smaller = power_of_ten((count - 1) as nat);
            assert(power_of_ten(count) == 10 * smaller);
            assert(value / 10 < smaller) by (nonlinear_arith)
                requires
                    value < 10 * smaller,
            {
            }
            lemma_digits_below(value / 10, (count - 1) as nat);
        }
    }
}

/// Counts the decimal digits of a line number
fn number_digits(value: u64) -> (digits: u32)
    ensures
        digits == spec_decimal_digits(value as nat),
        digits <= 20,
{
    proof {
        reveal_with_fuel(power_of_ten, 21);
        lemma_digits_below(value as nat, 20);
    }
    let mut remaining = value;
    let mut digits: u32 = 1;
    while remaining >= 10
        invariant
            digits + spec_decimal_digits(remaining as nat) == spec_decimal_digits(value as nat) + 1,
            spec_decimal_digits(value as nat) <= 20,
        decreases remaining,
    {
        proof {
            assert(spec_decimal_digits((remaining / 10) as nat) >= 1);
        }
        remaining = remaining / 10;
        digits = digits + 1;
    }
    digits
}

/// The last line a range declares, zero for an empty range
pub open spec fn range_last(range: DiffRange) -> nat {
    if range@.1 == 0 {
        0
    } else {
        ((range@.0 + range@.1 - 1) as u64) as nat
    }
}

/// The larger of two values
pub open spec fn larger(first: nat, second: nat) -> nat {
    if first < second {
        second
    } else {
        first
    }
}

/// The largest line number one line shows or declares on one side
pub open spec fn line_number_reach(line: DiffLineModel, old_side: bool) -> nat {
    let number = if old_side {
        line.2
    } else {
        line.3
    };
    let own: nat = match number {
        Some(value) => value as nat,
        None => 0,
    };
    let declared: nat = match line.4 {
        Some(hunk) => range_last(
            if old_side {
                hunk.spec_old()
            } else {
                hunk.spec_new()
            },
        ),
        None => 0,
    };
    larger(own, declared)
}

/// The largest line number shown or declared on one side of a diff
pub open spec fn number_maximum(lines: Seq<DiffLineModel>, old_side: bool) -> nat
    decreases lines.len(),
{
    if lines.len() == 0 {
        0
    } else {
        larger(number_maximum(lines.drop_last(), old_side), line_number_reach(lines.last(), old_side))
    }
}

/// Gutter, old-number and new-number widths: both number fields and four cells when line
/// numbers are requested and fit, else a two-cell marker column when it fits, else nothing
pub open spec fn spec_diff_layout_widths(lines: Seq<DiffLineModel>, viewport_width: u32, line_numbers: bool) -> (
    u32,
    u32,
    u32,
) {
    let old_width = spec_decimal_digits(larger(number_maximum(lines, true), 1));
    let new_width = spec_decimal_digits(larger(number_maximum(lines, false), 1));
    let full = old_width + new_width + 4;
    if line_numbers && viewport_width > full {
        (full as u32, old_width as u32, new_width as u32)
    } else if viewport_width > 2 {
        (2, 0, 0)
    } else {
        (0, 0, 0)
    }
}

fn line_number_reach_of(document: &DiffDocument, index: usize, old_side: bool) -> (reach: u64)
    requires
        index < document@.0.len(),
    ensures
        reach == line_number_reach(document@.0[index as int], old_side),
{
    let line = document.line(index).unwrap();
    let number = if old_side {
        line.old_line()
    } else {
        line.new_line()
    };
    let own = match number {
        Some(value) => value,
        None => 0,
    };
    let declared = match line.hunk_metadata() {
        Some(hunk) => {
            let range = if old_side {
                hunk.old_range()
            } else {
                hunk.new_range()
            };
            match range.last() {
                Some(last) => last,
                None => 0,
            }
        },
        None => 0,
    };
    if own < declared {
        declared
    } else {
        own
    }
}

/// Splits a viewport into the diff gutter and its two line-number fields
pub fn diff_layout_widths(document: &DiffDocument, viewport_width: u32, line_numbers: bool) -> (widths: (
    u32,
    u32,
    u32,
))
    ensures
        widths == spec_diff_layout_widths(document@.0, viewport_width, line_numbers),
{
    let ghost lines = document@.0;
    let mut maximum_old: u64 = 0;
    let mut maximum_new: u64 = 0;
    let mut index: usize = 0;
    while index < document.line_count()
        invariant
            0 <= index <= lines.len(),
            lines == document@.0,
            maximum_old == number_maximum(lines.take(index as int), true),
            maximum_new == number_maximum(lines.take(index as int), false),
        decreases lines.len() - index,
    {
        proof {
            assert(lines.take(index + 1).drop_last() =~= lines.take(index as int));
            assert(lines.take(index + 1).last() == lines[index as int]);
        }
        let old_reach = line_number_reach_of(document, index, true);
        let new_reach = line_number_reach_of(document, index, false);
        if maximum_old < old_reach {
            maximum_old = old_reach;
        }
        if maximum_new < new_reach {
            maximum_new = new_reach;
        }
        index = index + 1;
    }
    proof {
        assert(lines.take(lines.len() as int) =~= lines);
    }
    let old_width = number_digits(if maximum_old < 1 {
        1
    } else {
        maximum_old
    });
    let new_width = number_digits(if maximum_new < 1 {
        1
    } else {
        maximum_new
    });
    let full = old_width + new_width + 4;
    if line_numbers && viewport_width > full {
        (full, old_width, new_width)
    } else if viewport_width > 2 {
        (2, 0, 0)
    } else {
        (0, 0, 0)
    }
}

/// A projected diff as plain values
pub struct DiffLayoutModel {
    /// Lines of the projected diff
    pub lines: Seq<DiffLineModel>,
    /// Whether the diff ends with a line feed
    pub trailing_newline: bool,
    /// The projection options
    pub options: (u32, u8, bool, bool),
    /// The projection of the line contents
    pub code: CodeLayoutModel,
    /// Width of the gutter
    pub gutter_width: nat,
    /// Width of the old line-number field
    pub old_number_width: nat,
    /// Width of the new line-number field
    pub new_number_width: nat,
}

/// Options of the content projection: the viewport left of the gutter, at least one cell
pub open spec fn content_options(options: (u32, u8, bool, bool), gutter_width: u32) -> (
    u32,
    u8,
    bool,
    bool,
) {
    let width: u32 = if options.0 <= gutter_width {
        1
    } else {
        (options.0 - gutter_width) as u32
    };
    (width, options.1, options.2, false)
}

/// The projection of a diff, or the first limit it passes
pub open spec fn spec_diff_layout(
    document: (Seq<DiffLineModel>, bool),
    options: (u32, u8, bool, bool),
    cells: Seq<Seq<CellModel>>,
    limits: (u64, u64),
) -> Result<DiffLayoutModel, (CodeLayoutErrorKind, u64, u64)> {
    let widths = spec_diff_layout_widths(document.0, options.0, options.3);
    match spec_code_layout(
        (diff_contents(document.0), false),
        content_options(options, widths.0),
        cells,
        limits,
    ) {
        Err(failure) => Err(failure),
        Ok(code) => Ok(
            DiffLayoutModel {
                lines: document.0,
                trailing_newline: document.1,
                options,
                code,
                gutter_width: widths.0 as nat,
                old_number_width: widths.1 as nat,
                new_number_width: widths.2 as nat,
            },
        ),
    }
}

#[derive(Debug)]
struct DiffLayoutInner {
    document: DiffDocument,
    options: DiffLayoutOptions,
    code: CodeLayout,
    gutter_width: u32,
    old_number_width: u32,
    new_number_width: u32,
}

/// Immutable terminal projection of one diff document
#[derive(Debug)]
pub struct DiffLayout {
    inner: Arc<DiffLayoutInner>,
}

impl View for DiffLayout {
    type V = DiffLayoutModel;

    closed spec fn view(&self) -> DiffLayoutModel {
        DiffLayoutModel {
            lines: self.inner.document@.0,
            trailing_newline: self.inner.document@.1,
            options: self.inner.options@,
            code: self.inner.code@,
            gutter_width: self.inner.gutter_width as nat,
            old_number_width: self.inner.old_number_width as nat,
            new_number_width: self.inner.new_number_width as nat,
        }
    }
}

impl DiffLayout {
    /// Projects a diff using default limits; `graphemes` holds, for each line, the grapheme
    /// clusters of its content with their run indices and terminal widths
    pub fn new(document: DiffDocument, options: DiffLayoutOptions, graphemes: &[Vec<CodeCell>]) -> (result:
        Result<Self, DiffLayoutError>)
        requires
            graphemes@.len() == document@.0.len(),
            lines_covered(graphemes@, diff_contents(document@.0)),
        ensures
            (match spec_diff_layout(
                document@,
                options@,
                line_cell_models(graphemes@),
                (
                    crate::code::DEFAULT_CODE_LAYOUT_MAX_VISUAL_ROWS,
                    crate::code::DEFAULT_CODE_LAYOUT_MAX_DISPLAY_BYTES,
                ),
            ) {
                Ok(model) => result matches Ok(layout) && layout@ == model,
                Err(failure) => result matches Err(error) && error@ == failure,
            }),
    {
        Self::new_with_limits(document, options, graphemes, CodeLayoutLimits::default())
    }

    /// Projects a diff, failing at the first visual row or display byte over a limit
    pub fn new_with_limits(
        document: DiffDocument,
        options: DiffLayoutOptions,
        graphemes: &[Vec<CodeCell>],
        limits: DiffLayoutLimits,
    ) -> (result: Result<Self, DiffLayoutError>)
        requires
            graphemes@.len() == document@.0.len(),
            lines_covered(graphemes@, diff_contents(document@.0)),
        ensures
            (match spec_diff_layout(document@, options@, line_cell_models(graphemes@), limits@) {
                Ok(model) => result matches Ok(layout) && layout@ == model,
                Err(failure) => result matches Err(error) && error@ == failure,
            }),
    {
        let viewport_width = options.viewport_width();
        let widths = diff_layout_widths(&document, viewport_width, options.shows_line_numbers());
        let code_width = if viewport_width <= widths.0 {
            1
        } else {
            viewport_width - widths.0
        };
        let content = CodeLayoutOptions::default().with_viewport_width(code_width).with_tab_width(
            options.tab_width(),
        ).with_wrap(options.wraps()).with_line_numbers(false);
        assert(content@ == content_options(options@, widths.0));
        let projection = document.projection().duplicate();
        let code = match CodeLayout::new_with_limits(projection, content, graphemes, limits) {
            Ok(code) => code,
            Err(error) => {
                return Err(error);
            },
        };
        let inner = DiffLayoutInner {
            document,
            options,
            code,
            gutter_width: widths.0,
            old_number_width: widths.1,
            new_number_width: widths.2,
        };
        Ok(DiffLayout { inner: Arc::new(inner) })
    }

    /// Returns the projected diff
    pub fn document(&self) -> (document: &DiffDocument)
        ensures
            document@ == (self@.lines, self@.trailing_newline),
    {
        &self.inner.document
    }

    /// Returns the projection options
    pub fn options(&self) -> (options: DiffLayoutOptions)
        ensures
            options@ == self@.options,
    {
        self.inner.options
    }

    /// Returns the number of visual rows
    pub fn visual_row_count(&self) -> (count: usize)
        ensures
            count == self@.code.rows.len(),
    {
        self.inner.code.visual_row_count()
    }

    /// Returns the width of the gutter
    pub fn gutter_width(&self) -> (width: u32)
        ensures
            width == self@.gutter_width,
    {
        self.inner.gutter_width
    }

    /// Returns the width of the old line-number field, zero when hidden
    pub fn old_number_width(&self) -> (width: u32)
        ensures
            width == self@.old_number_width,
    {
        self.inner.old_number_width
    }

    /// Returns the width of the new line-number field, zero when hidden
    pub fn new_number_width(&self) -> (width: u32)
        ensures
            width == self@.new_number_width,
    {
        self.inner.new_number_width
    }

    /// Returns the width of the content area
    pub fn code_width(&self) -> (width: u32)
        ensures
            width == self@.code.code_width,
    {
        self.inner.code.code_width()
    }

    /// Returns the width of the widest content row
    pub fn maximum_row_width(&self) -> (width: u32)
        ensures
            width == self@.code.maximum_row_width,
    {
        self.inner.code.maximum_row_width()
    }

    /// Returns the projection of the line contents
    pub fn code_layout(&self) -> (code: &CodeLayout)
        ensures
            code@ == self@.code,
    {
        &self.inner.code
    }
}

impl Clone for DiffLayout {
    fn clone(&self) -> (copy: Self)
        ensures
            copy@ == self@,
    {
        DiffLayout { inner: share(&self.inner) }
    }
}

} // verus!
