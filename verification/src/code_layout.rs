use std::ops::Range;
use std::sync::Arc;

use vstd::prelude::*;

use crate::code::{
    CodeDocument, CodeLine, line_texts, CodeLayoutError, CodeLayoutErrorKind, CodeLayoutLimits, SpansModel,
    DEFAULT_CODE_LAYOUT_MAX_DISPLAY_BYTES, DEFAULT_CODE_LAYOUT_MAX_VISUAL_ROWS,
    DEFAULT_CODE_LAYOUT_TAB_WIDTH, DEFAULT_CODE_LAYOUT_VIEWPORT_WIDTH, check_layout_limit,
    code_layout_widths, spans_text, spec_code_layout_widths,
};
use crate::text::{lemma_utf8_len_prefix, share, str_byte_len, utf8_len};

verus! {

broadcast use vstd::string::group_string_axioms;

// ---------------------------------------------------------------------------
// Measured cells
// ---------------------------------------------------------------------------

/// One grapheme cluster of a styled run, or one space a tab expanded into, with the index of
/// its run and its width in terminal cells
#[derive(Debug, PartialEq, Eq)]
pub struct CodeCell {
    span: usize,
    text: String,
    width: u32,
}

/// A cell as plain values: run index, text and width
pub type CellModel = (usize, Seq<char>, u32);

impl View for CodeCell {
    type V = CellModel;

    closed spec fn view(&self) -> CellModel {
        (self.span, self.text@, self.width)
    }
}

impl CodeCell {
    /// Creates one measured cell of run `span`
    pub fn new(span: usize, text: &str, width: u32) -> (cell: Self)
        ensures
            cell@ == (span, text@, width),
    {
        CodeCell { span, text: text.to_owned(), width }
    }

    /// Returns the index of the styled run the cell belongs to
    pub fn span(&self) -> (span: usize)
        ensures
            span == self@.0,
    {
        self.span
    }

    /// Returns the cell text
    pub fn text(&self) -> (text: &str)
        ensures
            text@ == self@.1,
    {
        self.text.as_str()
    }

    /// Returns the width in terminal cells
    pub fn width(&self) -> (width: u32)
        ensures
            width == self@.2,
    {
        self.width
    }

    /// Returns an equal, separately owned cell
    pub fn duplicate(&self) -> (copy: Self)
        ensures
            copy@ == self@,
    {
        CodeCell { span: self.span, text: self.text.clone(), width: self.width }
    }
}

impl Clone for CodeCell {
    fn clone(&self) -> (copy: Self)
        ensures
            copy@ == self@,
    {
        self.duplicate()
    }
}

/// The plain values of cells
pub open spec fn cell_models(cells: Seq<CodeCell>) -> Seq<CellModel> {
    cells.map_values(|cell: CodeCell| cell@)
}

/// The text of the cells of run `run`, concatenated in order
pub open spec fn run_cells_text(cells: Seq<CellModel>, run: int) -> Seq<char>
    decreases cells.len(),
{
    if cells.len() == 0 {
        Seq::empty()
    } else {
        run_cells_text(cells.drop_last(), run) + if cells.last().0 == run {
            cells.last().1
        } else {
            Seq::empty()
        }
    }
}

/// The cells segment the runs of a line in order: each cell is non-empty and names an
/// existing run, runs never go back, and the cells of every run spell exactly its text
pub open spec fn cells_cover_runs(cells: Seq<CellModel>, spans: SpansModel) -> bool {
    &&& forall|k: int| 0 <= k < cells.len() ==> (#[trigger] cells[k]).0 < spans.len()
        && cells[k].1.len() > 0
    &&& forall|first: int, second: int|
        0 <= first < second < cells.len() ==> (#[trigger] cells[first]).0 <= (
        #[trigger] cells[second]).0
    &&& forall|run: int| 0 <= run < spans.len() ==> run_cells_text(cells, run) == (
    #[trigger] spans[run]).0
}

/// Every line's cells segment that line's runs
pub open spec fn lines_covered(cells: Seq<Vec<CodeCell>>, lines: Seq<SpansModel>) -> bool {
    &&& cells.len() == lines.len()
    &&& forall|line: int| 0 <= line < lines.len() ==> cells_cover_runs(
        cell_models(#[trigger] cells[line]@),
        lines[line],
    )
}

// ---------------------------------------------------------------------------
// Options
// ---------------------------------------------------------------------------

/// Terminal-dependent code layout options; cell widths are measured by the caller
#[derive(Clone, Copy, Debug, PartialEq, Eq, Structural)]
pub struct CodeLayoutOptions {
    viewport_width: u32,
    tab_width: u8,
    wrap: bool,
    line_numbers: bool,
}

impl View for CodeLayoutOptions {
    type V = (u32, u8, bool, bool);

    closed spec fn view(&self) -> (u32, u8, bool, bool) {
        (self.viewport_width, self.tab_width, self.wrap, self.line_numbers)
    }
}

impl CodeLayoutOptions {
    /// Both widths are positive
    #[verifier::type_invariant]
    closed spec fn positive(self) -> bool {
        self.viewport_width > 0 && self.tab_width > 0
    }

    /// Returns the total terminal viewport width
    pub fn viewport_width(self) -> (value: u32)
        ensures
            value == self@.0,
            value > 0,
    {
        proof {
            use_type_invariant(&self);
        }
        self.viewport_width
    }

    /// Returns these options with a viewport width, zero restoring the default
    pub fn with_viewport_width(self, value: u32) -> (options: Self)
        ensures
            options@ == (if value == 0 {
                DEFAULT_CODE_LAYOUT_VIEWPORT_WIDTH
            } else {
                value
            }, self@.1, self@.2, self@.3),
    {
        proof {
            use_type_invariant(&self);
        }
        CodeLayoutOptions {
            viewport_width: if value == 0 {
                DEFAULT_CODE_LAYOUT_VIEWPORT_WIDTH
            } else {
                value
            },
            tab_width: self.tab_width,
            wrap: self.wrap,
            line_numbers: self.line_numbers,
        }
    }

    /// Returns the tab stop width
    pub fn tab_width(self) -> (value: u8)
        ensures
            value == self@.1,
            value > 0,
    {
        proof {
            use_type_invariant(&self);
        }
        self.tab_width
    }

    /// Returns these options with a tab stop width, zero restoring the default
    pub fn with_tab_width(self, value: u8) -> (options: Self)
        ensures
            options@ == (self@.0, if value == 0 {
                DEFAULT_CODE_LAYOUT_TAB_WIDTH
            } else {
                value
            }, self@.2, self@.3),
    {
        proof {
            use_type_invariant(&self);
        }
        CodeLayoutOptions {
            viewport_width: self.viewport_width,
            tab_width: if value == 0 {
                DEFAULT_CODE_LAYOUT_TAB_WIDTH
            } else {
                value
            },
            wrap: self.wrap,
            line_numbers: self.line_numbers,
        }
    }

    /// Reports whether long lines hard-wrap at cell boundaries
    pub fn wraps(self) -> (value: bool)
        ensures
            value == self@.2,
    {
        self.wrap
    }

    /// Returns these options with hard wrapping enabled or disabled
    pub fn with_wrap(self, value: bool) -> (options: Self)
        ensures
            options@ == (self@.0, self@.1, value, self@.3),
    {
        proof {
            use_type_invariant(&self);
        }
        CodeLayoutOptions {
            viewport_width: self.viewport_width,
            tab_width: self.tab_width,
            wrap: value,
            line_numbers: self.line_numbers,
        }
    }

    /// Reports whether the view reserves a line-number gutter
    pub fn shows_line_numbers(self) -> (value: bool)
        ensures
            value == self@.3,
    {
        self.line_numbers
    }

    /// Returns these options with the line-number gutter enabled or disabled
    pub fn with_line_numbers(self, value: bool) -> (options: Self)
        ensures
            options@ == (self@.0, self@.1, self@.2, value),
    {
        proof {
            use_type_invariant(&self);
        }
        CodeLayoutOptions {
            viewport_width: self.viewport_width,
            tab_width: self.tab_width,
            wrap: self.wrap,
            line_numbers: value,
        }
    }
}

impl Default for CodeLayoutOptions {
    fn default() -> (options: Self)
        ensures
            options@ == (DEFAULT_CODE_LAYOUT_VIEWPORT_WIDTH, DEFAULT_CODE_LAYOUT_TAB_WIDTH, false, true),
    {
        CodeLayoutOptions {
            viewport_width: DEFAULT_CODE_LAYOUT_VIEWPORT_WIDTH,
            tab_width: DEFAULT_CODE_LAYOUT_TAB_WIDTH,
            wrap: false,
            line_numbers: true,
        }
    }
}

// ---------------------------------------------------------------------------
// The layout as a model
// ---------------------------------------------------------------------------

/// What a projection needs to know besides the cells
pub struct LayoutRules {
    /// Width of the code area
    pub code_width: nat,
    /// Whether long lines wrap
    pub wrap: bool,
    /// Tab stop width
    pub tab_width: nat,
    /// Maximum visual row count
    pub max_rows: nat,
    /// Maximum expanded display byte count
    pub max_bytes: nat,
}

/// One visual row as plain values
pub struct RowModel {
    /// Index of the logical line the row shows
    pub line: nat,
    /// Whether the row continues a wrapped line
    pub continuation: bool,
    /// Cells of the row in order
    pub cells: Seq<CellModel>,
    /// Width of the row in cells, stopping at `u32::MAX`
    pub width: nat,
}

/// Progress of a projection: rows so far, the open row, and running counts
pub struct LayoutState {
    /// Completed rows
    pub rows: Seq<RowModel>,
    /// Cells of the open row
    pub row: Seq<CellModel>,
    /// Width of the open row
    pub width: nat,
    /// Whether the open row continues a wrapped line
    pub continuation: bool,
    /// Logical column used for tab stops
    pub column: nat,
    /// Display bytes so far
    pub bytes: nat,
    /// Widest completed row
    pub maximum: nat,
}

/// A failure as plain values: kind, limit and observed value
pub type LayoutFailure = (CodeLayoutErrorKind, u64, u64);

/// `value`, stopping at `u32::MAX`
pub open spec fn saturate_u32(value: int) -> nat {
    if value > u32::MAX {
        u32::MAX as nat
    } else if value < 0 {
        0
    } else {
        value as nat
    }
}

/// `value`, stopping at `u64::MAX`
pub open spec fn saturate_u64(value: int) -> nat {
    if value > u64::MAX {
        u64::MAX as nat
    } else if value < 0 {
        0
    } else {
        value as nat
    }
}

/// Appends a completed row, failing when the row count would pass its limit
pub open spec fn spec_push_row(rules: LayoutRules, state: LayoutState, row: RowModel) -> Result<
    LayoutState,
    LayoutFailure,
> {
    let observed = saturate_u64(state.rows.len() + 1int);
    if observed > rules.max_rows {
        Err((CodeLayoutErrorKind::VisualRowLimit, rules.max_rows as u64, observed as u64))
    } else {
        Ok(
            LayoutState {
                rows: state.rows.push(row),
                maximum: if row.width > state.maximum {
                    row.width
                } else {
                    state.maximum
                },
                ..state
            },
        )
    }
}

/// Counts display bytes, failing when the total passes its limit
pub open spec fn spec_add_bytes(rules: LayoutRules, state: LayoutState, bytes: nat) -> Result<
    LayoutState,
    LayoutFailure,
> {
    let total = saturate_u64(state.bytes as int + bytes);
    if total > rules.max_bytes {
        Err((CodeLayoutErrorKind::DisplayByteLimit, rules.max_bytes as u64, total as u64))
    } else {
        Ok(LayoutState { bytes: total, ..state })
    }
}

/// Places one cell: when wrapping and the cell would overflow a non-empty row, the row is
/// completed first and the cell opens a continuation row
pub open spec fn spec_push_atom(
    rules: LayoutRules,
    line: nat,
    state: LayoutState,
    cell: CellModel,
) -> Result<LayoutState, LayoutFailure> {
    let wrapped = if rules.wrap && state.width > 0 && saturate_u32(state.width + cell.2)
        > rules.code_width {
        match spec_push_row(
            rules,
            state,
            RowModel { line, continuation: state.continuation, cells: state.row, width: state.width },
        ) {
            Ok(next) => Ok(
                LayoutState { row: Seq::empty(), width: 0, continuation: true, ..next },
            ),
            Err(failure) => Err(failure),
        }
    } else {
        Ok(state)
    };
    match wrapped {
        Err(failure) => Err(failure),
        Ok(next) => match spec_add_bytes(rules, next, utf8_len(cell.1)) {
            Err(failure) => Err(failure),
            Ok(counted) => Ok(
                LayoutState {
                    row: counted.row.push(cell),
                    width: saturate_u32(counted.width + cell.2),
                    ..counted
                },
            ),
        },
    }
}

/// The cell standing for one space of an expanded tab
pub open spec fn space_cell(span: usize) -> CellModel {
    (span, seq![' '], 1u32)
}

/// Places `count` spaces of run `span`, each advancing the logical column
pub open spec fn spec_push_spaces(
    rules: LayoutRules,
    line: nat,
    state: LayoutState,
    span: usize,
    count: nat,
) -> Result<LayoutState, LayoutFailure>
    decreases count,
{
    if count == 0 {
        Ok(state)
    } else {
        match spec_push_atom(rules, line, state, space_cell(span)) {
            Err(failure) => Err(failure),
            Ok(next) => spec_push_spaces(
                rules,
                line,
                LayoutState { column: saturate_u32(next.column + 1int), ..next },
                span,
                (count - 1) as nat,
            ),
        }
    }
}

/// A cell holding one tab character
pub open spec fn is_tab(text: Seq<char>) -> bool {
    text == seq!['\t']
}

/// Places one measured grapheme: a tab becomes the spaces up to the next tab stop
pub open spec fn spec_push_cell(
    rules: LayoutRules,
    line: nat,
    state: LayoutState,
    cell: CellModel,
) -> Result<LayoutState, LayoutFailure> {
    if is_tab(cell.1) {
        spec_push_spaces(
            rules,
            line,
            state,
            cell.0,
            (rules.tab_width - state.column % rules.tab_width) as nat,
        )
    } else {
        match spec_push_atom(rules, line, state, cell) {
            Err(failure) => Err(failure),
            Ok(next) => Ok(LayoutState { column: saturate_u32(next.column + cell.2), ..next }),
        }
    }
}

/// Places measured graphemes in order
pub open spec fn spec_push_cells(
    rules: LayoutRules,
    line: nat,
    state: LayoutState,
    cells: Seq<CellModel>,
) -> Result<LayoutState, LayoutFailure>
    decreases cells.len(),
{
    if cells.len() == 0 {
        Ok(state)
    } else {
        match spec_push_cell(rules, line, state, cells[0]) {
            Err(failure) => Err(failure),
            Ok(next) => spec_push_cells(rules, line, next, cells.drop_first()),
        }
    }
}

/// Total width of cells, stopping at `u32::MAX`
pub open spec fn cells_width(cells: Seq<CellModel>) -> nat
    decreases cells.len(),
{
    if cells.len() == 0 {
        0
    } else {
        saturate_u32(cells_width(cells.drop_last()) + cells.last().2)
    }
}

/// Projects one logical line: a line without tabs in a layout without wrapping stays one row;
/// otherwise tabs expand, rows wrap, and the line keeps at least one row
pub open spec fn spec_layout_line(
    rules: LayoutRules,
    line: nat,
    state: LayoutState,
    text: Seq<char>,
    cells: Seq<CellModel>,
) -> Result<LayoutState, LayoutFailure> {
    if !rules.wrap && !text.contains('\t') {
        match spec_add_bytes(rules, state, utf8_len(text)) {
            Err(failure) => Err(failure),
            Ok(next) => spec_push_row(
                rules,
                next,
                RowModel { line, continuation: false, cells, width: cells_width(cells) },
            ),
        }
    } else {
        let start = LayoutState {
            row: Seq::empty(),
            width: 0,
            continuation: false,
            column: 0,
            ..state
        };
        match spec_push_cells(rules, line, start, cells) {
            Err(failure) => Err(failure),
            Ok(next) => if next.row.len() > 0 || next.rows.len() == state.rows.len() {
                spec_push_row(
                    rules,
                    LayoutState { row: Seq::empty(), ..next },
                    RowModel {
                        line,
                        continuation: next.continuation,
                        cells: next.row,
                        width: next.width,
                    },
                )
            } else {
                Ok(next)
            },
        }
    }
}

// ---------------------------------------------------------------------------
// What a projected line holds
// ---------------------------------------------------------------------------

/// The cells of rows, concatenated in order
pub open spec fn flatten_rows(rows: Seq<RowModel>) -> Seq<CellModel>
    decreases rows.len(),
{
    if rows.len() == 0 {
        Seq::empty()
    } else {
        flatten_rows(rows.drop_last()) + rows.last().cells
    }
}

/// The cells one grapheme becomes at logical column `column`, and the column after it: a tab
/// becomes spaces up to the next tab stop
pub open spec fn expand_cell(tab_width: nat, column: nat, cell: CellModel) -> (Seq<CellModel>, nat) {
    if is_tab(cell.1) {
        let count = (tab_width - column % tab_width) as nat;
        (Seq::new(count, |i: int| space_cell(cell.0)), saturate_u32(column as int + count))
    } else {
        (seq![cell], saturate_u32(column + cell.2))
    }
}

/// The cells graphemes become from logical column `column` on
pub open spec fn expand_cells(tab_width: nat, column: nat, cells: Seq<CellModel>) -> Seq<CellModel>
    decreases cells.len(),
{
    if cells.len() == 0 {
        Seq::empty()
    } else {
        let first = expand_cell(tab_width, column, cells[0]);
        first.0 + expand_cells(tab_width, first.1, cells.drop_first())
    }
}

/// A row no wider than the code area, or one whose cells before the last are all of zero
/// width
pub open spec fn row_fits(code_width: nat, row: RowModel) -> bool {
    row.width <= code_width || forall|k: int|
        0 <= k < row.cells.len() - 1 ==> (#[trigger] row.cells[k]).2 == 0
}

/// `state` extends `base` with rows of `line` and an open row that together hold `produced`
pub open spec fn extends(
    rules: LayoutRules,
    line: nat,
    base: LayoutState,
    state: LayoutState,
    produced: Seq<CellModel>,
) -> bool {
    &&& base.rows.len() <= state.rows.len()
    &&& state.rows.take(base.rows.len() as int) == base.rows
    &&& forall|k: int|
        base.rows.len() <= k < state.rows.len() ==> (#[trigger] state.rows[k]).line == line
    &&& flatten_rows(state.rows.skip(base.rows.len() as int)) + state.row == produced
    &&& state.width == cells_width(state.row)
    &&& !rules.wrap ==> state.rows.len() == base.rows.len()
    &&& rules.wrap ==> forall|k: int|
        base.rows.len() <= k < state.rows.len() ==> row_fits(
            rules.code_width,
            #[trigger] state.rows[k],
        )
    &&& rules.wrap ==> row_fits(
        rules.code_width,
        RowModel { line, continuation: state.continuation, cells: state.row, width: state.width },
    )
}

/// Cells of total width zero all have width zero
proof fn lemma_zero_width(cells: Seq<CellModel>)
    requires
        cells_width(cells) == 0,
    ensures
        forall|k: int| 0 <= k < cells.len() ==> (#[trigger] cells[k]).2 == 0,
    decreases cells.len(),
{
    if cells.len() > 0 {
        lemma_zero_width(cells.drop_last());
        assert forall|k: int| 0 <= k < cells.len() implies (#[trigger] cells[k]).2 == 0 by {
            if k < cells.len() - 1 {
                assert(cells.drop_last()[k] == cells[k]);
            }
        }
    }
}

/// Completing a row appends its cells after those of earlier rows
proof fn lemma_flatten_push(rows: Seq<RowModel>, row: RowModel, start: int)
    requires
        0 <= start <= rows.len(),
    ensures
        flatten_rows(rows.push(row).skip(start)) == flatten_rows(rows.skip(start)) + row.cells,
{
    assert(rows.push(row).skip(start) =~= rows.skip(start).push(row));
    assert(rows.skip(start).push(row).drop_last() =~= rows.skip(start));
}

/// Placing one cell extends the line by that cell and keeps the logical column
proof fn lemma_atom_extends(
    rules: LayoutRules,
    line: nat,
    base: LayoutState,
    state: LayoutState,
    produced: Seq<CellModel>,
    cell: CellModel,
)
    requires
        extends(rules, line, base, state, produced),
        spec_push_atom(rules, line, state, cell) is Ok,
    ensures
        extends(rules, line, base, spec_push_atom(rules, line, state, cell)->Ok_0, produced.push(cell)),
        spec_push_atom(rules, line, state, cell)->Ok_0.column == state.column,
{
    let next = spec_push_atom(rules, line, state, cell)->Ok_0;
    let start = base.rows.len() as int;
    let wrap = rules.wrap && state.width > 0 && saturate_u32(state.width + cell.2) > rules.code_width;
    if wrap {
        let completed = RowModel {
            line,
            continuation: state.continuation,
            cells: state.row,
            width: state.width,
        };
        lemma_flatten_push(state.rows, completed, start);
        assert(next.rows == state.rows.push(completed));
        assert(next.rows.take(start) =~= base.rows);
        assert(next.row =~= seq![cell]);
        assert(Seq::<CellModel>::empty().push(cell) =~= seq![cell]);
        assert(seq![cell].drop_last() =~= Seq::<CellModel>::empty());
        assert(flatten_rows(next.rows.skip(start)) + next.row =~= produced.push(cell));
        assert forall|k: int| start <= k < next.rows.len() implies (#[trigger] next.rows[k]).line
            == line by {
            if k < state.rows.len() {
                assert(next.rows[k] == state.rows[k]);
            }
        }
        assert forall|k: int| start <= k < next.rows.len() implies row_fits(
            rules.code_width,
            #[trigger] next.rows[k],
        ) by {
            if k < state.rows.len() {
                assert(next.rows[k] == state.rows[k]);
            }
        }
        assert(cells_width(Seq::<CellModel>::empty()) == 0);
        assert(seq![cell].last() == cell);
        assert(cells_width(next.row) == next.width);
        assert(rules.wrap ==> row_fits(
            rules.code_width,
            RowModel { line, continuation: next.continuation, cells: next.row, width: next.width },
        ));
    } else {
        assert(next.rows == state.rows);
        assert(next.row == state.row.push(cell));
        assert(next.row.drop_last() =~= state.row);
        assert(flatten_rows(next.rows.skip(start)) + next.row =~= produced.push(cell));
        if rules.wrap && state.width == 0 {
            lemma_zero_width(state.row);
            assert forall|k: int| 0 <= k < next.row.len() - 1 implies (#[trigger] next.row[k]).2
                == 0 by {
                assert(next.row[k] == state.row[k]);
            }
        }
        assert(next.row.last() == cell);
        assert(cells_width(next.row) == next.width);
        assert(next.rows.take(start) == base.rows);
        assert(rules.wrap ==> row_fits(
            rules.code_width,
            RowModel { line, continuation: next.continuation, cells: next.row, width: next.width },
        ));
    }
}

/// Placing spaces extends the line by those spaces and advances the logical column
proof fn lemma_spaces_extends(
    rules: LayoutRules,
    line: nat,
    base: LayoutState,
    state: LayoutState,
    produced: Seq<CellModel>,
    span: usize,
    count: nat,
)
    requires
        extends(rules, line, base, state, produced),
        state.column <= u32::MAX,
        spec_push_spaces(rules, line, state, span, count) is Ok,
    ensures
        extends(
            rules,
            line,
            base,
            spec_push_spaces(rules, line, state, span, count)->Ok_0,
            produced + Seq::new(count, |i: int| space_cell(span)),
        ),
        spec_push_spaces(rules, line, state, span, count)->Ok_0.column == saturate_u32(
            state.column as int + count,
        ),
    decreases count,
{
    if count == 0 {
        assert(produced + Seq::new(0, |i: int| space_cell(span)) =~= produced);
    } else {
        lemma_atom_extends(rules, line, base, state, produced, space_cell(span));
        let next = spec_push_atom(rules, line, state, space_cell(span))->Ok_0;
        let moved = LayoutState { column: saturate_u32(next.column + 1int), ..next };
        assert(saturate_u32(moved.column + (count - 1)) == saturate_u32(state.column as int + count));
        assert(spec_push_spaces(rules, line, state, span, count) == spec_push_spaces(
            rules,
            line,
            moved,
            span,
            (count - 1) as nat,
        ));
        lemma_spaces_extends(
            rules,
            line,
            base,
            moved,
            produced.push(space_cell(span)),
            span,
            (count - 1) as nat,
        );
        assert(produced.push(space_cell(span)) + Seq::new(
            (count - 1) as nat,
            |i: int| space_cell(span),
        ) =~= produced + Seq::new(count, |i: int| space_cell(span)));
    }
}

/// Placing graphemes extends the line by their expansion
proof fn lemma_cells_extends(
    rules: LayoutRules,
    line: nat,
    base: LayoutState,
    state: LayoutState,
    produced: Seq<CellModel>,
    cells: Seq<CellModel>,
)
    requires
        extends(rules, line, base, state, produced),
        state.column <= u32::MAX,
        spec_push_cells(rules, line, state, cells) is Ok,
    ensures
        extends(
            rules,
            line,
            base,
            spec_push_cells(rules, line, state, cells)->Ok_0,
            produced + expand_cells(rules.tab_width, state.column, cells),
        ),
    decreases cells.len(),
{
    if cells.len() == 0 {
        assert(produced + expand_cells(rules.tab_width, state.column, cells) =~= produced);
    } else {
        let cell = cells[0];
        let first = expand_cell(rules.tab_width, state.column, cell);
        let next = spec_push_cell(rules, line, state, cell)->Ok_0;
        if is_tab(cell.1) {
            lemma_spaces_extends(
                rules,
                line,
                base,
                state,
                produced,
                cell.0,
                (rules.tab_width - state.column % rules.tab_width) as nat,
            );
        } else {
            lemma_atom_extends(rules, line, base, state, produced, cell);
            assert(produced.push(cell) =~= produced + first.0);
        }
        assert(next.column == first.1);
        lemma_cells_extends(rules, line, base, next, produced + first.0, cells.drop_first());
        assert(produced + first.0 + expand_cells(rules.tab_width, first.1, cells.drop_first())
            =~= produced + expand_cells(rules.tab_width, state.column, cells));
    }
}

/// A projected line keeps every earlier row and appends at least one row of its own; in
/// order, its rows hold its graphemes, each tab expanded with spaces to the next tab stop
/// (unchanged when the line is kept whole); without wrapping the line is exactly one row, and
/// with wrapping no row is wider than the code area unless every cell before its last has
/// zero width
pub proof fn lemma_layout_line_content(
    rules: LayoutRules,
    line: nat,
    state: LayoutState,
    text: Seq<char>,
    cells: Seq<CellModel>,
)
    requires
        spec_layout_line(rules, line, state, text, cells) is Ok,
    ensures
        ({
            let next = spec_layout_line(rules, line, state, text, cells)->Ok_0;
            let start = state.rows.len() as int;
            &&& next.rows.len() > start
            &&& next.rows.take(start) == state.rows
            &&& forall|k: int| start <= k < next.rows.len() ==> (#[trigger] next.rows[k]).line == line
            &&& flatten_rows(next.rows.skip(start)) == if !rules.wrap && !text.contains('\t') {
                cells
            } else {
                expand_cells(rules.tab_width, 0, cells)
            }
            &&& !rules.wrap ==> next.rows.len() == start + 1
            &&& rules.wrap ==> forall|k: int|
                start <= k < next.rows.len() ==> row_fits(rules.code_width, #[trigger] next.rows[k])
        }),
{
    let start = state.rows.len() as int;
    let next = spec_layout_line(rules, line, state, text, cells)->Ok_0;
    if !rules.wrap && !text.contains('\t') {
        let counted = spec_add_bytes(rules, state, utf8_len(text))->Ok_0;
        let row = RowModel { line, continuation: false, cells, width: cells_width(cells) };
        assert(next.rows == state.rows.push(row));
        assert(next.rows.take(start) =~= state.rows);
        assert(next.rows.skip(start) =~= seq![row]);
        assert(seq![row].drop_last() =~= Seq::<RowModel>::empty());
        assert(flatten_rows(Seq::<RowModel>::empty()) =~= Seq::<CellModel>::empty());
        assert(seq![row].last() == row);
        assert(flatten_rows(seq![row]) =~= cells);
    } else {
        let opened = LayoutState {
            row: Seq::empty(),
            width: 0,
            continuation: false,
            column: 0,
            ..state
        };
        assert(opened.rows.take(start) =~= state.rows);
        assert(opened.rows.skip(start) =~= Seq::<RowModel>::empty());
        assert(flatten_rows(opened.rows.skip(start)) + opened.row =~= Seq::<CellModel>::empty());
        assert(cells_width(opened.row) == 0);
        assert(extends(rules, line, opened, opened, Seq::empty()));
        lemma_cells_extends(rules, line, opened, opened, Seq::empty(), cells);
        let pushed = spec_push_cells(rules, line, opened, cells)->Ok_0;
        let expanded = expand_cells(rules.tab_width, 0, cells);
        assert(Seq::<CellModel>::empty() + expanded =~= expanded);
        if pushed.row.len() > 0 || pushed.rows.len() == state.rows.len() {
            let row = RowModel {
                line,
                continuation: pushed.continuation,
                cells: pushed.row,
                width: pushed.width,
            };
            lemma_flatten_push(pushed.rows, row, start);
            assert(next.rows == pushed.rows.push(row));
            assert(next.rows.take(start) =~= state.rows) by {
                assert(pushed.rows.take(start) == state.rows);
            }
            assert forall|k: int| start <= k < next.rows.len() implies (#[trigger] next.rows[k]).line
                == line by {
                if k < pushed.rows.len() {
                    assert(next.rows[k] == pushed.rows[k]);
                }
            }
            assert forall|k: int| rules.wrap && start <= k < next.rows.len() implies row_fits(
                rules.code_width,
                #[trigger] next.rows[k],
            ) by {
                if k < pushed.rows.len() {
                    assert(next.rows[k] == pushed.rows[k]);
                }
            }
        } else {
            assert(pushed.row =~= Seq::<CellModel>::empty());
            assert(flatten_rows(pushed.rows.skip(start)) + pushed.row =~= flatten_rows(
                pushed.rows.skip(start),
            ));
        }
    }
}

// ---------------------------------------------------------------------------
// Rows and the builder
// ---------------------------------------------------------------------------

/// One projected terminal row of a logical line
#[derive(Debug, PartialEq, Eq)]
pub struct CodeVisualRow {
    line: usize,
    continuation: bool,
    cells: Vec<CodeCell>,
    width: u32,
}

impl View for CodeVisualRow {
    type V = RowModel;

    closed spec fn view(&self) -> RowModel {
        RowModel {
            line: self.line as nat,
            continuation: self.continuation,
            cells: cell_models(self.cells@),
            width: self.width as nat,
        }
    }
}

impl CodeVisualRow {
    /// Returns the index of the logical line the row shows
    pub fn line(&self) -> (line: usize)
        ensures
            line == self@.line,
    {
        self.line
    }

    /// Reports whether the row continues a wrapped line
    pub fn is_continuation(&self) -> (continuation: bool)
        ensures
            continuation == self@.continuation,
    {
        self.continuation
    }

    /// Returns the cells of the row in order
    pub fn cells(&self) -> (cells: &[CodeCell])
        ensures
            cell_models(cells@) == self@.cells,
    {
        self.cells.as_slice()
    }

    /// Returns the width of the row in terminal cells
    pub fn width(&self) -> (width: u32)
        ensures
            width == self@.width,
    {
        self.width
    }
}

/// The plain values of rows
pub open spec fn row_models(rows: Seq<CodeVisualRow>) -> Seq<RowModel> {
    rows.map_values(|row: CodeVisualRow| row@)
}

/// Projection settings as machine values
struct Rules {
    code_width: u32,
    wrap: bool,
    tab_width: u8,
    max_rows: u64,
    max_bytes: u64,
}

impl View for Rules {
    type V = LayoutRules;

    closed spec fn view(&self) -> LayoutRules {
        LayoutRules {
            code_width: self.code_width as nat,
            wrap: self.wrap,
            tab_width: self.tab_width as nat,
            max_rows: self.max_rows as nat,
            max_bytes: self.max_bytes as nat,
        }
    }
}

/// Progress of a projection
struct Builder {
    rows: Vec<CodeVisualRow>,
    row: Vec<CodeCell>,
    width: u32,
    continuation: bool,
    column: u32,
    bytes: u64,
    maximum: u32,
}

impl View for Builder {
    type V = LayoutState;

    closed spec fn view(&self) -> LayoutState {
        LayoutState {
            rows: row_models(self.rows@),
            row: cell_models(self.row@),
            width: self.width as nat,
            continuation: self.continuation,
            column: self.column as nat,
            bytes: self.bytes as nat,
            maximum: self.maximum as nat,
        }
    }
}

fn duplicate_cells(cells: &[CodeCell]) -> (copy: Vec<CodeCell>)
    ensures
        cell_models(copy@) == cell_models(cells@),
{
    let mut copy: Vec<CodeCell> = Vec::new();
    let mut index: usize = 0;
    while index < cells.len()
        invariant
            0 <= index <= cells@.len(),
            cell_models(copy@) == cell_models(cells@).take(index as int),
        decreases cells@.len() - index,
    {
        let ghost before = copy@;
        copy.push(cells[index].duplicate());
        proof {
            assert(cell_models(copy@) =~= cell_models(before).push(cells@[index as int]@));
            assert(cell_models(cells@).take(index + 1) =~= cell_models(cells@).take(
                index as int,
            ).push(cells@[index as int]@));
        }
        index = index + 1;
    }
    assert(cell_models(cells@).take(cells@.len() as int) =~= cell_models(cells@));
    copy
}

fn push_row(
    builder: &mut Builder,
    rules: &Rules,
    line: usize,
    continuation: bool,
    cells: Vec<CodeCell>,
    width: u32,
) -> (result: Result<(), CodeLayoutError>)
    ensures
        (match spec_push_row(
            rules@,
            old(builder)@,
            RowModel {
                line: line as nat,
                continuation,
                cells: cell_models(cells@),
                width: width as nat,
            },
        ) {
            Ok(next) => result is Ok && final(builder)@ == next,
            Err(failure) => result matches Err(error) && error@ == failure,
        }),
{
    let observed = (builder.rows.len() as u64).saturating_add(1);
    match check_layout_limit(CodeLayoutErrorKind::VisualRowLimit, rules.max_rows, observed) {
        Err(error) => {
            return Err(error);
        },
        Ok(()) => {},
    }
    if width > builder.maximum {
        builder.maximum = width;
    }
    let ghost before = builder.rows@;
    let row = CodeVisualRow { line, continuation, cells, width };
    builder.rows.push(row);
    proof {
        assert(row_models(builder.rows@) =~= row_models(before).push(row@));
    }
    Ok(())
}

fn add_bytes(builder: &mut Builder, rules: &Rules, bytes: usize) -> (result: Result<
    (),
    CodeLayoutError,
>)
    ensures
        (match spec_add_bytes(rules@, old(builder)@, bytes as nat) {
            Ok(next) => result is Ok && final(builder)@ == next,
            Err(failure) => result matches Err(error) && error@ == failure,
        }),
{
    builder.bytes = builder.bytes.saturating_add(bytes as u64);
    check_layout_limit(CodeLayoutErrorKind::DisplayByteLimit, rules.max_bytes, builder.bytes)
}

fn push_atom(builder: &mut Builder, rules: &Rules, line: usize, cell: CodeCell) -> (result: Result<
    (),
    CodeLayoutError,
>)
    ensures
        (match spec_push_atom(rules@, line as nat, old(builder)@, cell@) {
            Ok(next) => result is Ok && final(builder)@ == next,
            Err(failure) => result matches Err(error) && error@ == failure,
        }),
{
    if rules.wrap && builder.width > 0 && builder.width.saturating_add(cell.width)
        > rules.code_width {
        let mut complete: Vec<CodeCell> = Vec::new();
        std::mem::swap(&mut complete, &mut builder.row);
        let width = builder.width;
        let continuation = builder.continuation;
        match push_row(builder, rules, line, continuation, complete, width) {
            Err(error) => {
                return Err(error);
            },
            Ok(()) => {},
        }
        builder.continuation = true;
        builder.width = 0;
        proof {
            assert(cell_models(builder.row@) =~= Seq::<CellModel>::empty());
        }
    }
    let length = str_byte_len(cell.text.as_str());
    match add_bytes(builder, rules, length) {
        Err(error) => {
            return Err(error);
        },
        Ok(()) => {},
    }
    let ghost before = builder.row@;
    let width = cell.width;
    builder.row.push(cell);
    proof {
        assert(cell_models(builder.row@) =~= cell_models(before).push(cell@));
    }
    builder.width = builder.width.saturating_add(width);
    Ok(())
}

fn push_spaces(builder: &mut Builder, rules: &Rules, line: usize, span: usize, count: u32) -> (result:
    Result<(), CodeLayoutError>)
    ensures
        (match spec_push_spaces(rules@, line as nat, old(builder)@, span, count as nat) {
            Ok(next) => result is Ok && final(builder)@ == next,
            Err(failure) => result matches Err(error) && error@ == failure,
        }),
{
    let ghost target = spec_push_spaces(rules@, line as nat, builder@, span, count as nat);
    let mut remaining = count;
    while remaining > 0
        invariant
            target == spec_push_spaces(rules@, line as nat, old(builder)@, span, count as nat),
            target == spec_push_spaces(rules@, line as nat, builder@, span, remaining as nat),
        decreases remaining,
    {
        let space = CodeCell::new(span, " ", 1);
        proof {
            reveal_strlit(" ");
            assert(space@ == space_cell(span));
        }
        match push_atom(builder, rules, line, space) {
            Err(error) => {
                return Err(error);
            },
            Ok(()) => {},
        }
        builder.column = builder.column.saturating_add(1);
        remaining = remaining - 1;
    }
    Ok(())
}

fn is_tab_text(text: &String) -> (tab: bool)
    ensures
        tab == is_tab(text@),
{
    let mut tab = String::new();
    tab.push('\t');
    assert(tab@ =~= seq!['\t']);
    *text == tab
}

fn push_cell(builder: &mut Builder, rules: &Rules, line: usize, cell: &CodeCell) -> (result: Result<
    (),
    CodeLayoutError,
>)
    requires
        rules@.tab_width > 0,
    ensures
        (match spec_push_cell(rules@, line as nat, old(builder)@, cell@) {
            Ok(next) => result is Ok && final(builder)@ == next,
            Err(failure) => result matches Err(error) && error@ == failure,
        }),
{
    if is_tab_text(&cell.text) {
        let tab_width = rules.tab_width as u32;
        let count = tab_width - builder.column % tab_width;
        push_spaces(builder, rules, line, cell.span, count)
    } else {
        let width = cell.width;
        match push_atom(builder, rules, line, cell.duplicate()) {
            Err(error) => Err(error),
            Ok(()) => {
                builder.column = builder.column.saturating_add(width);
                Ok(())
            },
        }
    }
}

fn push_cells(builder: &mut Builder, rules: &Rules, line: usize, cells: &[CodeCell]) -> (result:
    Result<(), CodeLayoutError>)
    requires
        rules@.tab_width > 0,
    ensures
        (match spec_push_cells(rules@, line as nat, old(builder)@, cell_models(cells@)) {
            Ok(next) => result is Ok && final(builder)@ == next,
            Err(failure) => result matches Err(error) && error@ == failure,
        }),
{
    let ghost models = cell_models(cells@);
    let ghost target = spec_push_cells(rules@, line as nat, builder@, models);
    proof {
        assert(models.subrange(0, models.len() as int) =~= models);
    }
    let mut index: usize = 0;
    while index < cells.len()
        invariant
            0 <= index <= cells@.len(),
            models == cell_models(cells@),
            rules@.tab_width > 0,
            target == spec_push_cells(rules@, line as nat, old(builder)@, models),
            target == spec_push_cells(
                rules@,
                line as nat,
                builder@,
                models.subrange(index as int, models.len() as int),
            ),
        decreases cells@.len() - index,
    {
        proof {
            let rest = models.subrange(index as int, models.len() as int);
            assert(rest[0] == cells@[index as int]@);
            assert(rest.drop_first() =~= models.subrange(index + 1, models.len() as int));
        }
        match push_cell(builder, rules, line, &cells[index]) {
            Err(error) => {
                return Err(error);
            },
            Ok(()) => {},
        }
        index = index + 1;
    }
    proof {
        assert(models.subrange(models.len() as int, models.len() as int) =~= Seq::<
            CellModel,
        >::empty());
    }
    Ok(())
}

fn contains_tab(text: &str) -> (found: bool)
    ensures
        found == text@.contains('\t'),
{
    let ghost chars = text@;
    let _byte_length = str_byte_len(text);
    let mut index: usize = 0;
    for character in iter: text.chars()
        invariant
            iter.seq() == chars,
            chars == text@,
            index == iter.index(),
            0 <= index <= chars.len(),
            utf8_len(chars) <= usize::MAX,
            forall|k: int| 0 <= k < index ==> chars[k] != '\t',
    {
        proof {
            lemma_utf8_len_prefix(chars, index + 1);
        }
        if character == '\t' {
            assert(chars[index as int] == '\t');
            return true;
        }
        index = index + 1;
    }
    false
}

fn total_width(cells: &[CodeCell]) -> (width: u32)
    ensures
        width == cells_width(cell_models(cells@)),
{
    let ghost models = cell_models(cells@);
    let mut width: u32 = 0;
    let mut index: usize = 0;
    while index < cells.len()
        invariant
            0 <= index <= cells@.len(),
            models == cell_models(cells@),
            width == cells_width(models.take(index as int)),
        decreases cells@.len() - index,
    {
        proof {
            assert(models.take(index + 1).drop_last() =~= models.take(index as int));
            assert(models.take(index + 1).last() == cells@[index as int]@);
        }
        width = width.saturating_add(cells[index].width);
        index = index + 1;
    }
    assert(models.take(models.len() as int) =~= models);
    width
}

fn layout_line(
    builder: &mut Builder,
    rules: &Rules,
    line: usize,
    code_line: &CodeLine,
    cells: &[CodeCell],
) -> (result: Result<(), CodeLayoutError>)
    requires
        rules@.tab_width > 0,
    ensures
        (match spec_layout_line(
            rules@,
            line as nat,
            old(builder)@,
            spans_text(code_line@),
            cell_models(cells@),
        ) {
            Ok(next) => result is Ok && final(builder)@ == next,
            Err(failure) => result matches Err(error) && error@ == failure,
        }),
{
    let text = code_line.text();
    if !rules.wrap && !contains_tab(text) {
        let length = str_byte_len(text);
        match add_bytes(builder, rules, length) {
            Err(error) => {
                return Err(error);
            },
            Ok(()) => {},
        }
        let width = total_width(cells);
        push_row(builder, rules, line, false, duplicate_cells(cells), width)
    } else {
        let first = builder.rows.len();
        builder.row = Vec::new();
        builder.width = 0;
        builder.continuation = false;
        builder.column = 0;
        proof {
            assert(cell_models(builder.row@) =~= Seq::<CellModel>::empty());
        }
        match push_cells(builder, rules, line, cells) {
            Err(error) => {
                return Err(error);
            },
            Ok(()) => {},
        }
        if builder.row.len() > 0 || builder.rows.len() == first {
            let mut complete: Vec<CodeCell> = Vec::new();
            std::mem::swap(&mut complete, &mut builder.row);
            proof {
                assert(cell_models(builder.row@) =~= Seq::<CellModel>::empty());
            }
            let continuation = builder.continuation;
            let width = builder.width;
            push_row(builder, rules, line, continuation, complete, width)
        } else {
            Ok(())
        }
    }
}

// ---------------------------------------------------------------------------
// Whole documents
// ---------------------------------------------------------------------------

/// Projects lines `line..` in order, with the row range of each line
pub open spec fn spec_layout_lines(
    rules: LayoutRules,
    state: LayoutState,
    texts: Seq<Seq<char>>,
    cells: Seq<Seq<CellModel>>,
    line: nat,
) -> Result<(LayoutState, Seq<(nat, nat)>), LayoutFailure>
    decreases texts.len() - line,
{
    if line >= texts.len() {
        Ok((state, Seq::empty()))
    } else {
        match spec_layout_line(rules, line, state, texts[line as int], cells[line as int]) {
            Err(failure) => Err(failure),
            Ok(next) => match spec_layout_lines(rules, next, texts, cells, line + 1) {
                Err(failure) => Err(failure),
                Ok(done) => Ok(
                    (done.0, seq![(state.rows.len(), next.rows.len())] + done.1),
                ),
            },
        }
    }
}

/// `done` with `ranges` in front of its line ranges
pub open spec fn after_ranges(
    done: Result<(LayoutState, Seq<(nat, nat)>), LayoutFailure>,
    ranges: Seq<(nat, nat)>,
) -> Result<(LayoutState, Seq<(nat, nat)>), LayoutFailure> {
    match done {
        Err(failure) => Err(failure),
        Ok(result) => Ok((result.0, ranges + result.1)),
    }
}

/// A projection before any line
pub open spec fn initial_state() -> LayoutState {
    LayoutState {
        rows: Seq::empty(),
        row: Seq::empty(),
        width: 0,
        continuation: false,
        column: 0,
        bytes: 0,
        maximum: 0,
    }
}

/// The settings a document projection uses
pub open spec fn layout_rules(
    options: (u32, u8, bool, bool),
    line_count: nat,
    limits: (u64, u64),
) -> LayoutRules {
    LayoutRules {
        code_width: spec_code_layout_widths(line_count, options.0, options.3).1 as nat,
        wrap: options.2,
        tab_width: options.1 as nat,
        max_rows: limits.0 as nat,
        max_bytes: limits.1 as nat,
    }
}

/// A projected document as plain values
pub struct CodeLayoutModel {
    /// Lines of the projected document
    pub lines: Seq<SpansModel>,
    /// Whether the document ends with a line feed
    pub trailing_newline: bool,
    /// The projection options
    pub options: (u32, u8, bool, bool),
    /// Every visual row in order
    pub rows: Seq<RowModel>,
    /// The rows of each logical line
    pub line_rows: Seq<(nat, nat)>,
    /// Width of the line-number gutter
    pub gutter_width: nat,
    /// Width of the code area
    pub code_width: nat,
    /// Widest visual row
    pub maximum_row_width: nat,
}

/// The measured graphemes of lines as plain values
pub open spec fn line_cell_models(lines: Seq<Vec<CodeCell>>) -> Seq<Seq<CellModel>> {
    lines.map_values(|line: Vec<CodeCell>| cell_models(line@))
}

/// The projection of a document, or the first limit it passes
pub open spec fn spec_code_layout(
    document: (Seq<SpansModel>, bool),
    options: (u32, u8, bool, bool),
    cells: Seq<Seq<CellModel>>,
    limits: (u64, u64),
) -> Result<CodeLayoutModel, LayoutFailure> {
    let widths = spec_code_layout_widths(document.0.len(), options.0, options.3);
    match spec_layout_lines(
        layout_rules(options, document.0.len(), limits),
        initial_state(),
        line_texts(document.0),
        cells,
        0,
    ) {
        Err(failure) => Err(failure),
        Ok(done) => Ok(
            CodeLayoutModel {
                lines: document.0,
                trailing_newline: document.1,
                options,
                rows: done.0.rows,
                line_rows: done.1,
                gutter_width: widths.0 as nat,
                code_width: widths.1 as nat,
                maximum_row_width: done.0.maximum,
            },
        ),
    }
}

/// A tab advances the logical column by one to `tab_width` cells, to the next tab stop
pub proof fn lemma_tab_reaches_stop(tab_width: nat, column: nat, span: usize)
    requires
        tab_width > 0,
        column + tab_width <= u32::MAX,
    ensures
        ({
            let expanded = expand_cell(tab_width, column, (span, seq!['\t'], 0u32));
            &&& 1 <= expanded.0.len() <= tab_width
            &&& expanded.1 % tab_width == 0
            &&& column < expanded.1 <= column + tab_width
        }),
{
    let count = (tab_width - column % tab_width) as nat;
    assert(column % tab_width < tab_width);
    assert((column + count) % tab_width == 0) by (nonlinear_arith)
        requires
            tab_width > 0,
            count == tab_width - column % tab_width,
    {
        assert(column == tab_width * (column / tab_width) + column % tab_width);
        assert(column + count == tab_width * (column / tab_width + 1));
    }
}

/// Rows of lines `line..` follow one another: each line owns a non-empty run of rows that
/// starts where the previous run ends, and every row in a run shows that run's line
proof fn lemma_layout_lines_ranges(
    rules: LayoutRules,
    state: LayoutState,
    texts: Seq<Seq<char>>,
    cells: Seq<Seq<CellModel>>,
    line: nat,
)
    requires
        line <= texts.len(),
        spec_layout_lines(rules, state, texts, cells, line) is Ok,
    ensures
        ({
            let done = spec_layout_lines(rules, state, texts, cells, line)->Ok_0;
            let ranges = done.1;
            let rows = done.0.rows;
            &&& ranges.len() == texts.len() - line
            &&& rows.len() >= state.rows.len()
            &&& rows.take(state.rows.len() as int) == state.rows
            &&& ranges.len() == 0 ==> rows.len() == state.rows.len()
            &&& ranges.len() > 0 ==> ranges[0].0 == state.rows.len() && ranges.last().1
                == rows.len()
            &&& forall|k: int| 0 <= k < ranges.len() ==> (#[trigger] ranges[k]).0 < ranges[k].1
            &&& forall|k: int| 0 <= k < ranges.len() - 1 ==> (#[trigger] ranges[k]).1 == ranges[k
                + 1].0
            &&& forall|k: int, r: int|
                #![trigger ranges[k], rows[r]]
                0 <= k < ranges.len() && ranges[k].0 <= r < ranges[k].1 ==> rows[r].line == line + k
        }),
    decreases texts.len() - line,
{
    if line < texts.len() {
        let next = spec_layout_line(rules, line, state, texts[line as int], cells[line as int])->Ok_0;
        lemma_layout_line_content(rules, line, state, texts[line as int], cells[line as int]);
        lemma_layout_lines_ranges(rules, next, texts, cells, line + 1);
        let rest = spec_layout_lines(rules, next, texts, cells, line + 1)->Ok_0;
        let done = spec_layout_lines(rules, state, texts, cells, line)->Ok_0;
        let first = (state.rows.len(), next.rows.len());
        assert(done.1 == seq![first] + rest.1);
        assert(done.0 == rest.0);
        let rows = done.0.rows;
        assert(rows.take(state.rows.len() as int) =~= state.rows) by {
            assert(rows.take(next.rows.len() as int) == next.rows);
            assert(next.rows.take(state.rows.len() as int) == state.rows);
            assert forall|i: int| 0 <= i < state.rows.len() implies rows[i] == state.rows[i] by {
                assert(rows.take(next.rows.len() as int)[i] == next.rows[i]);
                assert(next.rows.take(state.rows.len() as int)[i] == state.rows[i]);
            }
        }
        assert forall|k: int, r: int|
            #![trigger done.1[k], rows[r]]
            0 <= k < done.1.len() && done.1[k].0 <= r < done.1[k].1 implies rows[r].line == line + k by {
            if k == 0 {
                assert(rows.take(next.rows.len() as int)[r] == next.rows[r]);
            } else {
                assert(done.1[k] == rest.1[k - 1]);
            }
        }
        assert forall|k: int| 0 <= k < done.1.len() - 1 implies (#[trigger] done.1[k]).1
            == done.1[k + 1].0 by {
            if k > 0 {
                assert(done.1[k] == rest.1[k - 1]);
                assert(done.1[k + 1] == rest.1[k]);
            }
        }
        assert forall|k: int| 0 <= k < done.1.len() implies (#[trigger] done.1[k]).0 < done.1[k].1 by {
            if k > 0 {
                assert(done.1[k] == rest.1[k - 1]);
            }
        }
        if rest.1.len() > 0 {
            assert(done.1.last() == rest.1.last());
        }
    }
}

/// In a projected document every logical line owns a non-empty run of visual rows; the runs
/// follow one another from the first row to the last, and every row shows the line of its run
pub proof fn lemma_code_layout_rows(
    document: (Seq<SpansModel>, bool),
    options: (u32, u8, bool, bool),
    cells: Seq<Seq<CellModel>>,
    limits: (u64, u64),
)
    requires
        spec_code_layout(document, options, cells, limits) is Ok,
    ensures
        ({
            let layout = spec_code_layout(document, options, cells, limits)->Ok_0;
            let ranges = layout.line_rows;
            &&& ranges.len() == document.0.len()
            &&& ranges.len() == 0 ==> layout.rows.len() == 0
            &&& ranges.len() > 0 ==> ranges[0].0 == 0 && ranges.last().1 == layout.rows.len()
            &&& forall|k: int| 0 <= k < ranges.len() ==> (#[trigger] ranges[k]).0 < ranges[k].1
            &&& forall|k: int| 0 <= k < ranges.len() - 1 ==> (#[trigger] ranges[k]).1 == ranges[k
                + 1].0
            &&& forall|k: int, r: int|
                #![trigger ranges[k], layout.rows[r]]
                0 <= k < ranges.len() && ranges[k].0 <= r < ranges[k].1 ==> layout.rows[r].line == k
        }),
{
    lemma_layout_lines_ranges(
        layout_rules(options, document.0.len(), limits),
        initial_state(),
        line_texts(document.0),
        cells,
        0,
    );
}

#[derive(Debug)]
struct CodeLayoutInner {
    document: CodeDocument,
    options: CodeLayoutOptions,
    rows: Vec<CodeVisualRow>,
    line_rows: Vec<Range<usize>>,
    gutter_width: u32,
    code_width: u32,
    maximum_row_width: u32,
}

/// Immutable terminal projection of one code document
#[derive(Debug)]
pub struct CodeLayout {
    inner: Arc<CodeLayoutInner>,
}

/// Row ranges as plain values
pub open spec fn range_models(ranges: Seq<Range<usize>>) -> Seq<(nat, nat)> {
    ranges.map_values(|range: Range<usize>| (range.start as nat, range.end as nat))
}

impl View for CodeLayout {
    type V = CodeLayoutModel;

    closed spec fn view(&self) -> CodeLayoutModel {
        CodeLayoutModel {
            lines: self.inner.document@.0,
            trailing_newline: self.inner.document@.1,
            options: self.inner.options@,
            rows: row_models(self.inner.rows@),
            line_rows: range_models(self.inner.line_rows@),
            gutter_width: self.inner.gutter_width as nat,
            code_width: self.inner.code_width as nat,
            maximum_row_width: self.inner.maximum_row_width as nat,
        }
    }
}

impl CodeLayout {
    /// Projects a document using default limits; `graphemes` holds, for each line, its grapheme
    /// clusters in order with their run indices and terminal widths
    pub fn new(document: CodeDocument, options: CodeLayoutOptions, graphemes: &[Vec<CodeCell>]) -> (result:
        Result<Self, CodeLayoutError>)
        requires
            graphemes@.len() == document@.0.len(),
            lines_covered(graphemes@, document@.0),
        ensures
            (match spec_code_layout(
                document@,
                options@,
                line_cell_models(graphemes@),
                (DEFAULT_CODE_LAYOUT_MAX_VISUAL_ROWS, DEFAULT_CODE_LAYOUT_MAX_DISPLAY_BYTES),
            ) {
                Ok(model) => result matches Ok(layout) && layout@ == model,
                Err(failure) => result matches Err(error) && error@ == failure,
            }),
    {
        Self::new_with_limits(document, options, graphemes, CodeLayoutLimits::default())
    }

    /// Projects a document, failing at the first visual row or display byte over a limit;
    /// `graphemes` holds, for each line, its grapheme clusters in order with their run indices
    /// and terminal widths
    pub fn new_with_limits(
        document: CodeDocument,
        options: CodeLayoutOptions,
        graphemes: &[Vec<CodeCell>],
        limits: CodeLayoutLimits,
    ) -> (result: Result<Self, CodeLayoutError>)
        requires
            graphemes@.len() == document@.0.len(),
            lines_covered(graphemes@, document@.0),
        ensures
            (match spec_code_layout(document@, options@, line_cell_models(graphemes@), limits@) {
                Ok(model) => result matches Ok(layout) && layout@ == model,
                Err(failure) => result matches Err(error) && error@ == failure,
            }),
    {
        let count = document.line_count();
        let viewport_width = options.viewport_width();
        let tab_width = options.tab_width();
        let widths = code_layout_widths(count, viewport_width, options.shows_line_numbers());
        let rules = Rules {
            code_width: widths.1,
            wrap: options.wraps(),
            tab_width,
            max_rows: limits.max_visual_rows(),
            max_bytes: limits.max_display_bytes(),
        };
        let mut builder = Builder {
            rows: Vec::new(),
            row: Vec::new(),
            width: 0,
            continuation: false,
            column: 0,
            bytes: 0,
            maximum: 0,
        };
        let ghost texts = line_texts(document@.0);
        let ghost cells = line_cell_models(graphemes@);
        proof {
            assert(builder@.rows =~= Seq::<RowModel>::empty());
            assert(builder@.row =~= Seq::<CellModel>::empty());
            assert(rules@ == layout_rules(options@, document@.0.len(), limits@));
        }
        assert(builder@ == initial_state());
        let ghost target = spec_layout_lines(rules@, builder@, texts, cells, 0);
        let mut line_rows: Vec<Range<usize>> = Vec::new();
        let mut line: usize = 0;
        proof {
            assert(range_models(line_rows@) =~= Seq::<(nat, nat)>::empty());
            assert(Seq::<(nat, nat)>::empty() + target->Ok_0.1 =~= target->Ok_0.1);
        }
        while line < count
            invariant
                0 <= line <= count,
                count == document@.0.len(),
                graphemes@.len() == count,
                texts == line_texts(document@.0),
                cells == line_cell_models(graphemes@),
                rules@.tab_width > 0,
                rules@ == layout_rules(options@, count as nat, limits@),
                target == spec_layout_lines(rules@, initial_state(), texts, cells, 0),
                target == after_ranges(
                    spec_layout_lines(rules@, builder@, texts, cells, line as nat),
                    range_models(line_rows@),
                ),
            decreases count - line,
        {
            let first = builder.rows.len();
            let code_line = document.line(line).unwrap();
            let ghost before = builder@;
            proof {
                assert(texts[line as int] == spans_text(code_line@));
                assert(cells[line as int] == cell_models(graphemes@[line as int]@));
            }
            match layout_line(&mut builder, &rules, line, code_line, graphemes[line].as_slice()) {
                Err(error) => {
                    return Err(error);
                },
                Ok(()) => {},
            }
            let ghost ranges_before = range_models(line_rows@);
            line_rows.push(first..builder.rows.len());
            proof {
                assert(range_models(line_rows@) =~= ranges_before.push(
                    (before.rows.len(), builder@.rows.len()),
                ));
                let rest = spec_layout_lines(rules@, builder@, texts, cells, (line + 1) as nat);
                if let Ok(done) = rest {
                    assert(ranges_before + (seq![(before.rows.len(), builder@.rows.len())]
                        + done.1) =~= range_models(line_rows@) + done.1);
                }
            }
            line = line + 1;
        }
        proof {
            let done = spec_layout_lines(rules@, builder@, texts, cells, line as nat);
            assert(range_models(line_rows@) + Seq::<(nat, nat)>::empty() =~= range_models(
                line_rows@,
            ));
        }
        let inner = CodeLayoutInner {
            document,
            options,
            rows: builder.rows,
            line_rows,
            gutter_width: widths.0,
            code_width: widths.1,
            maximum_row_width: builder.maximum,
        };
        Ok(CodeLayout { inner: Arc::new(inner) })
    }

    /// Returns the projected document
    pub fn document(&self) -> (document: &CodeDocument)
        ensures
            document@ == (self@.lines, self@.trailing_newline),
    {
        &self.inner.document
    }

    /// Returns the projection options
    pub fn options(&self) -> (options: CodeLayoutOptions)
        ensures
            options@ == self@.options,
    {
        self.inner.options
    }

    /// Returns the number of visual rows
    pub fn visual_row_count(&self) -> (count: usize)
        ensures
            count == self@.rows.len(),
    {
        self.inner.rows.len()
    }

    /// Returns the width of the line-number gutter
    pub fn gutter_width(&self) -> (width: u32)
        ensures
            width == self@.gutter_width,
    {
        self.inner.gutter_width
    }

    /// Returns the width of the code area
    pub fn code_width(&self) -> (width: u32)
        ensures
            width == self@.code_width,
    {
        self.inner.code_width
    }

    /// Returns the width of the widest visual row
    pub fn maximum_row_width(&self) -> (width: u32)
        ensures
            width == self@.maximum_row_width,
    {
        self.inner.maximum_row_width
    }

    /// Returns one visual row
    pub fn row(&self, index: usize) -> (row: Option<&CodeVisualRow>)
        ensures
            index < self@.rows.len() ==> (row matches Some(r) && r@ == self@.rows[index as int]),
            index >= self@.rows.len() ==> row is None,
    {
        if index < self.inner.rows.len() {
            Some(&self.inner.rows[index])
        } else {
            None
        }
    }

    /// Returns the visual rows of one logical line, empty for an unknown line
    pub fn rows_for_line(&self, line: usize) -> (rows: Range<usize>)
        ensures
            line < self@.line_rows.len() ==> (rows.start as nat, rows.end as nat)
                == self@.line_rows[line as int],
            line >= self@.line_rows.len() ==> rows.start == 0 && rows.end == 0,
    {
        if line < self.inner.line_rows.len() {
            let range = &self.inner.line_rows[line];
            range.start..range.end
        } else {
            0..0
        }
    }
}

impl Clone for CodeLayout {
    fn clone(&self) -> (copy: Self)
        ensures
            copy@ == self@,
    {
        CodeLayout { inner: share(&self.inner) }
    }
}

} // verus!
