use std::ops::Range;

use vstd::prelude::*;

use crate::code::{document_text, hidden_line_count, joined_lines, line_end, line_start, line_texts};
use crate::code_layout::{CellModel, CodeCell, CodeLayout, CodeLayoutModel, cell_models};
use crate::event::{InputEvent, KeyAction, KeyCode, Modifiers};
use crate::text::{decimal_text, push_decimal_u64, push_right_aligned, right_aligned, utf8_len};

verus! {

broadcast use vstd::string::group_string_axioms;

// ---------------------------------------------------------------------------
// State
// ---------------------------------------------------------------------------

/// Application-owned logical-line selection and horizontal code offset
#[derive(Clone, Copy, Debug, PartialEq, Eq, Structural)]
pub struct CodeViewState {
    cursor: usize,
    anchor: usize,
    has_selection: bool,
    horizontal_offset: u32,
}

/// Cursor, anchor, whether several lines are selected, and horizontal offset
pub type CodeViewModel = (usize, usize, bool, u32);

impl View for CodeViewState {
    type V = CodeViewModel;

    closed spec fn view(&self) -> CodeViewModel {
        (self.cursor, self.anchor, self.has_selection, self.horizontal_offset)
    }
}

/// A collapsed selection at `cursor`
pub open spec fn collapsed_model(cursor: usize, offset: u32) -> CodeViewModel {
    (cursor, cursor, false, offset)
}

/// A selection between `cursor` and `anchor`, collapsed when they are equal
pub open spec fn selection_model(cursor: usize, anchor: usize, offset: u32) -> CodeViewModel {
    (cursor, anchor, cursor != anchor, offset)
}

/// The selected lines as an end-exclusive range
pub open spec fn selected_range(state: CodeViewModel) -> (nat, nat) {
    let low = if state.0 < state.1 {
        state.0
    } else {
        state.1
    };
    let high = if state.0 < state.1 {
        state.1
    } else {
        state.0
    };
    (low as nat, if high == usize::MAX {
        usize::MAX as nat
    } else {
        (high + 1) as nat
    })
}

impl CodeViewState {
    /// Creates a collapsed logical-line selection
    pub fn new(cursor: usize) -> (state: Self)
        ensures
            state@ == collapsed_model(cursor, 0),
    {
        CodeViewState { cursor, anchor: cursor, has_selection: false, horizontal_offset: 0 }
    }

    /// Creates an inclusive logical-line selection between cursor and anchor
    pub fn with_selection(cursor: usize, anchor: usize) -> (state: Self)
        ensures
            state@ == selection_model(cursor, anchor, 0),
    {
        CodeViewState { cursor, anchor, has_selection: cursor != anchor, horizontal_offset: 0 }
    }

    /// Returns the selected logical line
    pub fn cursor(self) -> (cursor: usize)
        ensures
            cursor == self@.0,
    {
        self.cursor
    }

    /// Returns the selection anchor when several logical lines are selected
    pub fn selection_anchor(self) -> (anchor: Option<usize>)
        ensures
            anchor == if self@.2 {
                Some(self@.1)
            } else {
                None
            },
    {
        if self.has_selection {
            Some(self.anchor)
        } else {
            None
        }
    }

    /// Returns the inclusive selection as an ordered end-exclusive line range
    pub fn selected_lines(self) -> (lines: Range<usize>)
        ensures
            (lines.start as nat, lines.end as nat) == selected_range(self@),
    {
        let low = if self.cursor < self.anchor {
            self.cursor
        } else {
            self.anchor
        };
        let high = if self.cursor < self.anchor {
            self.anchor
        } else {
            self.cursor
        };
        low..high.saturating_add(1)
    }

    /// Returns the horizontal cell offset applied only in layouts without wrapping
    pub fn horizontal_offset(self) -> (offset: u32)
        ensures
            offset == self@.3,
    {
        self.horizontal_offset
    }

    /// Returns this state with a replacement horizontal cell offset
    pub fn with_horizontal_offset(self, value: u32) -> (state: Self)
        ensures
            state@ == (self@.0, self@.1, self@.2, value),
    {
        CodeViewState { horizontal_offset: value, ..self }
    }
}

impl Default for CodeViewState {
    fn default() -> (state: Self)
        ensures
            state@ == collapsed_model(0, 0),
    {
        CodeViewState::new(0)
    }
}

// ---------------------------------------------------------------------------
// Commands
// ---------------------------------------------------------------------------

/// Keyboard commands understood by a code view
#[derive(Clone, Copy, Debug, PartialEq, Eq, Structural, Hash)]
pub enum CodeViewAction {
    /// Moves to the previous line
    Previous,
    /// Moves to the next line
    Next,
    /// Moves to the first line
    First,
    /// Moves to the last line
    Last,
    /// Extends the selection to the previous line
    ExtendPrevious,
    /// Extends the selection to the next line
    ExtendNext,
    /// Extends the selection to the first line
    ExtendFirst,
    /// Extends the selection to the last line
    ExtendLast,
    /// Scrolls left by the horizontal step
    HorizontalPrevious,
    /// Scrolls right by the horizontal step
    HorizontalNext,
    /// Selects every line
    SelectAll,
    /// Requests a copy of the selected lines
    CopySelection,
    /// Requests a copy of the document
    CopyDocument,
}

/// `value - amount`, stopping at zero
pub open spec fn saturating_sub(value: int, amount: int) -> nat {
    if value < amount {
        0
    } else {
        (value - amount) as nat
    }
}

/// The smaller of two values
pub open spec fn minimum(first: int, second: int) -> int {
    if first < second {
        first
    } else {
        second
    }
}

/// A state clamped to the lines and the scroll range of a layout
pub open spec fn spec_normalize_code_view(layout: CodeLayoutModel, state: CodeViewModel) -> CodeViewModel {
    let last = saturating_sub(layout.lines.len() as int, 1);
    let maximum_offset = if layout.options.2 {
        0
    } else {
        saturating_sub(layout.maximum_row_width as int, layout.code_width as int)
    };
    let offset = minimum(state.3 as int, maximum_offset as int) as u32;
    if state.2 {
        selection_model(
            minimum(state.0 as int, last as int) as usize,
            minimum(state.1 as int, last as int) as usize,
            offset,
        )
    } else {
        collapsed_model(minimum(state.0 as int, last as int) as usize, offset)
    }
}

/// The state after one command, `step` cells being one horizontal scroll step
pub open spec fn spec_code_view_action(
    layout: CodeLayoutModel,
    state: CodeViewModel,
    action: CodeViewAction,
    step: u32,
) -> CodeViewModel {
    let current = spec_normalize_code_view(layout, state);
    let count = layout.lines.len();
    if count == 0 {
        current
    } else {
        let last = (count - 1) as usize;
        let offset = current.3;
        let anchor = if current.2 {
            current.1
        } else {
            current.0
        };
        let previous = saturating_sub(current.0 as int, 1) as usize;
        let next = minimum(current.0 + 1, last as int) as usize;
        match action {
            CodeViewAction::Previous => collapsed_model(previous, offset),
            CodeViewAction::Next => collapsed_model(next, offset),
            CodeViewAction::First => collapsed_model(0, offset),
            CodeViewAction::Last => collapsed_model(last, offset),
            CodeViewAction::ExtendPrevious => selection_model(previous, anchor, offset),
            CodeViewAction::ExtendNext => selection_model(next, anchor, offset),
            CodeViewAction::ExtendFirst => selection_model(0, anchor, offset),
            CodeViewAction::ExtendLast => selection_model(last, anchor, offset),
            CodeViewAction::HorizontalPrevious => (
                current.0,
                current.1,
                current.2,
                saturating_sub(offset as int, step as int) as u32,
            ),
            CodeViewAction::HorizontalNext => (
                current.0,
                current.1,
                current.2,
                minimum(offset + step, u32::MAX as int) as u32,
            ),
            CodeViewAction::SelectAll => selection_model(last, 0, offset),
            CodeViewAction::CopySelection | CodeViewAction::CopyDocument => current,
        }
    }
}

/// Clamping is idempotent, and a clamped state of a non-empty layout selects existing lines
/// and scrolls no further than the widest row allows
pub proof fn lemma_normalize_code_view(layout: CodeLayoutModel, state: CodeViewModel)
    ensures
        ({
            let clamped = spec_normalize_code_view(layout, state);
            &&& spec_normalize_code_view(layout, clamped) == clamped
            &&& layout.lines.len() > 0 ==> clamped.0 < layout.lines.len() && clamped.1
                < layout.lines.len()
            &&& layout.options.2 ==> clamped.3 == 0
            &&& clamped.3 <= state.3
        }),
{
}

/// Clamps a state to the lines and the scroll range of a layout
pub fn normalize_code_view(layout: &CodeLayout, state: CodeViewState) -> (next: CodeViewState)
    ensures
        next@ == spec_normalize_code_view(layout@, state@),
{
    let lines = layout.document().line_count();
    let last = lines.saturating_sub(1);
    let cursor = if state.cursor < last {
        state.cursor
    } else {
        last
    };
    let mut next = if state.has_selection {
        let anchor = if state.anchor < last {
            state.anchor
        } else {
            last
        };
        CodeViewState::with_selection(cursor, anchor)
    } else {
        CodeViewState::new(cursor)
    };
    let maximum_offset = if layout.options().wraps() {
        0
    } else {
        layout.maximum_row_width().saturating_sub(layout.code_width())
    };
    next.horizontal_offset = if state.horizontal_offset < maximum_offset {
        state.horizontal_offset
    } else {
        maximum_offset
    };
    next
}

/// The state after one command, `horizontal_step` cells being one horizontal scroll step
pub fn code_view_state_for_action(
    layout: &CodeLayout,
    state: CodeViewState,
    action: CodeViewAction,
    horizontal_step: u32,
) -> (next: CodeViewState)
    ensures
        next@ == spec_code_view_action(layout@, state@, action, horizontal_step),
{
    let state = normalize_code_view(layout, state);
    let lines = layout.document().line_count();
    if lines == 0 {
        return state;
    }
    let last = lines - 1;
    let offset = state.horizontal_offset;
    let anchor = match state.selection_anchor() {
        Some(anchor) => anchor,
        None => state.cursor,
    };
    let previous = state.cursor.saturating_sub(1);
    let next = if state.cursor.saturating_add(1) < last {
        state.cursor.saturating_add(1)
    } else {
        last
    };
    match action {
        CodeViewAction::Previous => CodeViewState::new(previous).with_horizontal_offset(offset),
        CodeViewAction::Next => CodeViewState::new(next).with_horizontal_offset(offset),
        CodeViewAction::First => CodeViewState::new(0).with_horizontal_offset(offset),
        CodeViewAction::Last => CodeViewState::new(last).with_horizontal_offset(offset),
        CodeViewAction::ExtendPrevious => CodeViewState::with_selection(
            previous,
            anchor,
        ).with_horizontal_offset(offset),
        CodeViewAction::ExtendNext => CodeViewState::with_selection(
            next,
            anchor,
        ).with_horizontal_offset(offset),
        CodeViewAction::ExtendFirst => CodeViewState::with_selection(
            0,
            anchor,
        ).with_horizontal_offset(offset),
        CodeViewAction::ExtendLast => CodeViewState::with_selection(
            last,
            anchor,
        ).with_horizontal_offset(offset),
        CodeViewAction::HorizontalPrevious => state.with_horizontal_offset(
            offset.saturating_sub(horizontal_step),
        ),
        CodeViewAction::HorizontalNext => state.with_horizontal_offset(
            offset.saturating_add(horizontal_step),
        ),
        CodeViewAction::SelectAll => CodeViewState::with_selection(last, 0).with_horizontal_offset(
            offset,
        ),
        CodeViewAction::CopySelection | CodeViewAction::CopyDocument => state,
    }
}

/// The state after a pointer activates `line`: with `extend` the selection stretches from the
/// existing anchor (or the cursor), otherwise it collapses onto the line; the offset is kept
pub fn pointer_state(state: CodeViewState, line: usize, extend: bool) -> (next: CodeViewState)
    ensures
        next@ == if extend {
            selection_model(line, if state@.2 {
                state@.1
            } else {
                state@.0
            }, state@.3)
        } else {
            collapsed_model(line, state@.3)
        },
{
    if extend {
        let anchor = match state.selection_anchor() {
            Some(anchor) => anchor,
            None => state.cursor,
        };
        CodeViewState::with_selection(line, anchor).with_horizontal_offset(state.horizontal_offset)
    } else {
        CodeViewState::new(line).with_horizontal_offset(state.horizontal_offset)
    }
}

// ---------------------------------------------------------------------------
// Viewport
// ---------------------------------------------------------------------------

/// The visual rows shown in a viewport of `height` rows: every row when the height is zero or
/// holds them all, else `height` rows starting half a viewport above the first row of the
/// selected line and kept inside the layout
pub open spec fn spec_visible_row_window(layout: CodeLayoutModel, selected_line: usize, height: usize) -> (
    nat,
    nat,
) {
    let count = layout.rows.len();
    if height == 0 || height >= count {
        (0, count)
    } else {
        let selected_row = if selected_line < layout.line_rows.len() {
            layout.line_rows[selected_line as int].0
        } else {
            0
        };
        let start = minimum(
            saturating_sub(selected_row as int, (height / 2) as int) as int,
            (count - height) as int,
        ) as nat;
        (start, (start + height) as nat)
    }
}

/// The visual rows shown in a viewport of `height` rows around the selected line; the window
/// holds the first row of that line whenever the line has one
pub fn visible_row_window(layout: &CodeLayout, selected_line: usize, height: usize) -> (window: Range<
    usize,
>)
    ensures
        (window.start as nat, window.end as nat) == spec_visible_row_window(
            layout@,
            selected_line,
            height,
        ),
        window.start <= window.end <= layout@.rows.len(),
        0 < height < layout@.rows.len() ==> window.end - window.start == height,
        selected_line < layout@.line_rows.len() && layout@.line_rows[selected_line as int].0
            < layout@.rows.len() ==> window.start <= layout@.line_rows[selected_line as int].0
            < window.end,
{
    let count = layout.visual_row_count();
    if height == 0 || height >= count {
        return 0..count;
    }
    let selected_row = layout.rows_for_line(selected_line).start;
    let start = selected_row.saturating_sub(height / 2);
    let maximum_start = count - height;
    let start = if start < maximum_start {
        start
    } else {
        maximum_start
    };
    start..start + height
}

// ---------------------------------------------------------------------------
// Horizontal cropping
// ---------------------------------------------------------------------------

/// The cells of a row from cell position `position` on that lie wholly inside `offset..end`;
/// a zero-width cell is kept at a position inside the window
pub open spec fn cells_in_window(cells: Seq<CellModel>, position: nat, offset: nat, end: nat) -> Seq<
    CellModel,
>
    decreases cells.len(),
{
    if cells.len() == 0 || position >= end {
        Seq::empty()
    } else {
        let cell = cells[0];
        let next = if position + cell.2 > u32::MAX {
            u32::MAX as nat
        } else {
            (position + cell.2) as nat
        };
        let shown = position >= offset && next <= end && (cell.2 > 0 || position < end);
        (if shown {
            seq![cell]
        } else {
            Seq::empty()
        }) + cells_in_window(cells.drop_first(), next, offset, end)
    }
}

/// The end of a window of `width` cells from `offset`, stopping at `u32::MAX`
pub open spec fn window_end(offset: u32, width: u32) -> nat {
    if offset + width > u32::MAX {
        u32::MAX as nat
    } else {
        (offset + width) as nat
    }
}

/// Crops a row to the `width` cells from `offset`, keeping only whole cells
pub fn slice_cells_by_width(cells: &[CodeCell], offset: u32, width: u32) -> (visible: Vec<CodeCell>)
    ensures
        cell_models(visible@) == cells_in_window(
            cell_models(cells@),
            0,
            offset as nat,
            window_end(offset, width),
        ),
{
    let ghost models = cell_models(cells@);
    let ghost end_model = window_end(offset, width);
    let end = offset.saturating_add(width);
    let mut visible: Vec<CodeCell> = Vec::new();
    let mut position: u32 = 0;
    let mut index: usize = 0;
    proof {
        assert(models.subrange(0, models.len() as int) =~= models);
        assert(cell_models(visible@) =~= Seq::<CellModel>::empty());
    }
    while index < cells.len()
        invariant_except_break
            cell_models(visible@) + cells_in_window(
                models.subrange(index as int, models.len() as int),
                position as nat,
                offset as nat,
                end_model,
            ) == cells_in_window(models, 0, offset as nat, end_model),
        invariant
            0 <= index <= cells@.len(),
            models == cell_models(cells@),
            end as nat == end_model,
        ensures
            cell_models(visible@) == cells_in_window(models, 0, offset as nat, end_model),
        decreases cells@.len() - index,
    {
        let ghost rest = models.subrange(index as int, models.len() as int);
        let ghost before = cell_models(visible@);
        proof {
            assert(rest[0] == cells@[index as int]@);
            assert(rest.drop_first() =~= models.subrange(index + 1, models.len() as int));
        }
        let cell = &cells[index];
        let next = position.saturating_add(cell.width());
        let shown = position >= offset && next <= end && (cell.width() > 0 || position < end);
        if position < end {
            if shown {
                visible.push(cell.duplicate());
                proof {
                    assert(cell_models(visible@) =~= before.push(cells@[index as int]@));
                }
            }
            proof {
                let piece = if shown {
                    seq![cells@[index as int]@]
                } else {
                    Seq::<CellModel>::empty()
                };
                assert(cell_models(visible@) =~= before + piece);
                assert(cells_in_window(rest, position as nat, offset as nat, end_model) == piece
                    + cells_in_window(rest.drop_first(), next as nat, offset as nat, end_model));
                assert(before + (piece + cells_in_window(
                    rest.drop_first(),
                    next as nat,
                    offset as nat,
                    end_model,
                )) =~= cell_models(visible@) + cells_in_window(
                    rest.drop_first(),
                    next as nat,
                    offset as nat,
                    end_model,
                ));
            }
        } else {
            proof {
                assert(cells_in_window(rest, position as nat, offset as nat, end_model)
                    =~= Seq::<CellModel>::empty());
                assert(cell_models(visible@) + Seq::<CellModel>::empty() =~= cell_models(visible@));
            }
            break;
        }
        position = next;
        index = index + 1;
    }
    proof {
        if index == cells.len() {
            assert(models.subrange(index as int, models.len() as int) =~= Seq::<CellModel>::empty());
        }
    }
    visible
}

// ---------------------------------------------------------------------------
// Copy requests
// ---------------------------------------------------------------------------

/// Source represented by a copy request
#[derive(Clone, Copy, Debug, PartialEq, Eq, Structural, Hash)]
pub enum CodeCopyKind {
    /// The selected complete logical lines
    Selection,
    /// The complete code document
    Document,
}

/// A request that owns the copied semantic source text
#[derive(Debug, PartialEq, Eq)]
pub struct CodeCopyRequest {
    source: String,
    kind: CodeCopyKind,
    text: String,
    lines: Range<usize>,
    bytes: Range<usize>,
}

/// Source, kind, text, line range and byte range of a copy request
pub type CodeCopyModel = (Seq<char>, CodeCopyKind, Seq<char>, (nat, nat), (nat, nat));

impl View for CodeCopyRequest {
    type V = CodeCopyModel;

    closed spec fn view(&self) -> CodeCopyModel {
        (
            self.source@,
            self.kind,
            self.text@,
            (self.lines.start as nat, self.lines.end as nat),
            (self.bytes.start as nat, self.bytes.end as nat),
        )
    }
}

impl CodeCopyRequest {
    /// Returns the identity of the view that made the request
    pub fn source(&self) -> (source: &str)
        ensures
            source@ == self@.0,
    {
        self.source.as_str()
    }

    /// Returns whether selected lines or the complete document were requested
    pub fn kind(&self) -> (kind: CodeCopyKind)
        ensures
            kind == self@.1,
    {
        self.kind
    }

    /// Returns the owned semantic source text
    pub fn text(&self) -> (text: &str)
        ensures
            text@ == self@.2,
    {
        self.text.as_str()
    }

    /// Returns the ordered logical-line range in the document
    pub fn lines(&self) -> (lines: Range<usize>)
        ensures
            (lines.start as nat, lines.end as nat) == self@.3,
    {
        self.lines.start..self.lines.end
    }

    /// Returns the UTF-8 byte range in the document text
    pub fn bytes(&self) -> (bytes: Range<usize>)
        ensures
            (bytes.start as nat, bytes.end as nat) == self@.4,
    {
        self.bytes.start..self.bytes.end
    }
}

/// The lines a copy of `kind` covers
pub open spec fn copy_lines(layout: CodeLayoutModel, state: CodeViewModel, kind: CodeCopyKind) -> (
    nat,
    nat,
) {
    match kind {
        CodeCopyKind::Selection => selected_range(state),
        CodeCopyKind::Document => (0, layout.lines.len()),
    }
}

/// Whether every line of a range exists and may be copied
pub open spec fn lines_copyable(layout: CodeLayoutModel, lines: (nat, nat)) -> bool {
    lines.0 <= lines.1 && lines.1 <= layout.lines.len() && hidden_line_count(
        layout.lines.take(lines.0 as int),
    ) == hidden_line_count(layout.lines.take(lines.1 as int))
}

/// The source text of lines `start..end`: the lines joined with line feeds, with the final line
/// feed of the document when the range reaches its end
pub open spec fn lines_text(layout: CodeLayoutModel, start: nat, end: nat) -> Seq<char> {
    joined_lines(line_texts(layout.lines).subrange(start as int, end as int)) + if start < end
        && end == layout.lines.len() && layout.trailing_newline {
        seq!['\n']
    } else {
        Seq::<char>::empty()
    }
}

/// The byte range of lines `start..end` in the document text: from the start of the first line
/// to the end of the last, past the final line feed when the range reaches the end of a
/// document that has one; an empty range sits at the start of line `start`, or at the end of
/// the text after the last line
pub open spec fn lines_bytes(layout: CodeLayoutModel, start: nat, end: nat) -> (nat, nat) {
    let texts = line_texts(layout.lines);
    let count = layout.lines.len();
    let total = utf8_len(document_text(texts, layout.trailing_newline));
    if start == end {
        let offset = if start < count {
            line_start(texts, start as int)
        } else {
            total
        };
        (offset, offset)
    } else {
        (line_start(texts, start as int), if end == count && layout.trailing_newline {
            total
        } else {
            line_end(texts, end - 1)
        })
    }
}

fn text_for_lines(layout: &CodeLayout, start: usize, end: usize) -> (text: String)
    requires
        start <= end <= layout@.lines.len(),
    ensures
        text@ == lines_text(layout@, start as nat, end as nat),
{
    let document = layout.document();
    let ghost texts = line_texts(layout@.lines);
    let ghost selected = texts.subrange(start as int, end as int);
    let mut output = String::new();
    let mut index = start;
    while index < end
        invariant
            start <= index <= end <= layout@.lines.len(),
            document@ == (layout@.lines, layout@.trailing_newline),
            texts == line_texts(layout@.lines),
            selected == texts.subrange(start as int, end as int),
            output@ == joined_lines(selected.take(index - start)),
        decreases end - index,
    {
        let ghost before = output@;
        if index > start {
            output.push('\n');
        }
        let line = document.line(index).unwrap();
        output.push_str(line.text());
        proof {
            let relative = index - start;
            assert(selected.take(relative + 1).drop_last() =~= selected.take(relative as int));
            assert(selected.take(relative + 1).last() == texts[index as int]);
            if relative == 0 {
                assert(selected.take(1)[0] == texts[index as int]);
                assert(before =~= Seq::<char>::empty());
                assert(output@ =~= texts[index as int]);
            }
        }
        index = index + 1;
    }
    proof {
        assert(selected.take(end - start) =~= selected);
    }
    if start < end && end == document.line_count() && document.has_trailing_newline() {
        output.push('\n');
    } else {
        assert(output@ + Seq::<char>::empty() =~= output@);
    }
    output
}

/// A copy request for the selected lines or the document, absent when a line in the range is
/// hidden from copying
pub fn copy_request(
    layout: &CodeLayout,
    state: CodeViewState,
    kind: CodeCopyKind,
    source: &str,
) -> (request: Option<CodeCopyRequest>)
    ensures
        ({
            let lines = copy_lines(layout@, state@, kind);
            &&& request is Some == lines_copyable(layout@, lines)
            &&& request matches Some(r) ==> r@.0 == source@ && r@.1 == kind && r@.3 == lines
                && r@.2 == lines_text(layout@, lines.0, lines.1) && r@.4 == lines_bytes(
                layout@,
                lines.0,
                lines.1,
            )
        }),
{
    let document = layout.document();
    let lines = match kind {
        CodeCopyKind::Selection => state.selected_lines(),
        CodeCopyKind::Document => 0..document.line_count(),
    };
    if !document.is_range_copyable(lines.start..lines.end) {
        return None;
    }
    let bytes = match document.byte_range_for_lines(lines.start..lines.end) {
        Some(bytes) => bytes,
        None => {
            return None;
        },
    };
    let text = text_for_lines(layout, lines.start, lines.end);
    Some(CodeCopyRequest { source: source.to_owned(), kind, text, lines, bytes })
}

/// Whether copying the selection and copying the document are available
pub fn copy_actions_enabled(layout: &CodeLayout, state: CodeViewState, has_copy_handler: bool) -> (enabled:
    (bool, bool))
    ensures
        enabled == (
            has_copy_handler && lines_copyable(layout@, selected_range(state@)),
            has_copy_handler && lines_copyable(layout@, (0, layout@.lines.len())),
        ),
{
    let document = layout.document();
    let selected = state.selected_lines();
    (
        has_copy_handler && document.is_range_copyable(selected.start..selected.end),
        has_copy_handler && document.is_range_copyable(0..document.line_count()),
    )
}

// ---------------------------------------------------------------------------
// Gutter text
// ---------------------------------------------------------------------------

/// The gutter of one code row: the one-based line number right-aligned before ` | `, or `>`
/// right-aligned before a space on a continuation row; nothing when the gutter is hidden
pub open spec fn code_gutter(gutter_width: nat, line: nat, continuation: bool) -> Seq<char> {
    if gutter_width == 0 {
        Seq::empty()
    } else if continuation {
        right_aligned(seq!['>'], saturating_sub(gutter_width as int, 1)) + seq![' ']
    } else {
        right_aligned(decimal_text(line + 1), saturating_sub(gutter_width as int, 3)) + seq![
            ' ',
            '|',
            ' ',
        ]
    }
}

/// Formats the gutter of one code row of logical line `line`
pub fn code_gutter_text(gutter_width: u32, line: usize, continuation: bool) -> (text: String)
    requires
        line < usize::MAX,
    ensures
        text@ == code_gutter(gutter_width as nat, line as nat, continuation),
{
    let mut text = String::new();
    if gutter_width == 0 {
        assert(text@ =~= Seq::<char>::empty());
        return text;
    }
    if continuation {
        let mut marker = String::new();
        marker.push('>');
        push_right_aligned(&mut text, marker.as_str(), gutter_width.saturating_sub(1) as usize);
        text.push(' ');
    } else {
        let mut number = String::new();
        push_decimal_u64(&mut number, (line as u64) + 1);
        push_right_aligned(&mut text, number.as_str(), gutter_width.saturating_sub(3) as usize);
        text.push(' ');
        text.push('|');
        text.push(' ');
    }
    assert(text@ =~= code_gutter(gutter_width as nat, line as nat, continuation));
    text
}

/// A repeated Control-C while copying the selection is enabled, or a repeated
/// Control-Shift-C while copying the document is enabled: the repeat is consumed so that
/// holding the keys copies once
pub open spec fn spec_is_blocked_copy_repeat(
    event: InputEvent,
    selection_copy_enabled: bool,
    document_copy_enabled: bool,
) -> bool {
    match event {
        InputEvent::Key(key) => key.action == KeyAction::Repeat && key.code == KeyCode::Character(
            'c',
        ) && ((selection_copy_enabled && key.modifiers == (Modifiers {
            shift: false,
            control: true,
            alt: false,
            meta: false,
        })) || (document_copy_enabled && key.modifiers == (Modifiers {
            shift: true,
            control: true,
            alt: false,
            meta: false,
        }))),
        _ => false,
    }
}

/// Reports whether a key repeat of an enabled copy binding is consumed without copying
pub fn is_blocked_copy_repeat(
    event: &InputEvent,
    selection_copy_enabled: bool,
    document_copy_enabled: bool,
) -> (blocked: bool)
    ensures
        blocked == spec_is_blocked_copy_repeat(*event, selection_copy_enabled, document_copy_enabled),
{
    let key = match event {
        InputEvent::Key(key) => key,
        _ => return false,
    };
    if key.action != KeyAction::Repeat {
        return false;
    }
    let control = Modifiers { shift: false, control: true, alt: false, meta: false };
    let control_shift = Modifiers { shift: true, control: true, alt: false, meta: false };
    key.code == KeyCode::Character('c') && (selection_copy_enabled && key.modifiers == control
        || document_copy_enabled && key.modifiers == control_shift)
}

} // verus!
