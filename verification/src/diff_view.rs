use std::ops::Range;

use vstd::prelude::*;

use crate::code::{hidden_line_count, joined_lines};
use crate::code_view::{CodeViewModel, CodeViewState, selected_range};
use crate::diff::{
    DiffDocument, DiffLineKind, DiffLineModel, diff_contents, diff_line_end, diff_line_start,
    diff_total_bytes, spec_marker, unified_lines, usize_clamp,
};
use crate::diff_layout::{DiffLayout, DiffLayoutModel};
use crate::text::{decimal_text, push_decimal_u64, push_right_aligned, push_spaces, right_aligned, spaces};

verus! {

broadcast use vstd::string::group_string_axioms;

/// Application-owned logical-line selection and horizontal diff offset
pub type DiffViewState = CodeViewState;

/// Source represented by a diff copy request
#[derive(Clone, Copy, Debug, PartialEq, Eq, Structural, Hash)]
pub enum DiffCopyKind {
    /// The selected complete logical lines
    Selection,
    /// The complete diff document
    Document,
}

/// A request that owns copied unified diff text
#[derive(Debug, PartialEq, Eq)]
pub struct DiffCopyRequest {
    source: String,
    kind: DiffCopyKind,
    text: String,
    lines: Range<usize>,
    bytes: Range<usize>,
}

/// Source, kind, text, line range and byte range of a diff copy request
pub type DiffCopyModel = (Seq<char>, DiffCopyKind, Seq<char>, (nat, nat), (nat, nat));

impl View for DiffCopyRequest {
    type V = DiffCopyModel;

    closed spec fn view(&self) -> DiffCopyModel {
        (
            self.source@,
            self.kind,
            self.text@,
            (self.lines.start as nat, self.lines.end as nat),
            (self.bytes.start as nat, self.bytes.end as nat),
        )
    }
}

impl DiffCopyRequest {
    /// Returns the identity of the view that made the request
    pub fn source(&self) -> (source: &str)
        ensures
            source@ == self@.0,
    {
        self.source.as_str()
    }

    /// Returns whether selected lines or the complete document were requested
    pub fn kind(&self) -> (kind: DiffCopyKind)
        ensures
            kind == self@.1,
    {
        self.kind
    }

    /// Returns the owned unified text
    pub fn text(&self) -> (text: &str)
        ensures
            text@ == self@.2,
    {
        self.text.as_str()
    }

    /// Returns the ordered logical-line range in the diff
    pub fn lines(&self) -> (lines: Range<usize>)
        ensures
            (lines.start as nat, lines.end as nat) == self@.3,
    {
        self.lines.start..self.lines.end
    }

    /// Returns the UTF-8 byte range in the unified text
    pub fn bytes(&self) -> (bytes: Range<usize>)
        ensures
            (bytes.start as nat, bytes.end as nat) == self@.4,
    {
        self.bytes.start..self.bytes.end
    }
}

/// The lines a diff copy of `kind` covers
pub open spec fn diff_copy_lines(lines: Seq<DiffLineModel>, state: CodeViewModel, kind: DiffCopyKind) -> (
    nat,
    nat,
) {
    match kind {
        DiffCopyKind::Selection => selected_range(state),
        DiffCopyKind::Document => (0, lines.len()),
    }
}

/// Whether every line of a range exists and may be copied
pub open spec fn diff_lines_copyable(lines: Seq<DiffLineModel>, range: (nat, nat)) -> bool {
    range.0 <= range.1 && range.1 <= lines.len() && hidden_line_count(
        diff_contents(lines).take(range.0 as int),
    ) == hidden_line_count(diff_contents(lines).take(range.1 as int))
}

/// The unified text of lines `start..end`, with the final line feed when the range reaches
/// the end of a diff that has one
pub open spec fn diff_lines_text(lines: Seq<DiffLineModel>, trailing: bool, start: nat, end: nat) -> Seq<char> {
    joined_lines(unified_lines(lines.subrange(start as int, end as int))) + if start < end && end
        == lines.len() && trailing {
        seq!['\n']
    } else {
        Seq::<char>::empty()
    }
}

/// The byte range of lines `start..end` in the unified text
pub open spec fn diff_lines_bytes(lines: Seq<DiffLineModel>, trailing: bool, start: nat, end: nat) -> (
    nat,
    nat,
) {
    let total = usize_clamp(diff_total_bytes(lines, trailing));
    if start == end {
        let offset: nat = if start < lines.len() {
            diff_line_start(lines, start as int) as nat
        } else {
            total as nat
        };
        (offset, offset)
    } else {
        (diff_line_start(lines, start as int) as nat, if end == lines.len() && trailing {
            total as nat
        } else {
            diff_line_end(lines, end - 1) as nat
        })
    }
}

/// A copy request for the selected lines or the whole diff, absent when a line in the range
/// is hidden from copying
pub fn diff_copy_request(
    layout: &DiffLayout,
    state: DiffViewState,
    kind: DiffCopyKind,
    source: &str,
) -> (request: Option<DiffCopyRequest>)
    ensures
        ({
            let model = layout@;
            let lines = diff_copy_lines(model.lines, state@, kind);
            &&& request is Some == diff_lines_copyable(model.lines, lines)
            &&& request matches Some(r) ==> r@.0 == source@ && r@.1 == kind && r@.3 == lines
                && r@.2 == diff_lines_text(model.lines, model.trailing_newline, lines.0, lines.1)
                && r@.4 == diff_lines_bytes(model.lines, model.trailing_newline, lines.0, lines.1)
        }),
{
    let document = layout.document();
    let lines = match kind {
        DiffCopyKind::Selection => state.selected_lines(),
        DiffCopyKind::Document => 0..document.line_count(),
    };
    let bytes = match document.byte_range_for_lines(lines.start..lines.end) {
        Some(bytes) => bytes,
        None => {
            return None;
        },
    };
    let text = match document.copy_text_for_lines(lines.start..lines.end) {
        Some(text) => text,
        None => {
            return None;
        },
    };
    Some(DiffCopyRequest { source: source.to_owned(), kind, text, lines, bytes })
}

/// Whether copying the selection and copying the document are available
pub fn diff_copy_actions_enabled(document: &DiffDocument, state: DiffViewState, has_copy_handler: bool) -> (enabled:
    (bool, bool))
    ensures
        enabled == (
            has_copy_handler && diff_lines_copyable(document@.0, selected_range(state@)),
            has_copy_handler && diff_lines_copyable(document@.0, (0, document@.0.len())),
        ),
{
    let selected = state.selected_lines();
    (
        has_copy_handler && document.is_range_copyable(selected.start..selected.end),
        has_copy_handler && document.is_range_copyable(0..document.line_count()),
    )
}

// ---------------------------------------------------------------------------
// Gutter text
// ---------------------------------------------------------------------------

/// A line-number field: the number right-aligned in `width` cells, blank when the row
/// continues a wrapped line or the side has no number
pub open spec fn line_number_text(value: Option<u64>, width: nat, continuation: bool) -> Seq<char> {
    if continuation {
        spaces(width)
    } else {
        match value {
            Some(number) => right_aligned(decimal_text(number as nat), width),
            None => spaces(width),
        }
    }
}

/// Formats one line-number field
pub fn diff_line_number(value: Option<u64>, width: u32, continuation: bool) -> (text: String)
    ensures
        text@ == line_number_text(value, width as nat, continuation),
{
    let mut text = String::new();
    if continuation {
        push_spaces(&mut text, width as usize);
        return text;
    }
    match value {
        Some(number) => {
            let mut digits = String::new();
            push_decimal_u64(&mut digits, number);
            push_right_aligned(&mut text, digits.as_str(), width as usize);
        },
        None => {
            push_spaces(&mut text, width as usize);
        },
    }
    assert(text@ =~= line_number_text(value, width as nat, continuation));
    text
}

/// The gutter of one diff row: the old and new number fields when they are shown, then the
/// line marker (`>` on a continuation row) and a space; nothing when the gutter is hidden
pub open spec fn diff_gutter(
    layout: DiffLayoutModel,
    kind: DiffLineKind,
    old_line: Option<u64>,
    new_line: Option<u64>,
    continuation: bool,
) -> Seq<char> {
    if layout.gutter_width == 0 {
        Seq::empty()
    } else {
        let numbers = if layout.old_number_width > 0 {
            line_number_text(old_line, layout.old_number_width, continuation) + seq![' ']
                + line_number_text(new_line, layout.new_number_width, continuation) + seq![' ']
        } else {
            Seq::empty()
        };
        let marker = if continuation {
            '>'
        } else {
            match spec_marker(kind) {
                Some(character) => character,
                None => ' ',
            }
        };
        numbers + seq![marker, ' ']
    }
}

/// Formats the gutter of one diff row
pub fn diff_gutter_text(
    layout: &DiffLayout,
    kind: DiffLineKind,
    old_line: Option<u64>,
    new_line: Option<u64>,
    continuation: bool,
) -> (text: String)
    ensures
        text@ == diff_gutter(layout@, kind, old_line, new_line, continuation),
{
    let mut text = String::new();
    if layout.gutter_width() == 0 {
        assert(text@ =~= Seq::<char>::empty());
        return text;
    }
    if layout.old_number_width() > 0 {
        let old = diff_line_number(old_line, layout.old_number_width(), continuation);
        let new = diff_line_number(new_line, layout.new_number_width(), continuation);
        text.push_str(old.as_str());
        text.push(' ');
        text.push_str(new.as_str());
        text.push(' ');
    }
    let marker = if continuation {
        '>'
    } else {
        match kind.marker() {
            Some(character) => character,
            None => ' ',
        }
    };
    text.push(marker);
    text.push(' ');
    assert(text@ =~= diff_gutter(layout@, kind, old_line, new_line, continuation));
    text
}

} // verus!
