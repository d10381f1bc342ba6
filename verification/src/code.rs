use std::ops::Range;

use vstd::prelude::*;
use vstd::std_specs::iter::IteratorSpec;

use crate::text::{lemma_utf8_len_concat, str_byte_len, utf8_len};

verus! {

broadcast use vstd::string::group_string_axioms;

/// Default maximum logical line count in one code document
pub const DEFAULT_CODE_DOCUMENT_MAX_LINES: u64 = 100_000;

/// Default maximum styled span count in one code document
pub const DEFAULT_CODE_DOCUMENT_MAX_SPANS: u64 = 1_000_000;

/// Default maximum semantic UTF-8 byte count in one code document
pub const DEFAULT_CODE_DOCUMENT_MAX_TEXT_BYTES: u64 = 33_554_432;

/// Default maximum visual row count in one terminal code layout
pub const DEFAULT_CODE_LAYOUT_MAX_VISUAL_ROWS: u64 = 1_000_000;

/// Default maximum expanded display byte count in one terminal code layout
pub const DEFAULT_CODE_LAYOUT_MAX_DISPLAY_BYTES: u64 = 67_108_864;

/// Default terminal viewport width of a code layout
pub const DEFAULT_CODE_LAYOUT_VIEWPORT_WIDTH: u32 = 80;

/// Default tab stop width of a code layout
pub const DEFAULT_CODE_LAYOUT_TAB_WIDTH: u8 = 4;

/// `default` in place of zero
pub open spec fn spec_default_u64(value: u64, default: u64) -> u64 {
    if value == 0 {
        default
    } else {
        value
    }
}

/// Replaces zero with a default
pub fn default_u64(value: u64, default: u64) -> (result: u64)
    ensures
        result == spec_default_u64(value, default),
{
    if value == 0 {
        default
    } else {
        value
    }
}

/// Addition that stops at `u64::MAX`
pub open spec fn saturating_count(value: int) -> int {
    if value > u64::MAX {
        u64::MAX as int
    } else {
        value
    }
}

// ---------------------------------------------------------------------------
// Lines
// ---------------------------------------------------------------------------

/// Stable category of an invalid styled code line
#[derive(Clone, Copy, Debug, PartialEq, Eq, Structural, Hash)]
pub enum InvalidCodeLineKind {
    /// A CR or LF was supplied inside a logical line
    LineBreak,
    /// A style boundary split one extended grapheme cluster
    GraphemeBoundary,
}

impl InvalidCodeLineKind {
    /// Returns the stable language-independent error identifier
    pub fn as_str(self) -> (name: &'static str)
        ensures
            name@ == (match self {
                InvalidCodeLineKind::LineBreak => "line-break"@,
                InvalidCodeLineKind::GraphemeBoundary => "grapheme-boundary"@,
            }),
    {
        match self {
            InvalidCodeLineKind::LineBreak => "line-break",
            InvalidCodeLineKind::GraphemeBoundary => "grapheme-boundary",
        }
    }
}

/// Structured invalid-line error
#[derive(Clone, Copy, Debug, PartialEq, Eq, Structural)]
pub struct InvalidCodeLine {
    kind: InvalidCodeLineKind,
    span_index: usize,
    byte_offset: usize,
}

impl View for InvalidCodeLine {
    type V = (InvalidCodeLineKind, nat, nat);

    closed spec fn view(&self) -> (InvalidCodeLineKind, nat, nat) {
        (self.kind, self.span_index as nat, self.byte_offset as nat)
    }
}

impl InvalidCodeLine {
    /// Returns the stable error category
    pub fn kind(&self) -> (kind: InvalidCodeLineKind)
        ensures
            kind == self@.0,
    {
        self.kind
    }

    /// Returns the zero-based offending span index
    pub fn span_index(&self) -> (index: usize)
        ensures
            index == self@.1,
    {
        self.span_index
    }

    /// Returns the UTF-8 byte offset in the complete logical line
    pub fn byte_offset(&self) -> (offset: usize)
        ensures
            offset == self@.2,
    {
        self.byte_offset
    }
}

/// One run of line text together with whether its style hides it from copying
#[derive(Debug, PartialEq, Eq)]
pub struct CodeSpan {
    text: String,
    hidden: bool,
}

impl View for CodeSpan {
    type V = (Seq<char>, bool);

    closed spec fn view(&self) -> (Seq<char>, bool) {
        (self.text@, self.hidden)
    }
}

impl CodeSpan {
    /// Creates one run of text, hidden from copying when `hidden` holds
    pub fn new(text: &str, hidden: bool) -> (span: Self)
        ensures
            span@ == (text@, hidden),
    {
        CodeSpan { text: text.to_owned(), hidden }
    }

    /// Returns the run text
    pub fn text(&self) -> (text: &str)
        ensures
            text@ == self@.0,
    {
        self.text.as_str()
    }

    /// Reports whether the run's style hides it from copying
    pub fn is_hidden(&self) -> (hidden: bool)
        ensures
            hidden == self@.1,
    {
        self.hidden
    }

    /// Returns an equal, separately owned run
    pub fn duplicate(&self) -> (copy: Self)
        ensures
            copy@ == self@,
    {
        CodeSpan { text: self.text.clone(), hidden: self.hidden }
    }
}

impl Clone for CodeSpan {
    fn clone(&self) -> (copy: Self)
        ensures
            copy@ == self@,
    {
        self.duplicate()
    }
}

/// Runs of one line as plain values
pub type SpansModel = Seq<(Seq<char>, bool)>;

/// The text of runs, concatenated in order
pub open spec fn spans_text(spans: SpansModel) -> Seq<char>
    decreases spans.len(),
{
    if spans.len() == 0 {
        Seq::empty()
    } else {
        spans_text(spans.drop_last()) + spans.last().0
    }
}

/// No run hides its text
pub open spec fn spans_copyable(spans: SpansModel) -> bool {
    forall|index: int| 0 <= index < spans.len() ==> !(#[trigger] spans[index]).1
}

/// A line terminator character
pub open spec fn is_line_break(character: char) -> bool {
    character == '\r' || character == '\n'
}

/// `index` is the first line terminator of `chars`
pub open spec fn is_first_line_break(chars: Seq<char>, index: int) -> bool {
    &&& 0 <= index < chars.len()
    &&& is_line_break(chars[index])
    &&& forall|k: int| 0 <= k < index ==> !is_line_break(#[trigger] chars[k])
}

/// Some character of `chars` terminates a line
pub open spec fn has_line_break(chars: Seq<char>) -> bool {
    exists|index: int| 0 <= index < chars.len() && is_line_break(#[trigger] chars[index])
}

/// `index` is the first run holding a line terminator
pub open spec fn is_first_span_with_break(spans: SpansModel, index: int) -> bool {
    &&& 0 <= index < spans.len()
    &&& has_line_break(spans[index].0)
    &&& forall|k: int| 0 <= k < index ==> !has_line_break(#[trigger] spans[k].0)
}

/// The byte offset of the end of run `index` in the concatenated line
pub open spec fn span_end_offset(spans: SpansModel, index: int) -> nat {
    utf8_len(spans_text(spans.take(index + 1)))
}

/// The end of run `index` is a style boundary that is not a grapheme boundary
pub open spec fn is_bad_boundary(spans: SpansModel, boundaries: Seq<usize>, index: int) -> bool {
    &&& 0 <= index < spans.len() - 1
    &&& !boundaries.contains(span_end_offset(spans, index) as usize)
}

/// `index` is the first style boundary that is not a grapheme boundary
pub open spec fn is_first_bad_boundary(spans: SpansModel, boundaries: Seq<usize>, index: int) -> bool {
    &&& is_bad_boundary(spans, boundaries, index)
    &&& forall|k: int| 0 <= k < index ==> !is_bad_boundary(spans, boundaries, k)
}

/// The error a styled line is rejected with, if any
pub open spec fn styled_line_error(spans: SpansModel, boundaries: Seq<usize>, error: (
    InvalidCodeLineKind,
    nat,
    nat,
)) -> bool {
    if exists|index: int| is_first_span_with_break(spans, index) {
        exists|index: int, position: int|
            is_first_span_with_break(spans, index) && is_first_line_break(spans[index].0, position)
                && error == (
                InvalidCodeLineKind::LineBreak,
                index as nat,
                utf8_len(spans_text(spans.take(index))) + utf8_len(spans[index].0.take(position)),
            )
    } else {
        exists|index: int|
            is_first_bad_boundary(spans, boundaries, index) && error == (
                InvalidCodeLineKind::GraphemeBoundary,
                index as nat,
                span_end_offset(spans, index),
            )
    }
}

/// The runs are free of line terminators and every style boundary is a grapheme boundary
pub open spec fn is_valid_line(spans: SpansModel, boundaries: Seq<usize>) -> bool {
    &&& forall|index: int| 0 <= index < spans.len() ==> !has_line_break(#[trigger] spans[index].0)
    &&& forall|index: int| !is_bad_boundary(spans, boundaries, index)
}

/// One immutable logical line made from ordered styled runs
#[derive(Debug, PartialEq, Eq)]
pub struct CodeLine {
    spans: Vec<CodeSpan>,
    text: String,
    copyable: bool,
}

impl View for CodeLine {
    type V = SpansModel;

    closed spec fn view(&self) -> SpansModel {
        self.spans@.map_values(|span: CodeSpan| span@)
    }
}

fn find_line_break(text: &str) -> (found: Option<usize>)
    ensures
        found matches Some(offset) ==> exists|position: int|
            is_first_line_break(text@, position) && offset == utf8_len(text@.take(position)),
        found is None ==> !has_line_break(text@),
{
    let ghost chars = text@;
    let length = str_byte_len(text);
    let mut offset: usize = 0;
    let mut index: usize = 0;
    for character in iter: text.chars()
        invariant
            iter.seq() == chars,
            chars == text@,
            index == iter.index(),
            0 <= index <= chars.len(),
            offset == utf8_len(chars.take(index as int)),
            utf8_len(chars) <= usize::MAX,
            forall|k: int| 0 <= k < index ==> !is_line_break(#[trigger] chars[k]),
    {
        proof {
            assert(chars.take(index + 1).drop_last() =~= chars.take(index as int));
            crate::text::lemma_utf8_len_prefix(chars, index + 1);
        }
        if character == '\r' || character == '\n' {
            assert(is_first_line_break(chars, index as int));
            return Some(offset);
        }
        offset = offset + crate::text::char_utf8_width(character);
        index = index + 1;
    }
    None
}

fn contains_boundary(boundaries: &[usize], offset: usize) -> (found: bool)
    ensures
        found == boundaries@.contains(offset),
{
    let mut index: usize = 0;
    while index < boundaries.len()
        invariant
            0 <= index <= boundaries@.len(),
            forall|k: int| 0 <= k < index ==> boundaries@[k] != offset,
        decreases boundaries@.len() - index,
    {
        if boundaries[index] == offset {
            assert(boundaries@[index as int] == offset);
            return true;
        }
        index = index + 1;
    }
    false
}

impl CodeLine {
    #[verifier::type_invariant]
    spec fn cached_text(self) -> bool {
        &&& self.text@ == spans_text(self@)
        &&& self.copyable == spans_copyable(self@)
    }

    /// The semantic line text
    pub open spec fn spec_text(self) -> Seq<char> {
        spans_text(self@)
    }

    /// Creates one default-style logical line, rejecting CR and LF
    pub fn plain(text: &str) -> (result: Result<Self, InvalidCodeLine>)
        ensures
            result matches Ok(line) ==> line@ == seq![(text@, false)] && !has_line_break(text@),
            result matches Err(error) ==> styled_line_error(seq![(text@, false)], Seq::empty(), error@),
            has_line_break(text@) == result is Err,
    {
        let mut spans: Vec<CodeSpan> = Vec::new();
        spans.push(CodeSpan::new(text, false));
        let boundaries: Vec<usize> = Vec::new();
        let result = Self::styled(spans, boundaries.as_slice());
        proof {
            let model = seq![(text@, false)];
            assert(spans@.map_values(|span: CodeSpan| span@) =~= model);
            assert(forall|index: int| !is_bad_boundary(model, boundaries@, index));
            if has_line_break(text@) {
                assert(!is_valid_line(model, boundaries@)) by {
                    assert(model[0].0 == text@);
                }
            }
        }
        result
    }

    /// Creates one logical line from ordered styled runs
    ///
    /// CR and LF are rejected. Every run boundary must also appear in
    /// `grapheme_boundaries`, the extended grapheme boundaries of the
    /// concatenated text, in increasing order and within the text, so one terminal cell never
    /// carries conflicting styles
    pub fn styled(spans: Vec<CodeSpan>, grapheme_boundaries: &[usize]) -> (result: Result<
        Self,
        InvalidCodeLine,
    >)
        requires
            forall|first: int, second: int|
                0 <= first < second < grapheme_boundaries@.len() ==> grapheme_boundaries@[first]
                    < grapheme_boundaries@[second],
            forall|index: int|
                0 <= index < grapheme_boundaries@.len() ==> grapheme_boundaries@[index] <= utf8_len(
                    spans_text(spans@.map_values(|span: CodeSpan| span@)),
                ),
        ensures
            result matches Ok(line) ==> line@ == spans@.map_values(|span: CodeSpan| span@),
            result matches Err(error) ==> styled_line_error(
                spans@.map_values(|span: CodeSpan| span@),
                grapheme_boundaries@,
                error@,
            ),
            is_valid_line(spans@.map_values(|span: CodeSpan| span@), grapheme_boundaries@)
                == result is Ok,
    {
        let ghost model = spans@.map_values(|span: CodeSpan| span@);
        let mut text = String::new();
        let mut copyable = true;
        let mut index: usize = 0;
        while index < spans.len()
            invariant
                0 <= index <= spans@.len(),
                model == spans@.map_values(|span: CodeSpan| span@),
                text@ == spans_text(model.take(index as int)),
                copyable == spans_copyable(model.take(index as int)),
                forall|k: int| 0 <= k < index ==> !has_line_break(#[trigger] model[k].0),
            decreases spans@.len() - index,
        {
            proof {
                assert(model.take(index + 1).drop_last() =~= model.take(index as int));
            }
            let span_text = spans[index].text.as_str();
            assert(span_text@ == model[index as int].0);
            let current = str_byte_len(text.as_str());
            match find_line_break(span_text) {
                Some(relative) => {
                    proof {
                        assert(is_first_span_with_break(model, index as int));
                    }
                    let ghost position = choose|position: int|
                        is_first_line_break(span_text@, position) && relative == utf8_len(
                            span_text@.take(position),
                        );
                    let ghost before = text@;
                    text.push_str(span_text);
                    let total = str_byte_len(text.as_str());
                    proof {
                        crate::text::lemma_utf8_len_prefix(span_text@, position);
                        lemma_utf8_len_concat(before, span_text@);
                    }
                    return Err(
                        InvalidCodeLine {
                            kind: InvalidCodeLineKind::LineBreak,
                            span_index: index,
                            byte_offset: current + relative,
                        },
                    );
                },
                None => {},
            }
            proof {
                let previous = model.take(index as int);
                let next = model.take(index + 1);
                assert(model[index as int].1 == spans@[index as int].hidden);
                assert(forall|k: int| 0 <= k < index ==> next[k] == previous[k]);
                assert(next[index as int] == model[index as int]);
                if spans_copyable(previous) && !model[index as int].1 {
                    assert forall|k: int| 0 <= k < next.len() implies !(#[trigger] next[k]).1 by {
                        if k < index {
                            assert(next[k] == previous[k]);
                        }
                    }
                }
            }
            if spans[index].hidden {
                copyable = false;
            }
            text.push_str(span_text);
            index = index + 1;
        }
        proof {
            assert(model.take(model.len() as int) =~= model);
            assert(!exists|index: int| is_first_span_with_break(model, index));
        }
        let total = str_byte_len(text.as_str());
        let mut boundary_index: usize = 0;
        let mut offset: usize = 0;
        while spans.len() > 0 && boundary_index < spans.len() - 1
            invariant
                0 <= boundary_index <= spans@.len(),
                total == utf8_len(spans_text(model)),
                forall|k: int| 0 <= k < model.len() ==> !has_line_break(#[trigger] model[k].0),
                model == spans@.map_values(|span: CodeSpan| span@),
                text@ == spans_text(model),
                boundary_index > 0 ==> offset == span_end_offset(model, boundary_index - 1),
                forall|k: int| 0 <= k < boundary_index ==> !is_bad_boundary(
                    model,
                    grapheme_boundaries@,
                    k,
                ),
            decreases spans@.len() - boundary_index,
        {
            proof {
                lemma_span_end_offset_bound(model, boundary_index as int);
                lemma_spans_text_prefix_len(model, boundary_index + 1);
            }
            let end = if boundary_index == 0 {
                str_byte_len(spans[0].text.as_str())
            } else {
                offset + str_byte_len(spans[boundary_index].text.as_str())
            };
            proof {
                let step = model.take(boundary_index + 1);
                assert(step.drop_last() =~= model.take(boundary_index as int));
                lemma_utf8_len_concat(spans_text(step.drop_last()), step.last().0);
                if boundary_index == 0 {
                    assert(model.take(0) =~= Seq::<(Seq<char>, bool)>::empty());
                }
            }
            if !contains_boundary(grapheme_boundaries, end) {
                assert(is_first_bad_boundary(model, grapheme_boundaries@, boundary_index as int));
                return Err(
                    InvalidCodeLine {
                        kind: InvalidCodeLineKind::GraphemeBoundary,
                        span_index: boundary_index,
                        byte_offset: end,
                    },
                );
            }
            offset = end;
            boundary_index = boundary_index + 1;
        }
        assert forall|index: int| !is_bad_boundary(model, grapheme_boundaries@, index) by {
            if 0 <= index < model.len() - 1 {
                assert(index < boundary_index);
            }
        }
        Ok(CodeLine { spans, text, copyable })
    }

    /// Returns the semantic UTF-8 line text without a line terminator
    pub fn text(&self) -> (text: &str)
        ensures
            text@ == self.spec_text(),
    {
        proof {
            use_type_invariant(self);
        }
        self.text.as_str()
    }

    /// Returns the immutable styled runs in source order
    pub fn spans(&self) -> (spans: &[CodeSpan])
        ensures
            spans@.map_values(|span: CodeSpan| span@) == self@,
    {
        self.spans.as_slice()
    }

    /// Reports whether copy callbacks may expose this line
    pub fn is_copyable(&self) -> (copyable: bool)
        ensures
            copyable == spans_copyable(self@),
    {
        proof {
            use_type_invariant(self);
        }
        self.copyable
    }

    /// Returns an equal, separately owned line
    pub fn duplicate(&self) -> (copy: Self)
        ensures
            copy@ == self@,
    {
        proof {
            use_type_invariant(self);
        }
        let mut spans: Vec<CodeSpan> = Vec::new();
        let mut index: usize = 0;
        while index < self.spans.len()
            invariant
                0 <= index <= self.spans@.len(),
                spans@.len() == index,
                forall|k: int| 0 <= k < index ==> (#[trigger] spans@[k])@ == self.spans@[k]@,
            decreases self.spans@.len() - index,
        {
            spans.push(self.spans[index].duplicate());
            index = index + 1;
        }
        assert(spans@.map_values(|span: CodeSpan| span@) =~= self@);
        CodeLine { spans, text: self.text.clone(), copyable: self.copyable }
    }
}

/// The text of a prefix of the runs is no longer than the text of all runs
proof fn lemma_spans_text_prefix_len(spans: SpansModel, count: int)
    requires
        0 <= count <= spans.len(),
    ensures
        utf8_len(spans_text(spans.take(count))) <= utf8_len(spans_text(spans)),
    decreases spans.len() - count,
{
    if count == spans.len() {
        assert(spans.take(count) =~= spans);
    } else {
        lemma_spans_text_len_bound(spans, count);
        lemma_spans_text_prefix_len(spans, count + 1);
    }
}

/// The text of the runs before `index` and of run `index` make up the longer prefix
proof fn lemma_spans_text_len_bound(spans: SpansModel, index: int)
    requires
        0 <= index < spans.len(),
    ensures
        utf8_len(spans_text(spans.take(index))) + utf8_len(spans[index].0) == utf8_len(
            spans_text(spans.take(index + 1)),
        ),
{
    assert(spans.take(index + 1).drop_last() =~= spans.take(index));
    lemma_utf8_len_concat(spans_text(spans.take(index)), spans[index].0);
}

/// A boundary offset is the previous boundary plus the run length
proof fn lemma_span_end_offset_bound(spans: SpansModel, index: int)
    requires
        0 <= index < spans.len(),
    ensures
        span_end_offset(spans, index) == (if index == 0 {
            0
        } else {
            span_end_offset(spans, index - 1) as int
        }) + utf8_len(spans[index].0),
{
    lemma_spans_text_len_bound(spans, index);
    if index == 0 {
        assert(spans.take(0) =~= Seq::<(Seq<char>, bool)>::empty());
    }
}

impl Clone for CodeLine {
    fn clone(&self) -> (copy: Self)
        ensures
            copy@ == self@,
    {
        self.duplicate()
    }
}

// ---------------------------------------------------------------------------
// Documents
// ---------------------------------------------------------------------------

/// Resource limits applied while constructing a code document
#[derive(Clone, Copy, Debug, PartialEq, Eq, Structural, Hash)]
pub struct CodeDocumentLimits {
    max_lines: u64,
    max_spans: u64,
    max_text_bytes: u64,
}

impl View for CodeDocumentLimits {
    type V = (u64, u64, u64);

    closed spec fn view(&self) -> (u64, u64, u64) {
        (self.max_lines, self.max_spans, self.max_text_bytes)
    }
}

impl CodeDocumentLimits {
    /// Returns the maximum logical line count
    pub fn max_lines(self) -> (value: u64)
        ensures
            value == self@.0,
    {
        self.max_lines
    }

    /// Returns these limits with a maximum logical line count, zero restoring the default
    pub fn with_max_lines(self, value: u64) -> (limits: Self)
        ensures
            limits@ == (spec_default_u64(value, DEFAULT_CODE_DOCUMENT_MAX_LINES), self@.1, self@.2),
    {
        CodeDocumentLimits {
            max_lines: default_u64(value, DEFAULT_CODE_DOCUMENT_MAX_LINES),
            ..self
        }
    }

    /// Returns the maximum styled span count
    pub fn max_spans(self) -> (value: u64)
        ensures
            value == self@.1,
    {
        self.max_spans
    }

    /// Returns these limits with a maximum styled span count, zero restoring the default
    pub fn with_max_spans(self, value: u64) -> (limits: Self)
        ensures
            limits@ == (self@.0, spec_default_u64(value, DEFAULT_CODE_DOCUMENT_MAX_SPANS), self@.2),
    {
        CodeDocumentLimits {
            max_spans: default_u64(value, DEFAULT_CODE_DOCUMENT_MAX_SPANS),
            ..self
        }
    }

    /// Returns the maximum semantic UTF-8 byte count
    pub fn max_text_bytes(self) -> (value: u64)
        ensures
            value == self@.2,
    {
        self.max_text_bytes
    }

    /// Returns these limits with a maximum UTF-8 byte count, zero restoring the default
    pub fn with_max_text_bytes(self, value: u64) -> (limits: Self)
        ensures
            limits@ == (
                self@.0,
                self@.1,
                spec_default_u64(value, DEFAULT_CODE_DOCUMENT_MAX_TEXT_BYTES),
            ),
    {
        CodeDocumentLimits {
            max_text_bytes: default_u64(value, DEFAULT_CODE_DOCUMENT_MAX_TEXT_BYTES),
            ..self
        }
    }
}

impl Default for CodeDocumentLimits {
    fn default() -> (limits: Self)
        ensures
            limits@ == (
                DEFAULT_CODE_DOCUMENT_MAX_LINES,
                DEFAULT_CODE_DOCUMENT_MAX_SPANS,
                DEFAULT_CODE_DOCUMENT_MAX_TEXT_BYTES,
            ),
    {
        CodeDocumentLimits {
            max_lines: DEFAULT_CODE_DOCUMENT_MAX_LINES,
            max_spans: DEFAULT_CODE_DOCUMENT_MAX_SPANS,
            max_text_bytes: DEFAULT_CODE_DOCUMENT_MAX_TEXT_BYTES,
        }
    }
}

/// Stable category of a code-document resource failure
#[derive(Clone, Copy, Debug, PartialEq, Eq, Structural, Hash)]
pub enum CodeDocumentErrorKind {
    /// The logical line limit was exceeded
    LineLimit,
    /// The styled span limit was exceeded
    SpanLimit,
    /// The semantic UTF-8 byte limit was exceeded
    TextByteLimit,
}

impl CodeDocumentErrorKind {
    /// Returns the stable language-independent error identifier
    pub fn as_str(self) -> (name: &'static str)
        ensures
            name@ == (match self {
                CodeDocumentErrorKind::LineLimit => "line-limit"@,
                CodeDocumentErrorKind::SpanLimit => "span-limit"@,
                CodeDocumentErrorKind::TextByteLimit => "text-byte-limit"@,
            }),
    {
        match self {
            CodeDocumentErrorKind::LineLimit => "line-limit",
            CodeDocumentErrorKind::SpanLimit => "span-limit",
            CodeDocumentErrorKind::TextByteLimit => "text-byte-limit",
        }
    }
}

/// Structured code-document resource failure
#[derive(Clone, Copy, Debug, PartialEq, Eq, Structural)]
pub struct CodeDocumentError {
    kind: CodeDocumentErrorKind,
    limit: u64,
    observed: u64,
}

/// Category, configured limit, and first observed value beyond it
pub type CodeDocumentErrorModel = (CodeDocumentErrorKind, u64, u64);

impl View for CodeDocumentError {
    type V = CodeDocumentErrorModel;

    closed spec fn view(&self) -> CodeDocumentErrorModel {
        (self.kind, self.limit, self.observed)
    }
}

impl CodeDocumentError {
    /// Returns the stable error category
    pub fn kind(&self) -> (kind: CodeDocumentErrorKind)
        ensures
            kind == self@.0,
    {
        self.kind
    }

    /// Returns the configured limit
    pub fn limit(&self) -> (limit: u64)
        ensures
            limit == self@.1,
    {
        self.limit
    }

    /// Returns the first observed value beyond the configured limit
    pub fn observed(&self) -> (observed: u64)
        ensures
            observed == self@.2,
    {
        self.observed
    }
}

/// Fails with `kind` when `observed` exceeds `limit`
pub fn check_limit(kind: CodeDocumentErrorKind, limit: u64, observed: u64) -> (result: Result<
    (),
    CodeDocumentError,
>)
    ensures
        observed > limit ==> (result matches Err(error) && error@ == (kind, limit, observed)),
        observed <= limit ==> result is Ok,
{
    if observed > limit {
        Err(CodeDocumentError { kind, limit, observed })
    } else {
        Ok(())
    }
}

/// The semantic text of each line
pub open spec fn line_texts(lines: Seq<SpansModel>) -> Seq<Seq<char>> {
    lines.map_values(|line: SpansModel| spans_text(line))
}

/// Lines joined with LF separators
pub open spec fn joined_lines(texts: Seq<Seq<char>>) -> Seq<char>
    decreases texts.len(),
{
    if texts.len() == 0 {
        Seq::empty()
    } else if texts.len() == 1 {
        texts[0]
    } else {
        joined_lines(texts.drop_last()) + seq!['\n'] + texts.last()
    }
}

/// The complete source: joined lines, with a final LF when requested and there is a line
pub open spec fn document_text(texts: Seq<Seq<char>>, trailing_newline: bool) -> Seq<char> {
    if trailing_newline && texts.len() > 0 {
        joined_lines(texts) + seq!['\n']
    } else {
        joined_lines(texts)
    }
}

/// The byte offset where line `index` starts in the joined source
pub open spec fn line_start(texts: Seq<Seq<char>>, index: int) -> nat {
    if index <= 0 {
        0
    } else {
        utf8_len(joined_lines(texts.take(index))) + 1
    }
}

/// The byte offset where line `index` ends in the joined source
pub open spec fn line_end(texts: Seq<Seq<char>>, index: int) -> nat {
    line_start(texts, index) + utf8_len(texts[index])
}

/// The number of lines that hide some of their text
pub open spec fn hidden_line_count(lines: Seq<SpansModel>) -> nat
    decreases lines.len(),
{
    if lines.len() == 0 {
        0
    } else {
        hidden_line_count(lines.drop_last()) + if spans_copyable(lines.last()) {
            0nat
        } else {
            1nat
        }
    }
}

/// Runs the per-line limit checks in order, giving span and byte counts or the first failure
pub open spec fn code_lines_check(lines: Seq<SpansModel>, limits: (u64, u64, u64)) -> Result<
    (int, int),
    CodeDocumentErrorModel,
>
    decreases lines.len(),
{
    if lines.len() == 0 {
        Ok((0, 0))
    } else {
        match code_lines_check(lines.drop_last(), limits) {
            Err(error) => Err(error),
            Ok(counts) => {
                let count = saturating_count(lines.len() as int);
                let spans = saturating_count(counts.0 + lines.last().len());
                let separated = if lines.len() > 1 {
                    saturating_count(counts.1 + 1)
                } else {
                    counts.1
                };
                let bytes = saturating_count(separated + utf8_len(spans_text(lines.last())));
                if count > limits.0 {
                    Err((CodeDocumentErrorKind::LineLimit, limits.0, count as u64))
                } else if spans > limits.1 {
                    Err((CodeDocumentErrorKind::SpanLimit, limits.1, spans as u64))
                } else if lines.len() > 1 && separated > limits.2 {
                    Err((CodeDocumentErrorKind::TextByteLimit, limits.2, separated as u64))
                } else if bytes > limits.2 {
                    Err((CodeDocumentErrorKind::TextByteLimit, limits.2, bytes as u64))
                } else {
                    Ok((spans, bytes))
                }
            },
        }
    }
}


/// The number of runs over all lines
pub open spec fn total_spans(lines: Seq<SpansModel>) -> int
    decreases lines.len(),
{
    if lines.len() == 0 {
        0
    } else {
        total_spans(lines.drop_last()) + lines.last().len()
    }
}

/// Saturating before adding a non-negative amount saturates the same total
proof fn lemma_saturating_add(value: int, amount: int)
    requires
        amount >= 0,
    ensures
        saturating_count(saturating_count(value) + amount) == saturating_count(value + amount),
{
}

/// The line checks pass exactly when the saturated line, run and joined byte counts are
/// within their limits, and they give the saturated run and byte counts
pub proof fn lemma_code_lines_check_totals(lines: Seq<SpansModel>, limits: (u64, u64, u64))
    ensures
        ({
            let spans = saturating_count(total_spans(lines));
            let bytes = saturating_count(utf8_len(joined_lines(line_texts(lines))) as int);
            &&& code_lines_check(lines, limits) is Ok <==> (saturating_count(lines.len() as int)
                <= limits.0 && spans <= limits.1 && bytes <= limits.2)
            &&& code_lines_check(lines, limits) is Ok ==> code_lines_check(lines, limits) == Ok::<
                (int, int),
                CodeDocumentErrorModel,
            >((spans, bytes))
        }),
    decreases lines.len(),
{
    if lines.len() > 0 {
        let front = lines.drop_last();
        lemma_code_lines_check_totals(front, limits);
        let texts = line_texts(lines);
        assert(line_texts(front) =~= texts.drop_last());
        assert(texts.last() == spans_text(lines.last()));
        let front_bytes = utf8_len(joined_lines(texts.drop_last())) as int;
        let last_bytes = utf8_len(texts.last()) as int;
        lemma_saturating_add(total_spans(front), lines.last().len() as int);
        if lines.len() > 1 {
            lemma_newline_len();
            lemma_utf8_len_concat(joined_lines(texts.drop_last()), seq!['\n']);
            lemma_utf8_len_concat(joined_lines(texts.drop_last()) + seq!['\n'], texts.last());
            assert(utf8_len(joined_lines(texts)) == front_bytes + 1 + last_bytes);
            lemma_saturating_add(front_bytes, 1);
            lemma_saturating_add(front_bytes + 1, last_bytes);
        } else {
            assert(texts.drop_last() =~= Seq::<Seq<char>>::empty());
            assert(utf8_len(Seq::<char>::empty()) == 0);
            assert(joined_lines(texts) == texts[0]);
        }
    }
}

/// All limit checks of a document, giving the first failure if any
pub open spec fn code_document_check(
    lines: Seq<SpansModel>,
    trailing_newline: bool,
    limits: (u64, u64, u64),
) -> Result<(int, int), CodeDocumentErrorModel> {
    match code_lines_check(lines, limits) {
        Err(error) => Err(error),
        Ok(counts) => if trailing_newline && lines.len() > 0 {
            let bytes = saturating_count(counts.1 + 1);
            if bytes > limits.2 {
                Err((CodeDocumentErrorKind::TextByteLimit, limits.2, bytes as u64))
            } else {
                Ok((counts.0, bytes))
            }
        } else {
            Ok(counts)
        },
    }
}


/// The line models of code lines
pub open spec fn code_line_models(lines: Seq<CodeLine>) -> Seq<SpansModel> {
    lines.map_values(|line: CodeLine| line@)
}

/// How many of `lines` a document constructor pulls: up to and including the first line over
/// a limit, or all of them
pub open spec fn code_lines_read(lines: Seq<SpansModel>, limits: (u64, u64, u64)) -> nat
    decreases lines.len(),
{
    if lines.len() == 0 {
        0
    } else if code_lines_check(lines.drop_last(), limits) is Err {
        code_lines_read(lines.drop_last(), limits)
    } else {
        lines.len()
    }
}

/// When the first `count` lines pass and one more does not, the constructor pulls that one
/// more
proof fn lemma_code_lines_read_at_failure(lines: Seq<SpansModel>, count: int, limits: (u64, u64, u64))
    requires
        0 <= count < lines.len(),
        code_lines_check(lines.take(count), limits) is Ok,
        code_lines_check(lines.take(count + 1), limits) is Err,
    ensures
        code_lines_read(lines, limits) == count + 1,
        code_lines_check(lines, limits) == code_lines_check(lines.take(count + 1), limits),
    decreases lines.len(),
{
    lemma_lines_error_extends(lines, count + 1, limits);
    if count + 1 == lines.len() {
        assert(lines.take(count + 1) =~= lines);
        assert(lines.drop_last() =~= lines.take(count));
    } else {
        let front = lines.drop_last();
        assert(front.take(count) =~= lines.take(count));
        assert(front.take(count + 1) =~= lines.take(count + 1));
        lemma_lines_error_extends(front, count + 1, limits);
        lemma_code_lines_read_at_failure(front, count, limits);
    }
}

/// When every line passes, the constructor pulls them all
proof fn lemma_code_lines_read_all(lines: Seq<SpansModel>, limits: (u64, u64, u64))
    requires
        code_lines_check(lines, limits) is Ok,
    ensures
        code_lines_read(lines, limits) == lines.len(),
{
}

/// Pulls lines from `source` while every limit holds, stopping after the first line over a
/// limit or when the source ends
fn pull_code_lines<I: Iterator<Item = CodeLine>>(source: &mut I, limits: CodeDocumentLimits) -> (result:
    Result<Vec<CodeLine>, CodeDocumentError>)
    requires
        limits@.0 < usize::MAX,
    ensures
        (*old(source)).obeys_prophetic_iter_laws() ==> ({
            let lines = code_line_models((*old(source)).remaining());
            let read = code_lines_read(lines, limits@);
            &&& (*final(source)).remaining() == (*old(source)).remaining().skip(read as int)
            &&& read <= limits@.0 + 1
            &&& match code_lines_check(lines, limits@) {
                Ok(_) => result matches Ok(pulled) && pulled@ == (*old(source)).remaining(),
                Err(error) => result matches Err(e) && e@ == error,
            }
        }),
{
    let ghost laws = (*source).obeys_prophetic_iter_laws();
    let ghost all = (*source).remaining();
    let ghost models = code_line_models(all);
    let mut pulled: Vec<CodeLine> = Vec::new();
    let mut span_count: u64 = 0;
    let mut text_bytes: u64 = 0;
    proof {
        assert(models.take(0) =~= Seq::<SpansModel>::empty());
    }
    loop
        invariant
            (*source).obeys_prophetic_iter_laws() == laws,
            laws == (*old(source)).obeys_prophetic_iter_laws(),
            laws ==> all == (*old(source)).remaining(),
            models == code_line_models(all),
            limits@.0 < usize::MAX,
            pulled@.len() <= limits@.0,
            laws ==> pulled@.len() <= all.len() && (*source).remaining() == all.skip(
                pulled@.len() as int,
            ) && pulled@ == all.take(pulled@.len() as int),
            laws ==> code_lines_check(models.take(pulled@.len() as int), limits@) == Ok::<
                (int, int),
                CodeDocumentErrorModel,
            >((span_count as int, text_bytes as int)),
        decreases limits@.0 - pulled@.len(),
    {
        let ghost before = (*source).remaining();
        let next = source.next();
        let line = match next {
            None => {
                proof {
                    if laws {
                        assert(before.len() == 0);
                        assert(pulled@ =~= all);
                        assert(models.take(pulled@.len() as int) =~= models);
                        lemma_code_lines_read_all(models, limits@);
                        assert(all.skip(all.len() as int) =~= Seq::<CodeLine>::empty());
                    }
                }
                return Ok(pulled);
            },
            Some(line) => line,
        };
        let index = pulled.len();
        let ghost count = index as int;
        proof {
            if laws {
                assert(before.len() > 0);
                assert(line == all[count]);
                assert(models.take(count + 1).drop_last() =~= models.take(count));
                assert(models.take(count + 1).last() == line@);
                assert((*source).remaining() =~= all.skip(count + 1));
            }
        }
        let line_count = (index as u64).saturating_add(1);
        if let Err(error) = check_limit(CodeDocumentErrorKind::LineLimit, limits.max_lines, line_count) {
            proof {
                if laws {
                    lemma_code_lines_read_at_failure(models, count, limits@);
                }
            }
            return Err(error);
        }
        span_count = span_count.saturating_add(line.spans.len() as u64);
        if let Err(error) = check_limit(CodeDocumentErrorKind::SpanLimit, limits.max_spans, span_count) {
            proof {
                if laws {
                    lemma_code_lines_read_at_failure(models, count, limits@);
                }
            }
            return Err(error);
        }
        if index > 0 {
            text_bytes = text_bytes.saturating_add(1);
            if let Err(error) = check_limit(
                CodeDocumentErrorKind::TextByteLimit,
                limits.max_text_bytes,
                text_bytes,
            ) {
                proof {
                    if laws {
                        lemma_code_lines_read_at_failure(models, count, limits@);
                    }
                }
                return Err(error);
            }
        }
        let length = str_byte_len(line.text());
        text_bytes = text_bytes.saturating_add(length as u64);
        if let Err(error) = check_limit(
            CodeDocumentErrorKind::TextByteLimit,
            limits.max_text_bytes,
            text_bytes,
        ) {
            proof {
                if laws {
                    lemma_code_lines_read_at_failure(models, count, limits@);
                }
            }
            return Err(error);
        }
        pulled.push(line);
        proof {
            if laws {
                assert(pulled@ =~= all.take(count + 1));
            }
        }
    }
}

/// Immutable logical lines and complete semantic source text
#[derive(Debug, PartialEq, Eq)]
pub struct CodeDocument {
    lines: Vec<CodeLine>,
    text: String,
    line_ranges: Vec<(usize, usize)>,
    hidden_prefix: Vec<u64>,
    trailing_newline: bool,
}

impl View for CodeDocument {
    type V = (Seq<SpansModel>, bool);

    closed spec fn view(&self) -> (Seq<SpansModel>, bool) {
        (self.lines@.map_values(|line: CodeLine| line@), self.trailing_newline)
    }
}

/// A line feed is one UTF-8 byte
pub(crate) proof fn lemma_newline_len()
    ensures
        utf8_len(seq!['\n']) == 1,
{
    let newline = seq!['\n'];
    assert(newline.drop_last() =~= Seq::<char>::empty());
    assert(newline.last() == '\n');
    assert(utf8_len(Seq::<char>::empty()) == 0);
}

/// A failure inside a prefix of lines is the failure of all lines
proof fn lemma_lines_error_extends(lines: Seq<SpansModel>, count: int, limits: (u64, u64, u64))
    requires
        0 <= count <= lines.len(),
        code_lines_check(lines.take(count), limits) is Err,
    ensures
        code_lines_check(lines, limits) == code_lines_check(lines.take(count), limits),
    decreases lines.len() - count,
{
    if count < lines.len() {
        assert(lines.take(count + 1).drop_last() =~= lines.take(count));
        lemma_lines_error_extends(lines, count + 1, limits);
    } else {
        assert(lines.take(count) =~= lines);
    }
}

/// Joining one more line appends a separator and the line
pub(crate) proof fn lemma_joined_push(texts: Seq<Seq<char>>, index: int)
    requires
        0 <= index < texts.len(),
    ensures
        joined_lines(texts.take(index + 1)) == if index == 0 {
            texts[0]
        } else {
            joined_lines(texts.take(index)) + seq!['\n'] + texts[index]
        },
{
    assert(texts.take(index + 1).drop_last() =~= texts.take(index));
    if index == 0 {
        assert(texts.take(1)[0] == texts[0]);
    }
}

impl CodeDocument {
    #[verifier::type_invariant]
    spec fn indexed(self) -> bool {
        let lines = self@.0;
        let texts = line_texts(lines);
        &&& self.text@ == document_text(texts, self.trailing_newline)
        &&& self.trailing_newline ==> lines.len() > 0
        &&& self.line_ranges@.len() == lines.len()
        &&& forall|index: int|
            0 <= index < lines.len() ==> #[trigger] self.line_ranges@[index] == (
                line_start(texts, index) as usize,
                line_end(texts, index) as usize,
            )
        &&& forall|index: int|
            0 <= index < lines.len() ==> line_end(texts, index) <= utf8_len(self.text@)
        &&& self.hidden_prefix@.len() == lines.len() + 1
        &&& forall|index: int|
            0 <= index <= lines.len() ==> #[trigger] self.hidden_prefix@[index] == hidden_line_count(
                lines.take(index),
            )
    }

    /// The complete semantic source text
    pub open spec fn spec_text(self) -> Seq<char> {
        document_text(line_texts(self@.0), self@.1)
    }

    /// Builds a document from lines already at hand after validating every resource limit
    pub(crate) fn from_lines_with_limits(
        source: Vec<CodeLine>,
        trailing_newline: bool,
        limits: CodeDocumentLimits,
    ) -> (result: Result<Self, CodeDocumentError>)
        ensures
            ({
                let lines = source@.map_values(|line: CodeLine| line@);
                match code_document_check(lines, trailing_newline, limits@) {
                    Ok(_) => result matches Ok(document) && document@ == (
                        lines,
                        trailing_newline && lines.len() > 0,
                    ),
                    Err(error) => result matches Err(e) && e@ == error,
                }
            }),
    {
        let ghost lines = source@.map_values(|line: CodeLine| line@);
        let mut span_count: u64 = 0;
        let mut text_bytes: u64 = 0;
        let mut index: usize = 0;
        while index < source.len()
            invariant
                0 <= index <= source@.len(),
                lines == source@.map_values(|line: CodeLine| line@),
                code_lines_check(lines.take(index as int), limits@) == Ok::<
                    (int, int),
                    CodeDocumentErrorModel,
                >((span_count as int, text_bytes as int)),
            decreases source@.len() - index,
        {
            proof {
                assert(lines.take(index + 1).drop_last() =~= lines.take(index as int));
                assert(lines.take(index + 1).last() == lines[index as int]);
            }
            let line = &source[index];
            let line_count = (index as u64).saturating_add(1);
            if let Err(error) = check_limit(CodeDocumentErrorKind::LineLimit, limits.max_lines, line_count) {
                proof {
                    lemma_lines_error_extends(lines, index + 1, limits@);
                }
                return Err(error);
            }
            span_count = span_count.saturating_add(line.spans.len() as u64);
            if let Err(error) = check_limit(CodeDocumentErrorKind::SpanLimit, limits.max_spans, span_count) {
                proof {
                    lemma_lines_error_extends(lines, index + 1, limits@);
                }
                return Err(error);
            }
            if index > 0 {
                text_bytes = text_bytes.saturating_add(1);
                if let Err(error) = check_limit(
                    CodeDocumentErrorKind::TextByteLimit,
                    limits.max_text_bytes,
                    text_bytes,
                ) {
                    proof {
                        lemma_lines_error_extends(lines, index + 1, limits@);
                    }
                    return Err(error);
                }
            }
            let length = str_byte_len(line.text());
            text_bytes = text_bytes.saturating_add(length as u64);
            if let Err(error) = check_limit(
                CodeDocumentErrorKind::TextByteLimit,
                limits.max_text_bytes,
                text_bytes,
            ) {
                proof {
                    lemma_lines_error_extends(lines, index + 1, limits@);
                }
                return Err(error);
            }
            index = index + 1;
        }
        proof {
            assert(lines.take(lines.len() as int) =~= lines);
        }
        if trailing_newline && source.len() > 0 {
            text_bytes = text_bytes.saturating_add(1);
            check_limit(CodeDocumentErrorKind::TextByteLimit, limits.max_text_bytes, text_bytes)?;
        }
        let trailing_newline = trailing_newline && source.len() > 0;
        let ghost texts = line_texts(lines);
        let mut text = String::new();
        let mut line_ranges: Vec<(usize, usize)> = Vec::new();
        let mut hidden_prefix: Vec<u64> = Vec::new();
        hidden_prefix.push(0);
        proof {
            assert(lines.take(0) =~= Seq::<SpansModel>::empty());
        }
        let mut index: usize = 0;
        while index < source.len()
            invariant
                0 <= index <= source@.len(),
                lines == source@.map_values(|line: CodeLine| line@),
                texts == line_texts(lines),
                trailing_newline ==> lines.len() > 0,
                text@ == joined_lines(texts.take(index as int)) + if index > 0 && (index
                    < lines.len() || trailing_newline) {
                    seq!['\n']
                } else {
                    Seq::<char>::empty()
                },
                line_ranges@.len() == index,
                forall|k: int|
                    0 <= k < index ==> #[trigger] line_ranges@[k] == (
                        line_start(texts, k) as usize,
                        line_end(texts, k) as usize,
                    ),
                forall|k: int| 0 <= k < index ==> line_end(texts, k) <= utf8_len(text@),
                hidden_prefix@.len() == index + 1,
                forall|k: int|
                    0 <= k <= index ==> #[trigger] hidden_prefix@[k] == hidden_line_count(
                        lines.take(k),
                    ),
                forall|k: int| 0 <= k <= index ==> hidden_prefix@[k] <= k,
            decreases source@.len() - index,
        {
            let line = &source[index];
            let start = str_byte_len(text.as_str());
            let ghost before = text@;
            text.push_str(line.text());
            let end = str_byte_len(text.as_str());
            proof {
                lemma_joined_push(texts, index as int);
                lemma_utf8_len_concat(before, line.spec_text());
                assert(texts[index as int] == line.spec_text());
                assert(texts.take(index as int + 1).take(index as int) =~= texts.take(index as int));
                if index > 0 {
                    lemma_utf8_len_concat(joined_lines(texts.take(index as int)), seq!['\n']);
                    lemma_newline_len();
                } else {
                    assert(texts.take(0) =~= Seq::<Seq<char>>::empty());
                }
                assert(start == line_start(texts, index as int));
                assert(end == line_end(texts, index as int));
            }
            line_ranges.push((start, end));
            let previous = hidden_prefix[index];
            let hidden: u64 = if line.is_copyable() {
                0
            } else {
                1
            };
            proof {
                assert(lines.take(index + 1).drop_last() =~= lines.take(index as int));
                assert(lines.take(index + 1).last() == lines[index as int]);
            }
            hidden_prefix.push(previous + hidden);
            if index + 1 < source.len() || trailing_newline {
                let ghost middle = text@;
                text.push('\n');
                proof {
                    assert(text@ =~= middle + seq!['\n']);
                    lemma_utf8_len_concat(middle, seq!['\n']);
                    lemma_newline_len();
                }
            }
            index = index + 1;
        }
        proof {
            assert(texts.take(texts.len() as int) =~= texts);
        }
        Ok(CodeDocument { lines: source, text, line_ranges, hidden_prefix, trailing_newline })
    }

    /// Builds a document from the lines a source yields, after validating every configured
    /// resource limit; no line is pulled after the first one over a limit
    ///
    /// For a source that obeys the iterator laws, the result is the check of all the lines it
    /// would yield, and exactly the lines up to the first one over a limit are pulled, never
    /// more than one past the line limit
    pub fn new_with_limits<I: Iterator<Item = CodeLine>>(
        source: &mut I,
        trailing_newline: bool,
        limits: CodeDocumentLimits,
    ) -> (result: Result<Self, CodeDocumentError>)
        requires
            limits@.0 < usize::MAX,
        ensures
            result matches Ok(document) ==> code_document_check(
                document@.0,
                trailing_newline,
                limits@,
            ) is Ok && document@.1 == (trailing_newline && document@.0.len() > 0),
            (*old(source)).obeys_prophetic_iter_laws() ==> ({
                let lines = code_line_models((*old(source)).remaining());
                let read = code_lines_read(lines, limits@);
                &&& (*final(source)).remaining() == (*old(source)).remaining().skip(read as int)
                &&& read <= limits@.0 + 1
                &&& match code_document_check(lines, trailing_newline, limits@) {
                    Ok(_) => result matches Ok(document) && document@ == (
                        lines,
                        trailing_newline && lines.len() > 0,
                    ),
                    Err(error) => result matches Err(e) && e@ == error,
                }
            }),
    {
        match pull_code_lines(source, limits) {
            Err(error) => Err(error),
            Ok(lines) => Self::from_lines_with_limits(lines, trailing_newline, limits),
        }
    }

    /// Builds a document from the lines a source yields, using bounded default limits
    pub fn new<I: Iterator<Item = CodeLine>>(source: &mut I, trailing_newline: bool) -> (result:
        Result<Self, CodeDocumentError>)
        ensures
            result matches Ok(document) ==> code_document_check(
                document@.0,
                trailing_newline,
                (
                    DEFAULT_CODE_DOCUMENT_MAX_LINES,
                    DEFAULT_CODE_DOCUMENT_MAX_SPANS,
                    DEFAULT_CODE_DOCUMENT_MAX_TEXT_BYTES,
                ),
            ) is Ok && document@.1 == (trailing_newline && document@.0.len() > 0),
            (*old(source)).obeys_prophetic_iter_laws() ==> ({
                let lines = code_line_models((*old(source)).remaining());
                let limits = (
                    DEFAULT_CODE_DOCUMENT_MAX_LINES,
                    DEFAULT_CODE_DOCUMENT_MAX_SPANS,
                    DEFAULT_CODE_DOCUMENT_MAX_TEXT_BYTES,
                );
                let read = code_lines_read(lines, limits);
                &&& (*final(source)).remaining() == (*old(source)).remaining().skip(read as int)
                &&& match code_document_check(lines, trailing_newline, limits) {
                    Ok(_) => result matches Ok(document) && document@ == (
                        lines,
                        trailing_newline && lines.len() > 0,
                    ),
                    Err(error) => result matches Err(e) && e@ == error,
                }
            }),
    {
        Self::new_with_limits(source, trailing_newline, CodeDocumentLimits::default())
    }

    /// Returns the logical line count
    pub fn line_count(&self) -> (count: usize)
        ensures
            count == self@.0.len(),
    {
        self.lines.len()
    }

    /// Returns one logical line by zero-based index
    pub fn line(&self, index: usize) -> (line: Option<&CodeLine>)
        ensures
            index < self@.0.len() ==> (line matches Some(l) && l@ == self@.0[index as int]),
            index >= self@.0.len() ==> line is None,
    {
        if index < self.lines.len() {
            Some(&self.lines[index])
        } else {
            None
        }
    }

    /// Returns the complete semantic UTF-8 source text
    pub fn text(&self) -> (text: &str)
        ensures
            text@ == self.spec_text(),
    {
        proof {
            use_type_invariant(self);
        }
        self.text.as_str()
    }

    /// Reports whether the complete source ends with LF
    pub fn has_trailing_newline(&self) -> (trailing: bool)
        ensures
            trailing == self@.1,
    {
        self.trailing_newline
    }

    /// Returns the semantic UTF-8 byte range for ordered logical lines
    pub fn byte_range_for_lines(&self, lines: Range<usize>) -> (range: Option<Range<usize>>)
        ensures
            ({
                let texts = line_texts(self@.0);
                let count = self@.0.len();
                if lines.start > lines.end || lines.end > count {
                    range is None
                } else if lines.start == lines.end {
                    range matches Some(r) && r.start == r.end && r.start == (if lines.start
                        < count {
                        line_start(texts, lines.start as int)
                    } else {
                        utf8_len(self.spec_text())
                    })
                } else {
                    range matches Some(r) && r.start == line_start(texts, lines.start as int)
                        && r.end == (if lines.end == count && self@.1 {
                        utf8_len(self.spec_text())
                    } else {
                        line_end(texts, lines.end - 1)
                    })
                }
            }),
    {
        proof {
            use_type_invariant(self);
        }
        let total = str_byte_len(self.text.as_str());
        if lines.start > lines.end || lines.end > self.lines.len() {
            return None;
        }
        if lines.start == lines.end {
            let offset = if lines.start < self.line_ranges.len() {
                self.line_ranges[lines.start].0
            } else {
                total
            };
            return Some(offset..offset);
        }
        let start = self.line_ranges[lines.start].0;
        let end = if lines.end == self.lines.len() && self.trailing_newline {
            total
        } else {
            self.line_ranges[lines.end - 1].1
        };
        Some(start..end)
    }

    /// Returns an equal, separately owned document
    pub fn duplicate(&self) -> (copy: Self)
        ensures
            copy@ == self@,
    {
        proof {
            use_type_invariant(self);
        }
        let mut lines: Vec<CodeLine> = Vec::new();
        let mut index: usize = 0;
        while index < self.lines.len()
            invariant
                0 <= index <= self.lines@.len(),
                lines@.len() == index,
                forall|k: int| 0 <= k < index ==> (#[trigger] lines@[k])@ == self.lines@[k]@,
            decreases self.lines@.len() - index,
        {
            lines.push(self.lines[index].duplicate());
            index = index + 1;
        }
        let mut line_ranges: Vec<(usize, usize)> = Vec::new();
        let mut index: usize = 0;
        while index < self.line_ranges.len()
            invariant
                0 <= index <= self.line_ranges@.len(),
                line_ranges@ == self.line_ranges@.take(index as int),
            decreases self.line_ranges@.len() - index,
        {
            line_ranges.push(self.line_ranges[index]);
            proof {
                assert(self.line_ranges@.take(index + 1) =~= self.line_ranges@.take(
                    index as int,
                ).push(self.line_ranges@[index as int]));
            }
            index = index + 1;
        }
        let mut hidden_prefix: Vec<u64> = Vec::new();
        let mut index: usize = 0;
        while index < self.hidden_prefix.len()
            invariant
                0 <= index <= self.hidden_prefix@.len(),
                hidden_prefix@ == self.hidden_prefix@.take(index as int),
            decreases self.hidden_prefix@.len() - index,
        {
            hidden_prefix.push(self.hidden_prefix[index]);
            proof {
                assert(self.hidden_prefix@.take(index + 1) =~= self.hidden_prefix@.take(
                    index as int,
                ).push(self.hidden_prefix@[index as int]));
            }
            index = index + 1;
        }
        proof {
            assert(lines@.map_values(|line: CodeLine| line@) =~= self.lines@.map_values(
                |line: CodeLine| line@,
            ));
            assert(line_ranges@ =~= self.line_ranges@);
            assert(hidden_prefix@ =~= self.hidden_prefix@);
        }
        CodeDocument {
            lines,
            text: self.text.clone(),
            line_ranges,
            hidden_prefix,
            trailing_newline: self.trailing_newline,
        }
    }

    /// Reports whether every line in an ordered range may be copied
    pub fn is_range_copyable(&self, lines: Range<usize>) -> (copyable: bool)
        ensures
            copyable == (lines.start <= lines.end && lines.end <= self@.0.len()
                && hidden_line_count(self@.0.take(lines.start as int)) == hidden_line_count(
                self@.0.take(lines.end as int),
            )),
    {
        proof {
            use_type_invariant(self);
        }
        lines.start <= lines.end && lines.end <= self.lines.len()
            && self.hidden_prefix[lines.start] == self.hidden_prefix[lines.end]
    }
}

/// A range of lines has the same hidden count before and after it exactly when
/// every line in it may be copied
pub proof fn lemma_copyable_range(lines: Seq<SpansModel>, start: int, end: int)
    requires
        0 <= start <= end <= lines.len(),
    ensures
        (hidden_line_count(lines.take(start)) == hidden_line_count(lines.take(end))) == (forall|
            index: int,
        | start <= index < end ==> spans_copyable(#[trigger] lines[index])),
    decreases end - start,
{
    if start < end {
        lemma_copyable_range(lines, start, end - 1);
        assert(lines.take(end).drop_last() =~= lines.take(end - 1));
        assert(lines.take(end).last() == lines[end - 1]);
        lemma_hidden_count_grows(lines, start, end - 1);
    }
}

/// Hidden counts never shrink along a prefix
proof fn lemma_hidden_count_grows(lines: Seq<SpansModel>, start: int, end: int)
    requires
        0 <= start <= end <= lines.len(),
    ensures
        hidden_line_count(lines.take(start)) <= hidden_line_count(lines.take(end)),
    decreases end - start,
{
    if start < end {
        lemma_hidden_count_grows(lines, start, end - 1);
        assert(lines.take(end).drop_last() =~= lines.take(end - 1));
    }
}

impl Default for CodeDocument {
    fn default() -> (document: Self)
        ensures
            document@.0.len() == 0,
            !document@.1,
    {
        let document = CodeDocument {
            lines: Vec::new(),
            text: String::new(),
            line_ranges: Vec::new(),
            hidden_prefix: vec![0],
            trailing_newline: false,
        };
        proof {
            assert(document@.0 =~= Seq::<SpansModel>::empty());
            assert(document.lines@.map_values(|line: CodeLine| line@).take(0) =~= Seq::<
                SpansModel,
            >::empty());
        }
        document
    }
}

// ---------------------------------------------------------------------------
// Layout limits and widths
// ---------------------------------------------------------------------------

/// Resource limits applied while projecting a code document onto terminal rows
#[derive(Clone, Copy, Debug, PartialEq, Eq, Structural, Hash)]
pub struct CodeLayoutLimits {
    max_visual_rows: u64,
    max_display_bytes: u64,
}

impl View for CodeLayoutLimits {
    type V = (u64, u64);

    closed spec fn view(&self) -> (u64, u64) {
        (self.max_visual_rows, self.max_display_bytes)
    }
}

impl CodeLayoutLimits {
    /// Returns the maximum projected visual row count
    pub fn max_visual_rows(self) -> (value: u64)
        ensures
            value == self@.0,
    {
        self.max_visual_rows
    }

    /// Returns these limits with a maximum visual row count, zero restoring the default
    pub fn with_max_visual_rows(self, value: u64) -> (limits: Self)
        ensures
            limits@ == (spec_default_u64(value, DEFAULT_CODE_LAYOUT_MAX_VISUAL_ROWS), self@.1),
    {
        CodeLayoutLimits {
            max_visual_rows: default_u64(value, DEFAULT_CODE_LAYOUT_MAX_VISUAL_ROWS),
            ..self
        }
    }

    /// Returns the maximum expanded display byte count
    pub fn max_display_bytes(self) -> (value: u64)
        ensures
            value == self@.1,
    {
        self.max_display_bytes
    }

    /// Returns these limits with a maximum display byte count, zero restoring the default
    pub fn with_max_display_bytes(self, value: u64) -> (limits: Self)
        ensures
            limits@ == (self@.0, spec_default_u64(value, DEFAULT_CODE_LAYOUT_MAX_DISPLAY_BYTES)),
    {
        CodeLayoutLimits {
            max_display_bytes: default_u64(value, DEFAULT_CODE_LAYOUT_MAX_DISPLAY_BYTES),
            ..self
        }
    }
}

impl Default for CodeLayoutLimits {
    fn default() -> (limits: Self)
        ensures
            limits@ == (DEFAULT_CODE_LAYOUT_MAX_VISUAL_ROWS, DEFAULT_CODE_LAYOUT_MAX_DISPLAY_BYTES),
    {
        CodeLayoutLimits {
            max_visual_rows: DEFAULT_CODE_LAYOUT_MAX_VISUAL_ROWS,
            max_display_bytes: DEFAULT_CODE_LAYOUT_MAX_DISPLAY_BYTES,
        }
    }
}

/// Stable category of a terminal code-layout resource failure
#[derive(Clone, Copy, Debug, PartialEq, Eq, Structural, Hash)]
pub enum CodeLayoutErrorKind {
    /// The projected visual row limit was exceeded
    VisualRowLimit,
    /// The expanded display byte limit was exceeded
    DisplayByteLimit,
}

impl CodeLayoutErrorKind {
    /// Returns the stable language-independent error identifier
    pub fn as_str(self) -> (name: &'static str)
        ensures
            name@ == (match self {
                CodeLayoutErrorKind::VisualRowLimit => "visual-row-limit"@,
                CodeLayoutErrorKind::DisplayByteLimit => "display-byte-limit"@,
            }),
    {
        match self {
            CodeLayoutErrorKind::VisualRowLimit => "visual-row-limit",
            CodeLayoutErrorKind::DisplayByteLimit => "display-byte-limit",
        }
    }
}

/// Structured terminal code-layout resource failure
#[derive(Clone, Copy, Debug, PartialEq, Eq, Structural)]
pub struct CodeLayoutError {
    kind: CodeLayoutErrorKind,
    limit: u64,
    observed: u64,
}

impl View for CodeLayoutError {
    type V = (CodeLayoutErrorKind, u64, u64);

    closed spec fn view(&self) -> (CodeLayoutErrorKind, u64, u64) {
        (self.kind, self.limit, self.observed)
    }
}

impl CodeLayoutError {
    /// Returns the stable error category
    pub fn kind(&self) -> (kind: CodeLayoutErrorKind)
        ensures
            kind == self@.0,
    {
        self.kind
    }

    /// Returns the configured limit
    pub fn limit(&self) -> (limit: u64)
        ensures
            limit == self@.1,
    {
        self.limit
    }

    /// Returns the first observed value beyond the configured limit
    pub fn observed(&self) -> (observed: u64)
        ensures
            observed == self@.2,
    {
        self.observed
    }
}

/// Fails with `kind` when `observed` exceeds `limit`
pub fn check_layout_limit(kind: CodeLayoutErrorKind, limit: u64, observed: u64) -> (result: Result<
    (),
    CodeLayoutError,
>)
    ensures
        observed > limit ==> (result matches Err(error) && error@ == (kind, limit, observed)),
        observed <= limit ==> result is Ok,
{
    if observed > limit {
        Err(CodeLayoutError { kind, limit, observed })
    } else {
        Ok(())
    }
}

/// Decimal digits needed to print `value`
pub open spec fn spec_decimal_digits(value: nat) -> nat
    decreases value,
{
    if value < 10 {
        1
    } else {
        1 + spec_decimal_digits(value / 10)
    }
}

/// Counts the decimal digits of `value`
pub fn decimal_digits(value: usize) -> (digits: usize)
    ensures
        digits == spec_decimal_digits(value as nat),
{
    let mut remaining = value;
    let mut digits: usize = 1;
    proof {
        lemma_decimal_digits_at_most(value as nat);
    }
    while remaining >= 10
        invariant
            digits + spec_decimal_digits(remaining as nat) == spec_decimal_digits(value as nat) + 1,
            spec_decimal_digits(value as nat) <= if value < 1 {
                1
            } else {
                value as nat
            },
        decreases remaining,
    {
        proof {
            assert(spec_decimal_digits((remaining / 10) as nat) >= 1);
        }
        remaining = remaining / 10;
        digits = digits + 1;
    }
    digits
}

/// A positive number has no more digits than its value
proof fn lemma_decimal_digits_at_most(value: nat)
    ensures
        1 <= spec_decimal_digits(value) <= if value < 1 {
            1
        } else {
            value
        },
    decreases value,
{
    if value >= 10 {
        lemma_decimal_digits_at_most(value / 10);
    }
}

/// Gutter and code widths: the gutter holds the line-number digits and three cells when
/// line numbers are shown and fit, and the code keeps at least one cell
pub open spec fn spec_code_layout_widths(line_count: nat, viewport_width: u32, line_numbers: bool) -> (
    u32,
    u32,
) {
    let digits = spec_decimal_digits(if line_count < 1 {
        1
    } else {
        line_count
    });
    let clamped: int = if digits > u32::MAX {
        u32::MAX as int
    } else {
        digits as int
    };
    let desired: int = if clamped + 3 > u32::MAX {
        u32::MAX as int
    } else {
        clamped + 3
    };
    let gutter: int = if line_numbers && viewport_width > desired {
        desired
    } else {
        0
    };
    let code: int = if viewport_width - gutter < 1 {
        1
    } else {
        viewport_width - gutter
    };
    (gutter as u32, code as u32)
}

/// Splits a viewport into the line-number gutter and the code area
pub fn code_layout_widths(line_count: usize, viewport_width: u32, line_numbers: bool) -> (widths: (
    u32,
    u32,
))
    ensures
        widths == spec_code_layout_widths(line_count as nat, viewport_width, line_numbers),
{
    let digits = decimal_digits(if line_count < 1 {
        1
    } else {
        line_count
    });
    let clamped: u32 = if digits > 0xffff_ffff {
        0xffff_ffff
    } else {
        digits as u32
    };
    let desired = clamped.saturating_add(3);
    let gutter = if line_numbers && viewport_width > desired {
        desired
    } else {
        0
    };
    let remaining = viewport_width - gutter;
    (gutter, if remaining < 1 {
        1
    } else {
        remaining
    })
}

} // verus!
