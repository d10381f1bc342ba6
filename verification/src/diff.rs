use std::ops::Range;

use vstd::prelude::*;
use vstd::std_specs::iter::IteratorSpec;

use crate::code::{
    CodeDocument, CodeDocumentError, CodeDocumentErrorKind, CodeDocumentLimits, CodeLine,
    DEFAULT_CODE_DOCUMENT_MAX_LINES, DEFAULT_CODE_DOCUMENT_MAX_SPANS,
    DEFAULT_CODE_DOCUMENT_MAX_TEXT_BYTES, SpansModel, code_document_check, code_lines_check,
    default_u64, hidden_line_count, joined_lines, lemma_joined_push, lemma_newline_len,
    saturating_count, spans_copyable, spans_text, spec_default_u64,
};
use crate::text::{lemma_utf8_len_concat, str_byte_len, utf8_len};

verus! {

/// Default maximum logical line count in one diff document
pub const DEFAULT_DIFF_DOCUMENT_MAX_LINES: u64 = DEFAULT_CODE_DOCUMENT_MAX_LINES;

/// Default maximum styled span count in one diff document
pub const DEFAULT_DIFF_DOCUMENT_MAX_SPANS: u64 = DEFAULT_CODE_DOCUMENT_MAX_SPANS;

/// Default maximum conceptual unified UTF-8 byte count in one diff document
pub const DEFAULT_DIFF_DOCUMENT_MAX_TEXT_BYTES: u64 = DEFAULT_CODE_DOCUMENT_MAX_TEXT_BYTES;

/// Stable semantic kind of one diff logical line
#[derive(Clone, Copy, Debug, PartialEq, Eq, Structural, Hash)]
pub enum DiffLineKind {
    /// Exact application-provided metadata such as a file header
    Metadata,
    /// Exact hunk header text carrying typed old and new ranges
    Hunk,
    /// A line present on both the old and new sides
    Context,
    /// A line present only on the new side
    Addition,
    /// A line present only on the old side
    Deletion,
}

/// The unified marker of a line kind, if it has one
pub open spec fn spec_marker(kind: DiffLineKind) -> Option<char> {
    match kind {
        DiffLineKind::Metadata | DiffLineKind::Hunk => None,
        DiffLineKind::Context => Some(' '),
        DiffLineKind::Addition => Some('+'),
        DiffLineKind::Deletion => Some('-'),
    }
}

impl DiffLineKind {
    /// Returns the stable language-independent identifier
    pub fn as_str(self) -> (name: &'static str)
        ensures
            name@ == (match self {
                DiffLineKind::Metadata => "metadata"@,
                DiffLineKind::Hunk => "hunk"@,
                DiffLineKind::Context => "context"@,
                DiffLineKind::Addition => "addition"@,
                DiffLineKind::Deletion => "deletion"@,
            }),
    {
        match self {
            DiffLineKind::Metadata => "metadata",
            DiffLineKind::Hunk => "hunk",
            DiffLineKind::Context => "context",
            DiffLineKind::Addition => "addition",
            DiffLineKind::Deletion => "deletion",
        }
    }

    /// Returns the optional ASCII unified marker added during copy
    pub fn marker(self) -> (marker: Option<char>)
        ensures
            marker == spec_marker(self),
    {
        match self {
            DiffLineKind::Metadata | DiffLineKind::Hunk => None,
            DiffLineKind::Context => Some(' '),
            DiffLineKind::Addition => Some('+'),
            DiffLineKind::Deletion => Some('-'),
        }
    }
}

/// Side carrying one semantic diff line number
#[derive(Clone, Copy, Debug, PartialEq, Eq, Structural, Hash)]
pub enum DiffSide {
    /// The source before the change
    Old,
    /// The source after the change
    New,
}

impl DiffSide {
    /// Returns the stable language-independent identifier
    pub fn as_str(self) -> (name: &'static str)
        ensures
            name@ == (match self {
                DiffSide::Old => "old"@,
                DiffSide::New => "new"@,
            }),
    {
        match self {
            DiffSide::Old => "old",
            DiffSide::New => "new",
        }
    }
}

/// Structured non-positive diff line-number error
#[derive(Clone, Copy, Debug, PartialEq, Eq, Structural)]
pub struct InvalidDiffLineNumber {
    side: DiffSide,
    value: u64,
}

impl View for InvalidDiffLineNumber {
    type V = (DiffSide, u64);

    closed spec fn view(&self) -> (DiffSide, u64) {
        (self.side, self.value)
    }
}

impl InvalidDiffLineNumber {
    /// Returns the side containing the invalid number
    pub fn side(&self) -> (side: DiffSide)
        ensures
            side == self@.0,
    {
        self.side
    }

    /// Returns the rejected line number
    pub fn value(&self) -> (value: u64)
        ensures
            value == self@.1,
    {
        self.value
    }
}

/// Stable category of an invalid diff range
#[derive(Clone, Copy, Debug, PartialEq, Eq, Structural, Hash)]
pub enum InvalidDiffRangeKind {
    /// A non-empty range starts at zero
    Start,
    /// The inclusive last line would exceed `u64::MAX`
    Overflow,
}

impl InvalidDiffRangeKind {
    /// Returns the stable language-independent identifier
    pub fn as_str(self) -> (name: &'static str)
        ensures
            name@ == (match self {
                InvalidDiffRangeKind::Start => "start"@,
                InvalidDiffRangeKind::Overflow => "overflow"@,
            }),
    {
        match self {
            InvalidDiffRangeKind::Start => "start",
            InvalidDiffRangeKind::Overflow => "overflow",
        }
    }
}

/// Structured invalid hunk-range error
#[derive(Clone, Copy, Debug, PartialEq, Eq, Structural)]
pub struct InvalidDiffRange {
    kind: InvalidDiffRangeKind,
    start: u64,
    count: u64,
}

impl View for InvalidDiffRange {
    type V = (InvalidDiffRangeKind, u64, u64);

    closed spec fn view(&self) -> (InvalidDiffRangeKind, u64, u64) {
        (self.kind, self.start, self.count)
    }
}

impl InvalidDiffRange {
    /// Returns the stable error category
    pub fn kind(&self) -> (kind: InvalidDiffRangeKind)
        ensures
            kind == self@.0,
    {
        self.kind
    }

    /// Returns the rejected range start
    pub fn start(&self) -> (start: u64)
        ensures
            start == self@.1,
    {
        self.start
    }

    /// Returns the rejected range line count
    pub fn count(&self) -> (count: u64)
        ensures
            count == self@.2,
    {
        self.count
    }
}

/// One validated source range declared by a diff hunk
#[derive(Clone, Copy, Debug, PartialEq, Eq, Structural, Hash)]
pub struct DiffRange {
    start: u64,
    count: u64,
}

impl View for DiffRange {
    type V = (u64, u64);

    closed spec fn view(&self) -> (u64, u64) {
        (self.start, self.count)
    }
}

/// A non-empty range starts at one or later and its last line fits in `u64`
pub open spec fn is_valid_diff_range(start: u64, count: u64) -> bool {
    count == 0 || (start > 0 && start + count - 1 <= u64::MAX)
}

impl DiffRange {
    #[verifier::type_invariant]
    spec fn valid(self) -> bool {
        is_valid_diff_range(self.start, self.count)
    }

    /// Creates a range after validating its inclusive last line
    ///
    /// An empty range may start at zero. A non-empty range must start at one
    /// or greater
    pub fn new(start: u64, count: u64) -> (result: Result<Self, InvalidDiffRange>)
        ensures
            is_valid_diff_range(start, count) ==> (result matches Ok(range) && range@ == (
                start,
                count,
            )),
            count > 0 && start == 0 ==> (result matches Err(error) && error@ == (
                InvalidDiffRangeKind::Start,
                start,
                count,
            )),
            count > 0 && start > 0 && start + count - 1 > u64::MAX ==> (result matches Err(error)
                && error@ == (InvalidDiffRangeKind::Overflow, start, count)),
    {
        if count > 0 && start == 0 {
            return Err(InvalidDiffRange { kind: InvalidDiffRangeKind::Start, start, count });
        }
        if count > 0 && start.checked_add(count - 1).is_none() {
            return Err(InvalidDiffRange { kind: InvalidDiffRangeKind::Overflow, start, count });
        }
        Ok(DiffRange { start, count })
    }

    /// Returns the first declared line number
    pub fn start(self) -> (start: u64)
        ensures
            start == self@.0,
    {
        self.start
    }

    /// Returns the declared line count
    pub fn count(self) -> (count: u64)
        ensures
            count == self@.1,
    {
        self.count
    }

    /// Returns the inclusive last declared line or absence for an empty range
    pub fn last(self) -> (last: Option<u64>)
        ensures
            self@.1 == 0 ==> last is None,
            self@.1 > 0 ==> last == Some((self@.0 + self@.1 - 1) as u64),
    {
        proof {
            use_type_invariant(self);
        }
        if self.count == 0 {
            None
        } else {
            Some(self.start + (self.count - 1))
        }
    }
}

impl Default for DiffRange {
    fn default() -> (range: Self)
        ensures
            range@ == (0u64, 0u64),
    {
        DiffRange { start: 0, count: 0 }
    }
}

/// Typed old and new ranges attached to one hunk header
#[derive(Clone, Copy, Debug, PartialEq, Eq, Structural, Hash)]
pub struct DiffHunk {
    old: DiffRange,
    new: DiffRange,
}

impl DiffHunk {
    /// Creates typed hunk metadata from validated ranges
    pub fn new(old: DiffRange, new: DiffRange) -> (hunk: Self)
        ensures
            hunk.spec_old() == old,
            hunk.spec_new() == new,
    {
        DiffHunk { old, new }
    }

    /// The old-side range
    pub closed spec fn spec_old(self) -> DiffRange {
        self.old
    }

    /// The new-side range
    pub closed spec fn spec_new(self) -> DiffRange {
        self.new
    }

    /// Returns the old-side range
    pub fn old_range(self) -> (range: DiffRange)
        ensures
            range == self.spec_old(),
    {
        self.old
    }

    /// Returns the new-side range
    pub fn new_range(self) -> (range: DiffRange)
        ensures
            range == self.spec_new(),
    {
        self.new
    }
}

/// Kind, content runs, old and new line numbers, and hunk ranges of one diff line
pub type DiffLineModel = (DiffLineKind, SpansModel, Option<u64>, Option<u64>, Option<DiffHunk>);

/// One immutable typed diff line
#[derive(Debug, PartialEq, Eq)]
pub struct DiffLine {
    kind: DiffLineKind,
    content: CodeLine,
    old_line: Option<u64>,
    new_line: Option<u64>,
    hunk: Option<DiffHunk>,
}

impl View for DiffLine {
    type V = DiffLineModel;

    closed spec fn view(&self) -> DiffLineModel {
        (self.kind, self.content@, self.old_line, self.new_line, self.hunk)
    }
}

/// Fails for a zero line number on `side`
pub fn validate_line_number(side: DiffSide, value: u64) -> (result: Result<(), InvalidDiffLineNumber>)
    ensures
        value == 0 ==> (result matches Err(error) && error@ == (side, value)),
        value > 0 ==> result is Ok,
{
    if value == 0 {
        Err(InvalidDiffLineNumber { side, value })
    } else {
        Ok(())
    }
}

impl DiffLine {
    /// Creates exact metadata with no line number or unified marker
    pub fn metadata(content: CodeLine) -> (line: Self)
        ensures
            line@ == (DiffLineKind::Metadata, content@, None::<u64>, None::<u64>, None::<DiffHunk>),
    {
        DiffLine {
            kind: DiffLineKind::Metadata,
            content,
            old_line: None,
            new_line: None,
            hunk: None,
        }
    }

    /// Creates exact hunk header text carrying typed range metadata
    pub fn hunk(hunk: DiffHunk, content: CodeLine) -> (line: Self)
        ensures
            line@ == (DiffLineKind::Hunk, content@, None::<u64>, None::<u64>, Some(hunk)),
    {
        DiffLine { kind: DiffLineKind::Hunk, content, old_line: None, new_line: None, hunk: Some(hunk) }
    }

    /// Creates one context line with positive old and new line numbers
    pub fn context(old_line: u64, new_line: u64, content: CodeLine) -> (result: Result<
        Self,
        InvalidDiffLineNumber,
    >)
        ensures
            old_line == 0 ==> (result matches Err(error) && error@ == (DiffSide::Old, old_line)),
            old_line > 0 && new_line == 0 ==> (result matches Err(error) && error@ == (
                DiffSide::New,
                new_line,
            )),
            old_line > 0 && new_line > 0 ==> (result matches Ok(line) && line@ == (
                DiffLineKind::Context,
                content@,
                Some(old_line),
                Some(new_line),
                None::<DiffHunk>,
            )),
    {
        validate_line_number(DiffSide::Old, old_line)?;
        validate_line_number(DiffSide::New, new_line)?;
        Ok(
            DiffLine {
                kind: DiffLineKind::Context,
                content,
                old_line: Some(old_line),
                new_line: Some(new_line),
                hunk: None,
            },
        )
    }

    /// Creates one addition with a positive new-side line number
    pub fn addition(new_line: u64, content: CodeLine) -> (result: Result<Self, InvalidDiffLineNumber>)
        ensures
            new_line == 0 ==> (result matches Err(error) && error@ == (DiffSide::New, new_line)),
            new_line > 0 ==> (result matches Ok(line) && line@ == (
                DiffLineKind::Addition,
                content@,
                None::<u64>,
                Some(new_line),
                None::<DiffHunk>,
            )),
    {
        validate_line_number(DiffSide::New, new_line)?;
        Ok(
            DiffLine {
                kind: DiffLineKind::Addition,
                content,
                old_line: None,
                new_line: Some(new_line),
                hunk: None,
            },
        )
    }

    /// Creates one deletion with a positive old-side line number
    pub fn deletion(old_line: u64, content: CodeLine) -> (result: Result<Self, InvalidDiffLineNumber>)
        ensures
            old_line == 0 ==> (result matches Err(error) && error@ == (DiffSide::Old, old_line)),
            old_line > 0 ==> (result matches Ok(line) && line@ == (
                DiffLineKind::Deletion,
                content@,
                Some(old_line),
                None::<u64>,
                None::<DiffHunk>,
            )),
    {
        validate_line_number(DiffSide::Old, old_line)?;
        Ok(
            DiffLine {
                kind: DiffLineKind::Deletion,
                content,
                old_line: Some(old_line),
                new_line: None,
                hunk: None,
            },
        )
    }

    /// Returns the semantic line kind
    pub fn kind(&self) -> (kind: DiffLineKind)
        ensures
            kind == self@.0,
    {
        self.kind
    }

    /// Returns the immutable styled content without a unified marker
    pub fn content(&self) -> (content: &CodeLine)
        ensures
            content@ == self@.1,
    {
        &self.content
    }

    /// Returns the optional positive old-side line number
    pub fn old_line(&self) -> (line: Option<u64>)
        ensures
            line == self@.2,
    {
        self.old_line
    }

    /// Returns the optional positive new-side line number
    pub fn new_line(&self) -> (line: Option<u64>)
        ensures
            line == self@.3,
    {
        self.new_line
    }

    /// Returns typed hunk metadata only for a hunk line
    pub fn hunk_metadata(&self) -> (hunk: Option<DiffHunk>)
        ensures
            hunk == self@.4,
    {
        self.hunk
    }

    /// Reports whether copy callbacks may expose this line
    pub fn is_copyable(&self) -> (copyable: bool)
        ensures
            copyable == spans_copyable(self@.1),
    {
        self.content.is_copyable()
    }
}

// ---------------------------------------------------------------------------
// Limits and errors
// ---------------------------------------------------------------------------

/// Resource limits applied while constructing a diff document
#[derive(Clone, Copy, Debug, PartialEq, Eq, Structural, Hash)]
pub struct DiffDocumentLimits {
    max_lines: u64,
    max_spans: u64,
    max_text_bytes: u64,
}

impl View for DiffDocumentLimits {
    type V = (u64, u64, u64);

    closed spec fn view(&self) -> (u64, u64, u64) {
        (self.max_lines, self.max_spans, self.max_text_bytes)
    }
}

impl DiffDocumentLimits {
    #[verifier::type_invariant]
    spec fn positive(self) -> bool {
        &&& self.max_lines > 0
        &&& self.max_spans > 0
        &&& self.max_text_bytes > 0
    }

    /// Returns the maximum logical line count
    pub fn max_lines(self) -> (value: u64)
        ensures
            value == self@.0,
    {
        self.max_lines
    }

    /// Returns these limits with a maximum logical line count, zero restoring the default
    pub fn with_max_lines(self, value: u64) -> (limits: Self)
        ensures
            limits@ == (spec_default_u64(value, DEFAULT_DIFF_DOCUMENT_MAX_LINES), self@.1, self@.2),
    {
        proof {
            use_type_invariant(self);
        }
        DiffDocumentLimits { max_lines: default_u64(value, DEFAULT_DIFF_DOCUMENT_MAX_LINES), ..self }
    }

    /// Returns the maximum styled span count
    pub fn max_spans(self) -> (value: u64)
        ensures
            value == self@.1,
    {
        self.max_spans
    }

    /// Returns these limits with a maximum styled span count, zero restoring the default
    pub fn with_max_spans(self, value: u64) -> (limits: Self)
        ensures
            limits@ == (self@.0, spec_default_u64(value, DEFAULT_DIFF_DOCUMENT_MAX_SPANS), self@.2),
    {
        proof {
            use_type_invariant(self);
        }
        DiffDocumentLimits { max_spans: default_u64(value, DEFAULT_DIFF_DOCUMENT_MAX_SPANS), ..self }
    }

    /// Returns the maximum conceptual unified UTF-8 byte count
    pub fn max_text_bytes(self) -> (value: u64)
        ensures
            value == self@.2,
    {
        self.max_text_bytes
    }

    /// Returns these limits with a maximum unified UTF-8 byte count, zero restoring the default
    pub fn with_max_text_bytes(self, value: u64) -> (limits: Self)
        ensures
            limits@ == (
                self@.0,
                self@.1,
                spec_default_u64(value, DEFAULT_DIFF_DOCUMENT_MAX_TEXT_BYTES),
            ),
    {
        proof {
            use_type_invariant(self);
        }
        DiffDocumentLimits {
            max_text_bytes: default_u64(value, DEFAULT_DIFF_DOCUMENT_MAX_TEXT_BYTES),
            ..self
        }
    }
}

impl Default for DiffDocumentLimits {
    fn default() -> (limits: Self)
        ensures
            limits@ == (
                DEFAULT_DIFF_DOCUMENT_MAX_LINES,
                DEFAULT_DIFF_DOCUMENT_MAX_SPANS,
                DEFAULT_DIFF_DOCUMENT_MAX_TEXT_BYTES,
            ),
    {
        DiffDocumentLimits {
            max_lines: DEFAULT_DIFF_DOCUMENT_MAX_LINES,
            max_spans: DEFAULT_DIFF_DOCUMENT_MAX_SPANS,
            max_text_bytes: DEFAULT_DIFF_DOCUMENT_MAX_TEXT_BYTES,
        }
    }
}

/// Stable category of a diff-document resource failure
#[derive(Clone, Copy, Debug, PartialEq, Eq, Structural, Hash)]
pub enum DiffDocumentErrorKind {
    /// The logical line limit was exceeded
    LineLimit,
    /// The styled span limit was exceeded
    SpanLimit,
    /// The conceptual unified UTF-8 byte limit was exceeded
    TextByteLimit,
}

impl DiffDocumentErrorKind {
    /// Returns the stable language-independent identifier
    pub fn as_str(self) -> (name: &'static str)
        ensures
            name@ == (match self {
                DiffDocumentErrorKind::LineLimit => "line-limit"@,
                DiffDocumentErrorKind::SpanLimit => "span-limit"@,
                DiffDocumentErrorKind::TextByteLimit => "text-byte-limit"@,
            }),
    {
        match self {
            DiffDocumentErrorKind::LineLimit => "line-limit",
            DiffDocumentErrorKind::SpanLimit => "span-limit",
            DiffDocumentErrorKind::TextByteLimit => "text-byte-limit",
        }
    }
}

/// Structured diff-document resource failure
#[derive(Clone, Copy, Debug, PartialEq, Eq, Structural)]
pub struct DiffDocumentError {
    kind: DiffDocumentErrorKind,
    limit: u64,
    observed: u64,
}

/// Category, configured limit, and first observed value beyond it
pub type DiffDocumentErrorModel = (DiffDocumentErrorKind, u64, u64);

impl View for DiffDocumentError {
    type V = DiffDocumentErrorModel;

    closed spec fn view(&self) -> DiffDocumentErrorModel {
        (self.kind, self.limit, self.observed)
    }
}

impl DiffDocumentError {
    /// Returns the stable error category
    pub fn kind(&self) -> (kind: DiffDocumentErrorKind)
        ensures
            kind == self@.0,
    {
        self.kind
    }

    /// Returns the configured limit
    pub fn limit(&self) -> (limit: u64)
        ensures
            limit == self@.1,
    {
        self.limit
    }

    /// Returns the first observed value beyond the configured limit
    pub fn observed(&self) -> (observed: u64)
        ensures
            observed == self@.2,
    {
        self.observed
    }
}

/// The diff category of a code-document category
pub open spec fn diff_error_kind(kind: CodeDocumentErrorKind) -> DiffDocumentErrorKind {
    match kind {
        CodeDocumentErrorKind::LineLimit => DiffDocumentErrorKind::LineLimit,
        CodeDocumentErrorKind::SpanLimit => DiffDocumentErrorKind::SpanLimit,
        CodeDocumentErrorKind::TextByteLimit => DiffDocumentErrorKind::TextByteLimit,
    }
}

/// Translates a projection failure into the matching diff failure
pub fn map_code_document_error(error: CodeDocumentError) -> (mapped: DiffDocumentError)
    ensures
        mapped@ == (diff_error_kind(error@.0), error@.1, error@.2),
{
    let kind = match error.kind() {
        CodeDocumentErrorKind::LineLimit => DiffDocumentErrorKind::LineLimit,
        CodeDocumentErrorKind::SpanLimit => DiffDocumentErrorKind::SpanLimit,
        CodeDocumentErrorKind::TextByteLimit => DiffDocumentErrorKind::TextByteLimit,
    };
    DiffDocumentError { kind, limit: error.limit(), observed: error.observed() }
}

/// Fails with `kind` when `observed` exceeds `limit`
pub fn check_document_limit(kind: DiffDocumentErrorKind, limit: u64, observed: u64) -> (result:
    Result<(), DiffDocumentError>)
    ensures
        observed > limit ==> (result matches Err(error) && error@ == (kind, limit, observed)),
        observed <= limit ==> result is Ok,
{
    if observed > limit {
        Err(DiffDocumentError { kind, limit, observed })
    } else {
        Ok(())
    }
}

// ---------------------------------------------------------------------------
// Documents
// ---------------------------------------------------------------------------

/// `value` as a `usize`, stopping at `usize::MAX`
pub open spec fn usize_clamp(value: int) -> usize {
    if value > usize::MAX {
        usize::MAX
    } else {
        value as usize
    }
}

/// Running unified byte count once a separator before line `index` is added
pub open spec fn separated_bytes(previous: int, index: int) -> int {
    if index > 0 {
        saturating_count(previous + 1)
    } else {
        previous
    }
}

/// Running unified byte count once the marker of a line kind is added
pub open spec fn marked_bytes(separated: int, kind: DiffLineKind) -> int {
    if spec_marker(kind) is Some {
        saturating_count(separated + 1)
    } else {
        separated
    }
}

/// Saturated styled span count of lines
pub open spec fn diff_span_count(lines: Seq<DiffLineModel>) -> int
    decreases lines.len(),
{
    if lines.len() == 0 {
        0
    } else {
        saturating_count(diff_span_count(lines.drop_last()) + lines.last().1.len())
    }
}

/// Saturated unified byte count of lines joined by LF, markers included
pub open spec fn diff_byte_count(lines: Seq<DiffLineModel>) -> int
    decreases lines.len(),
{
    if lines.len() == 0 {
        0
    } else {
        saturating_count(
            marked_bytes(
                separated_bytes(diff_byte_count(lines.drop_last()), lines.len() - 1),
                lines.last().0,
            ) + utf8_len(spans_text(lines.last().1)),
        )
    }
}

/// Runs the per-line limit checks in order, giving the first failure
pub open spec fn diff_lines_check(lines: Seq<DiffLineModel>, limits: (u64, u64, u64)) -> Result<
    (),
    DiffDocumentErrorModel,
>
    decreases lines.len(),
{
    if lines.len() == 0 {
        Ok(())
    } else {
        match diff_lines_check(lines.drop_last(), limits) {
            Err(error) => Err(error),
            Ok(_) => {
                let count = saturating_count(lines.len() as int);
                let spans = diff_span_count(lines);
                let separated = separated_bytes(
                    diff_byte_count(lines.drop_last()),
                    lines.len() - 1,
                );
                let marked = marked_bytes(separated, lines.last().0);
                let bytes = diff_byte_count(lines);
                if count > limits.0 {
                    Err((DiffDocumentErrorKind::LineLimit, limits.0, count as u64))
                } else if spans > limits.1 {
                    Err((DiffDocumentErrorKind::SpanLimit, limits.1, spans as u64))
                } else if lines.len() > 1 && separated > limits.2 {
                    Err((DiffDocumentErrorKind::TextByteLimit, limits.2, separated as u64))
                } else if spec_marker(lines.last().0) is Some && marked > limits.2 {
                    Err((DiffDocumentErrorKind::TextByteLimit, limits.2, marked as u64))
                } else if bytes > limits.2 {
                    Err((DiffDocumentErrorKind::TextByteLimit, limits.2, bytes as u64))
                } else {
                    Ok(())
                }
            },
        }
    }
}


/// The running unified byte count is the saturated byte length of the unified lines joined
/// by LF
pub proof fn lemma_diff_byte_count_is_text_length(lines: Seq<DiffLineModel>)
    ensures
        diff_byte_count(lines) == saturating_count(
            utf8_len(joined_lines(unified_lines(lines))) as int,
        ),
    decreases lines.len(),
{
    if lines.len() > 0 {
        let front = lines.drop_last();
        lemma_diff_byte_count_is_text_length(front);
        let texts = unified_lines(lines);
        assert(unified_lines(front) =~= texts.drop_last());
        let last = lines.last();
        let content = spans_text(last.1);
        let front_bytes = utf8_len(joined_lines(texts.drop_last())) as int;
        let last_bytes = utf8_len(texts.last()) as int;
        match spec_marker(last.0) {
            Some(marker) => {
                lemma_utf8_len_concat(seq![marker], content);
                assert(seq![marker].drop_last() =~= Seq::<char>::empty());
                assert(utf8_len(Seq::<char>::empty()) == 0);
                assert(utf8_len(seq![marker]) == 1);
            },
            None => {},
        }
        if lines.len() > 1 {
            lemma_newline_len();
            lemma_utf8_len_concat(joined_lines(texts.drop_last()), seq!['\n']);
            lemma_utf8_len_concat(joined_lines(texts.drop_last()) + seq!['\n'], texts.last());
            assert(utf8_len(joined_lines(texts)) == front_bytes + 1 + last_bytes);
        } else {
            assert(texts.drop_last() =~= Seq::<Seq<char>>::empty());
            assert(utf8_len(Seq::<char>::empty()) == 0);
            assert(joined_lines(texts) == texts[0]);
        }
    }
}

/// The line checks pass exactly when the saturated line count, run count and unified byte
/// count are within their limits
pub proof fn lemma_diff_lines_check_totals(lines: Seq<DiffLineModel>, limits: (u64, u64, u64))
    ensures
        diff_lines_check(lines, limits) is Ok <==> (saturating_count(lines.len() as int) <= limits.0
            && diff_span_count(lines) <= limits.1 && diff_byte_count(lines) <= limits.2),
    decreases lines.len(),
{
    if lines.len() > 0 {
        lemma_diff_lines_check_totals(lines.drop_last(), limits);
    }
}

/// Unified byte count of a whole document, with the final LF when one is kept
pub open spec fn diff_total_bytes(lines: Seq<DiffLineModel>, trailing_newline: bool) -> int {
    if trailing_newline && lines.len() > 0 {
        saturating_count(diff_byte_count(lines) + 1)
    } else {
        diff_byte_count(lines)
    }
}

/// All limit checks of a diff document, giving the first failure if any
pub open spec fn diff_document_check(
    lines: Seq<DiffLineModel>,
    trailing_newline: bool,
    limits: (u64, u64, u64),
) -> Result<(), DiffDocumentErrorModel> {
    match diff_lines_check(lines, limits) {
        Err(error) => Err(error),
        Ok(_) => if trailing_newline && lines.len() > 0 && diff_total_bytes(lines, true)
            > limits.2 {
            Err(
                (
                    DiffDocumentErrorKind::TextByteLimit,
                    limits.2,
                    diff_total_bytes(lines, true) as u64,
                ),
            )
        } else {
            Ok(())
        },
    }
}

/// The content runs of each line
pub open spec fn diff_contents(lines: Seq<DiffLineModel>) -> Seq<SpansModel> {
    lines.map_values(|line: DiffLineModel| line.1)
}

/// The unified text of one line: its marker followed by its content
pub open spec fn unified_line(line: DiffLineModel) -> Seq<char> {
    match spec_marker(line.0) {
        Some(marker) => seq![marker] + spans_text(line.1),
        None => spans_text(line.1),
    }
}

/// The unified text of lines joined by LF
pub open spec fn unified_lines(lines: Seq<DiffLineModel>) -> Seq<Seq<char>> {
    lines.map_values(|line: DiffLineModel| unified_line(line))
}

/// Byte offset where line `index` starts in the unified text
pub open spec fn diff_line_start(lines: Seq<DiffLineModel>, index: int) -> usize {
    usize_clamp(separated_bytes(diff_byte_count(lines.take(index)), index))
}

/// Byte offset where line `index` ends in the unified text
pub open spec fn diff_line_end(lines: Seq<DiffLineModel>, index: int) -> usize {
    usize_clamp(diff_byte_count(lines.take(index + 1)))
}

/// The line models of diff lines
pub open spec fn diff_line_models(lines: Seq<DiffLine>) -> Seq<DiffLineModel> {
    lines.map_values(|line: DiffLine| line@)
}

/// How many of `lines` a diff document constructor pulls: up to and including the first line
/// over a limit, or all of them
pub open spec fn diff_lines_read(lines: Seq<DiffLineModel>, limits: (u64, u64, u64)) -> nat
    decreases lines.len(),
{
    if lines.len() == 0 {
        0
    } else if diff_lines_check(lines.drop_last(), limits) is Err {
        diff_lines_read(lines.drop_last(), limits)
    } else {
        lines.len()
    }
}

/// When the first `count` lines pass and one more does not, the constructor pulls that one
/// more
proof fn lemma_diff_lines_read_at_failure(lines: Seq<DiffLineModel>, count: int, limits: (u64, u64, u64))
    requires
        0 <= count < lines.len(),
        diff_lines_check(lines.take(count), limits) is Ok,
        diff_lines_check(lines.take(count + 1), limits) is Err,
    ensures
        diff_lines_read(lines, limits) == count + 1,
        diff_lines_check(lines, limits) == diff_lines_check(lines.take(count + 1), limits),
    decreases lines.len(),
{
    lemma_diff_error_extends(lines, count + 1, limits);
    if count + 1 == lines.len() {
        assert(lines.take(count + 1) =~= lines);
        assert(lines.drop_last() =~= lines.take(count));
    } else {
        let front = lines.drop_last();
        assert(front.take(count) =~= lines.take(count));
        assert(front.take(count + 1) =~= lines.take(count + 1));
        lemma_diff_error_extends(front, count + 1, limits);
        lemma_diff_lines_read_at_failure(front, count, limits);
    }
}

/// Pulls diff lines from `source` while every limit holds, stopping after the first line over
/// a limit or when the source ends
fn pull_diff_lines<I: Iterator<Item = DiffLine>>(source: &mut I, limits: DiffDocumentLimits) -> (result:
    Result<Vec<DiffLine>, DiffDocumentError>)
    requires
        limits@.0 < usize::MAX,
    ensures
        (*old(source)).obeys_prophetic_iter_laws() ==> ({
            let lines = diff_line_models((*old(source)).remaining());
            let read = diff_lines_read(lines, limits@);
            &&& (*final(source)).remaining() == (*old(source)).remaining().skip(read as int)
            &&& read <= limits@.0 + 1
            &&& match diff_lines_check(lines, limits@) {
                Ok(_) => result matches Ok(pulled) && pulled@ == (*old(source)).remaining(),
                Err(error) => result matches Err(e) && e@ == error,
            }
        }),
{
    let ghost laws = (*source).obeys_prophetic_iter_laws();
    let ghost all = (*source).remaining();
    let ghost models = diff_line_models(all);
    let mut pulled: Vec<DiffLine> = Vec::new();
    let mut span_count: u64 = 0;
    let mut text_bytes: u64 = 0;
    proof {
        assert(models.take(0) =~= Seq::<DiffLineModel>::empty());
    }
    loop
        invariant
            (*source).obeys_prophetic_iter_laws() == laws,
            laws == (*old(source)).obeys_prophetic_iter_laws(),
            laws ==> all == (*old(source)).remaining(),
            models == diff_line_models(all),
            limits@.0 < usize::MAX,
            pulled@.len() <= limits@.0,
            laws ==> pulled@.len() <= all.len() && (*source).remaining() == all.skip(
                pulled@.len() as int,
            ) && pulled@ == all.take(pulled@.len() as int),
            laws ==> diff_lines_check(models.take(pulled@.len() as int), limits@) is Ok,
            laws ==> span_count == diff_span_count(models.take(pulled@.len() as int)),
            laws ==> text_bytes == diff_byte_count(models.take(pulled@.len() as int)),
        decreases limits@.0 - pulled@.len(),
    {
        let ghost before = (*source).remaining();
        let next = source.next();
        let line = match next {
            None => {
                proof {
                    if laws {
                        assert(before.len() == 0);
                        assert(pulled@ =~= all);
                        assert(models.take(pulled@.len() as int) =~= models);
                        assert(all.skip(all.len() as int) =~= Seq::<DiffLine>::empty());
                    }
                }
                return Ok(pulled);
            },
            Some(line) => line,
        };
        let index = pulled.len();
        let ghost count = index as int;
        proof {
            if laws {
                assert(before.len() > 0);
                assert(line == all[count]);
                assert(models.take(count + 1).drop_last() =~= models.take(count));
                assert(models.take(count + 1).last() == line@);
                assert((*source).remaining() =~= all.skip(count + 1));
            }
        }
        let line_count = (index as u64) + 1;
        if let Err(error) = check_document_limit(
            DiffDocumentErrorKind::LineLimit,
            limits.max_lines,
            line_count,
        ) {
            proof {
                if laws {
                    lemma_diff_lines_read_at_failure(models, count, limits@);
                }
            }
            return Err(error);
        }
        span_count = span_count.saturating_add(line.content.spans().len() as u64);
        if let Err(error) = check_document_limit(
            DiffDocumentErrorKind::SpanLimit,
            limits.max_spans,
            span_count,
        ) {
            proof {
                if laws {
                    lemma_diff_lines_read_at_failure(models, count, limits@);
                }
            }
            return Err(error);
        }
        if index > 0 {
            text_bytes = text_bytes.saturating_add(1);
            if let Err(error) = check_document_limit(
                DiffDocumentErrorKind::TextByteLimit,
                limits.max_text_bytes,
                text_bytes,
            ) {
                proof {
                    if laws {
                        lemma_diff_lines_read_at_failure(models, count, limits@);
                    }
                }
                return Err(error);
            }
        }
        if line.kind.marker().is_some() {
            text_bytes = text_bytes.saturating_add(1);
            if let Err(error) = check_document_limit(
                DiffDocumentErrorKind::TextByteLimit,
                limits.max_text_bytes,
                text_bytes,
            ) {
                proof {
                    if laws {
                        lemma_diff_lines_read_at_failure(models, count, limits@);
                    }
                }
                return Err(error);
            }
        }
        let length = str_byte_len(line.content.text());
        text_bytes = text_bytes.saturating_add(length as u64);
        if let Err(error) = check_document_limit(
            DiffDocumentErrorKind::TextByteLimit,
            limits.max_text_bytes,
            text_bytes,
        ) {
            proof {
                if laws {
                    lemma_diff_lines_read_at_failure(models, count, limits@);
                }
            }
            return Err(error);
        }
        pulled.push(line);
        proof {
            if laws {
                assert(pulled@ =~= all.take(count + 1));
            }
        }
    }
}


/// Immutable typed diff lines and conceptual unified source ranges
#[derive(Debug, PartialEq, Eq)]
pub struct DiffDocument {
    lines: Vec<DiffLine>,
    projection: CodeDocument,
    line_ranges: Vec<(usize, usize)>,
    hidden_prefix: Vec<u64>,
    text_bytes: usize,
    trailing_newline: bool,
}

impl View for DiffDocument {
    type V = (Seq<DiffLineModel>, bool);

    closed spec fn view(&self) -> (Seq<DiffLineModel>, bool) {
        (self.lines@.map_values(|line: DiffLine| line@), self.trailing_newline)
    }
}

/// A document whose line checks pass also passes the checks of its content projection
proof fn lemma_projection_fits(lines: Seq<DiffLineModel>, limits: (u64, u64, u64))
    requires
        diff_lines_check(lines, limits) is Ok,
    ensures
        code_lines_check(diff_contents(lines), limits) matches Ok(counts) && counts.0
            == diff_span_count(lines) && counts.1 <= diff_byte_count(lines),
    decreases lines.len(),
{
    if lines.len() > 0 {
        lemma_projection_fits(lines.drop_last(), limits);
        assert(diff_contents(lines).drop_last() =~= diff_contents(lines.drop_last()));
        assert(diff_contents(lines).last() == lines.last().1);
    } else {
        assert(diff_contents(lines) =~= Seq::<SpansModel>::empty());
    }
}

/// A failure inside a prefix of lines is the failure of all lines
proof fn lemma_diff_error_extends(lines: Seq<DiffLineModel>, count: int, limits: (u64, u64, u64))
    requires
        0 <= count <= lines.len(),
        diff_lines_check(lines.take(count), limits) is Err,
    ensures
        diff_lines_check(lines, limits) == diff_lines_check(lines.take(count), limits),
    decreases lines.len() - count,
{
    if count < lines.len() {
        assert(lines.take(count + 1).drop_last() =~= lines.take(count));
        lemma_diff_error_extends(lines, count + 1, limits);
    } else {
        assert(lines.take(count) =~= lines);
    }
}

impl DiffDocument {
    #[verifier::type_invariant]
    spec fn indexed(self) -> bool {
        let lines = self@.0;
        &&& self.projection@ == (diff_contents(lines), false)
        &&& self.trailing_newline ==> lines.len() > 0
        &&& self.text_bytes == usize_clamp(diff_total_bytes(lines, self.trailing_newline))
        &&& self.line_ranges@.len() == lines.len()
        &&& forall|index: int|
            0 <= index < lines.len() ==> #[trigger] self.line_ranges@[index] == (
                diff_line_start(lines, index),
                diff_line_end(lines, index),
            )
        &&& self.hidden_prefix@.len() == lines.len() + 1
        &&& forall|index: int|
            0 <= index <= lines.len() ==> #[trigger] self.hidden_prefix@[index] == hidden_line_count(
                diff_contents(lines).take(index),
            )
    }

    /// Builds a diff document from lines already at hand after validating every resource limit
    pub(crate) fn from_lines_with_limits(
        source: Vec<DiffLine>,
        trailing_newline: bool,
        limits: DiffDocumentLimits,
    ) -> (result: Result<Self, DiffDocumentError>)
        ensures
            ({
                let lines = source@.map_values(|line: DiffLine| line@);
                match diff_document_check(lines, trailing_newline, limits@) {
                    Ok(_) => result matches Ok(document) && document@ == (
                        lines,
                        trailing_newline && lines.len() > 0,
                    ),
                    Err(error) => result matches Err(e) && e@ == error,
                }
            }),
    {
        proof {
            use_type_invariant(limits);
        }
        let ghost lines = source@.map_values(|line: DiffLine| line@);
        let ghost contents = diff_contents(lines);
        let mut span_count: u64 = 0;
        let mut text_bytes: u64 = 0;
        let mut line_ranges: Vec<(usize, usize)> = Vec::new();
        let mut hidden_prefix: Vec<u64> = Vec::new();
        let mut projection_lines: Vec<CodeLine> = Vec::new();
        hidden_prefix.push(0);
        proof {
            assert(contents.take(0) =~= Seq::<SpansModel>::empty());
        }
        let mut index: usize = 0;
        while index < source.len()
            invariant
                0 <= index <= source@.len(),
                lines == source@.map_values(|line: DiffLine| line@),
                contents == diff_contents(lines),
                diff_lines_check(lines.take(index as int), limits@) is Ok,
                span_count == diff_span_count(lines.take(index as int)),
                text_bytes == diff_byte_count(lines.take(index as int)),
                line_ranges@.len() == index,
                forall|k: int|
                    0 <= k < index ==> #[trigger] line_ranges@[k] == (
                        diff_line_start(lines, k),
                        diff_line_end(lines, k),
                    ),
                hidden_prefix@.len() == index + 1,
                forall|k: int|
                    0 <= k <= index ==> #[trigger] hidden_prefix@[k] == hidden_line_count(
                        contents.take(k),
                    ),
                forall|k: int| 0 <= k <= index ==> hidden_prefix@[k] <= k,
                projection_lines@.len() == index,
                forall|k: int| 0 <= k < index ==> (#[trigger] projection_lines@[k])@ == contents[k],
            decreases source@.len() - index,
        {
            let ghost prefix = lines.take(index as int);
            proof {
                assert(lines.take(index + 1).drop_last() =~= prefix);
                assert(lines.take(index + 1).last() == lines[index as int]);
                assert(lines.take(index as int + 1).take(index as int) =~= prefix);
            }
            let line = &source[index];
            let line_count = (index as u64).saturating_add(1);
            if let Err(error) = check_document_limit(
                DiffDocumentErrorKind::LineLimit,
                limits.max_lines,
                line_count,
            ) {
                proof {
                    lemma_diff_error_extends(lines, index + 1, limits@);
                }
                return Err(error);
            }
            span_count = span_count.saturating_add(line.content.spans().len() as u64);
            if let Err(error) = check_document_limit(
                DiffDocumentErrorKind::SpanLimit,
                limits.max_spans,
                span_count,
            ) {
                proof {
                    lemma_diff_error_extends(lines, index + 1, limits@);
                }
                return Err(error);
            }
            if index > 0 {
                text_bytes = text_bytes.saturating_add(1);
                if let Err(error) = check_document_limit(
                    DiffDocumentErrorKind::TextByteLimit,
                    limits.max_text_bytes,
                    text_bytes,
                ) {
                    proof {
                        lemma_diff_error_extends(lines, index + 1, limits@);
                    }
                    return Err(error);
                }
            }
            let start: usize = if text_bytes > usize::MAX as u64 {
                usize::MAX
            } else {
                text_bytes as usize
            };
            if line.kind.marker().is_some() {
                text_bytes = text_bytes.saturating_add(1);
                if let Err(error) = check_document_limit(
                    DiffDocumentErrorKind::TextByteLimit,
                    limits.max_text_bytes,
                    text_bytes,
                ) {
                    proof {
                        lemma_diff_error_extends(lines, index + 1, limits@);
                    }
                    return Err(error);
                }
            }
            let length = str_byte_len(line.content.text());
            text_bytes = text_bytes.saturating_add(length as u64);
            if let Err(error) = check_document_limit(
                DiffDocumentErrorKind::TextByteLimit,
                limits.max_text_bytes,
                text_bytes,
            ) {
                proof {
                    lemma_diff_error_extends(lines, index + 1, limits@);
                }
                return Err(error);
            }
            let end: usize = if text_bytes > usize::MAX as u64 {
                usize::MAX
            } else {
                text_bytes as usize
            };
            line_ranges.push((start, end));
            let previous = hidden_prefix[index];
            let hidden: u64 = if line.is_copyable() {
                0
            } else {
                1
            };
            proof {
                assert(contents.take(index + 1).drop_last() =~= contents.take(index as int));
                assert(contents.take(index + 1).last() == contents[index as int]);
            }
            hidden_prefix.push(previous + hidden);
            projection_lines.push(line.content.duplicate());
            index = index + 1;
        }
        proof {
            assert(lines.take(lines.len() as int) =~= lines);
        }
        if trailing_newline && source.len() > 0 {
            text_bytes = text_bytes.saturating_add(1);
            if let Err(error) = check_document_limit(
                DiffDocumentErrorKind::TextByteLimit,
                limits.max_text_bytes,
                text_bytes,
            ) {
                return Err(error);
            }
        }
        let code_limits = CodeDocumentLimits::default().with_max_lines(limits.max_lines).with_max_spans(
            limits.max_spans,
        ).with_max_text_bytes(limits.max_text_bytes);
        proof {
            lemma_projection_fits(lines, limits@);
            assert(projection_lines@.map_values(|line: CodeLine| line@) =~= contents);
        }
        let projection = match CodeDocument::from_lines_with_limits(projection_lines, false, code_limits) {
            Ok(projection) => projection,
            Err(error) => {
                return Err(map_code_document_error(error));
            },
        };
        let trailing_newline = trailing_newline && source.len() > 0;
        let total: usize = if text_bytes > usize::MAX as u64 {
            usize::MAX
        } else {
            text_bytes as usize
        };
        Ok(
            DiffDocument {
                lines: source,
                projection,
                line_ranges,
                hidden_prefix,
                text_bytes: total,
                trailing_newline,
            },
        )
    }

    /// Builds a diff document from the lines a source yields, after validating every resource
    /// limit; no line is pulled after the first one over a limit
    ///
    /// For a source that obeys the iterator laws, the result is the check of all the lines it
    /// would yield, and exactly the lines up to the first one over a limit are pulled, never
    /// more than one past the line limit
    pub fn new_with_limits<I: Iterator<Item = DiffLine>>(
        source: &mut I,
        trailing_newline: bool,
        limits: DiffDocumentLimits,
    ) -> (result: Result<Self, DiffDocumentError>)
        requires
            limits@.0 < usize::MAX,
        ensures
            result matches Ok(document) ==> diff_document_check(
                document@.0,
                trailing_newline,
                limits@,
            ) is Ok && document@.1 == (trailing_newline && document@.0.len() > 0),
            (*old(source)).obeys_prophetic_iter_laws() ==> ({
                let lines = diff_line_models((*old(source)).remaining());
                let read = diff_lines_read(lines, limits@);
                &&& (*final(source)).remaining() == (*old(source)).remaining().skip(read as int)
                &&& read <= limits@.0 + 1
                &&& match diff_document_check(lines, trailing_newline, limits@) {
                    Ok(_) => result matches Ok(document) && document@ == (
                        lines,
                        trailing_newline && lines.len() > 0,
                    ),
                    Err(error) => result matches Err(e) && e@ == error,
                }
            }),
    {
        match pull_diff_lines(source, limits) {
            Err(error) => Err(error),
            Ok(lines) => Self::from_lines_with_limits(lines, trailing_newline, limits),
        }
    }

    /// Builds a diff document from the lines a source yields, using bounded default limits
    pub fn new<I: Iterator<Item = DiffLine>>(source: &mut I, trailing_newline: bool) -> (result:
        Result<Self, DiffDocumentError>)
        ensures
            result matches Ok(document) ==> diff_document_check(
                document@.0,
                trailing_newline,
                (
                    DEFAULT_DIFF_DOCUMENT_MAX_LINES,
                    DEFAULT_DIFF_DOCUMENT_MAX_SPANS,
                    DEFAULT_DIFF_DOCUMENT_MAX_TEXT_BYTES,
                ),
            ) is Ok && document@.1 == (trailing_newline && document@.0.len() > 0),
            (*old(source)).obeys_prophetic_iter_laws() ==> ({
                let lines = diff_line_models((*old(source)).remaining());
                let limits = (
                    DEFAULT_DIFF_DOCUMENT_MAX_LINES,
                    DEFAULT_DIFF_DOCUMENT_MAX_SPANS,
                    DEFAULT_DIFF_DOCUMENT_MAX_TEXT_BYTES,
                );
                let read = diff_lines_read(lines, limits);
                &&& (*final(source)).remaining() == (*old(source)).remaining().skip(read as int)
                &&& match diff_document_check(lines, trailing_newline, limits) {
                    Ok(_) => result matches Ok(document) && document@ == (
                        lines,
                        trailing_newline && lines.len() > 0,
                    ),
                    Err(error) => result matches Err(e) && e@ == error,
                }
            }),
    {
        Self::new_with_limits(source, trailing_newline, DiffDocumentLimits::default())
    }

    /// Returns the logical diff line count
    pub fn line_count(&self) -> (count: usize)
        ensures
            count == self@.0.len(),
    {
        self.lines.len()
    }

    /// Returns one typed logical diff line by zero-based index
    pub fn line(&self, index: usize) -> (line: Option<&DiffLine>)
        ensures
            index < self@.0.len() ==> (line matches Some(l) && l@ == self@.0[index as int]),
            index >= self@.0.len() ==> line is None,
    {
        if index < self.lines.len() {
            Some(&self.lines[index])
        } else {
            None
        }
    }

    /// Returns the conceptual complete unified UTF-8 byte count
    pub fn text_bytes(&self) -> (bytes: usize)
        ensures
            bytes == usize_clamp(diff_total_bytes(self@.0, self@.1)),
    {
        proof {
            use_type_invariant(self);
        }
        self.text_bytes
    }

    /// Reports whether conceptual unified text ends with LF
    pub fn has_trailing_newline(&self) -> (trailing: bool)
        ensures
            trailing == self@.1,
    {
        self.trailing_newline
    }

    /// Returns the content lines without markers as a code document
    pub fn projection(&self) -> (projection: &CodeDocument)
        ensures
            projection@ == (diff_contents(self@.0), false),
    {
        proof {
            use_type_invariant(self);
        }
        &self.projection
    }

    /// Returns the conceptual UTF-8 byte range for ordered logical lines
    pub fn byte_range_for_lines(&self, lines: Range<usize>) -> (range: Option<Range<usize>>)
        ensures
            ({
                let model = self@.0;
                let count = model.len();
                let total = usize_clamp(diff_total_bytes(model, self@.1));
                if lines.start > lines.end || lines.end > count {
                    range is None
                } else if lines.start == lines.end {
                    range matches Some(r) && r.start == r.end && r.start == (if lines.start
                        < count {
                        diff_line_start(model, lines.start as int)
                    } else {
                        total
                    })
                } else {
                    range matches Some(r) && r.start == diff_line_start(model, lines.start as int)
                        && r.end == (if lines.end == count && self@.1 {
                        total
                    } else {
                        diff_line_end(model, lines.end - 1)
                    })
                }
            }),
    {
        proof {
            use_type_invariant(self);
        }
        if lines.start > lines.end || lines.end > self.lines.len() {
            return None;
        }
        if lines.start == lines.end {
            let offset = if lines.start < self.line_ranges.len() {
                self.line_ranges[lines.start].0
            } else {
                self.text_bytes
            };
            return Some(offset..offset);
        }
        let start = self.line_ranges[lines.start].0;
        let end = if lines.end == self.lines.len() && self.trailing_newline {
            self.text_bytes
        } else {
            self.line_ranges[lines.end - 1].1
        };
        Some(start..end)
    }

    /// Reports whether every line in an ordered range may be copied
    pub fn is_range_copyable(&self, lines: Range<usize>) -> (copyable: bool)
        ensures
            copyable == (lines.start <= lines.end && lines.end <= self@.0.len() && hidden_line_count(
                diff_contents(self@.0).take(lines.start as int),
            ) == hidden_line_count(diff_contents(self@.0).take(lines.end as int))),
    {
        proof {
            use_type_invariant(self);
        }
        lines.start <= lines.end && lines.end <= self.lines.len()
            && self.hidden_prefix[lines.start] == self.hidden_prefix[lines.end]
    }

    /// Generates independently owned unified text for a copyable line range
    pub fn copy_text_for_lines(&self, lines: Range<usize>) -> (text: Option<String>)
        ensures
            ({
                let model = self@.0;
                let copyable = lines.start <= lines.end && lines.end <= model.len()
                    && hidden_line_count(diff_contents(model).take(lines.start as int))
                    == hidden_line_count(diff_contents(model).take(lines.end as int));
                &&& copyable == text is Some
                &&& text matches Some(t) ==> t@ == joined_lines(
                    unified_lines(model.subrange(lines.start as int, lines.end as int)),
                ) + if lines.start < lines.end && lines.end == model.len() && self@.1 {
                    seq!['\n']
                } else {
                    Seq::<char>::empty()
                }
            }),
    {
        if !self.is_range_copyable(lines.start..lines.end) {
            return None;
        }
        let ghost model = self@.0;
        let ghost selected = unified_lines(model.subrange(lines.start as int, lines.end as int));
        let mut output = String::new();
        let mut index = lines.start;
        while index < lines.end
            invariant
                lines.start <= index <= lines.end <= self.lines@.len(),
                model == self@.0,
                selected == unified_lines(model.subrange(lines.start as int, lines.end as int)),
                output@ == joined_lines(selected.take(index - lines.start)),
            decreases lines.end - index,
        {
            let relative = index - lines.start;
            let ghost before = output@;
            if relative > 0 {
                output.push('\n');
            }
            let line = &self.lines[index];
            assert(line@ == model[index as int]);
            match line.kind.marker() {
                Some(marker) => output.push(marker),
                None => {},
            }
            output.push_str(line.content.text());
            proof {
                lemma_joined_push(selected, relative as int);
                assert(selected[relative as int] == unified_line(model[index as int]));
                assert(selected.take(relative + 1).take(relative as int) =~= selected.take(
                    relative as int,
                ));
                if relative > 0 {
                    assert(output@ =~= before + seq!['\n'] + unified_line(model[index as int]));
                } else {
                    assert(output@ =~= unified_line(model[index as int]));
                }
            }
            index = index + 1;
        }
        proof {
            assert(selected.take(selected.len() as int) =~= selected);
        }
        if lines.start < lines.end && lines.end == self.lines.len() && self.trailing_newline {
            output.push('\n');
        }
        Some(output)
    }
}

impl Default for DiffDocument {
    fn default() -> (document: Self)
        ensures
            document@.0.len() == 0,
            !document@.1,
    {
        let projection = CodeDocument::default();
        let lines: Vec<DiffLine> = Vec::new();
        proof {
            assert(projection@.0 =~= Seq::<SpansModel>::empty());
            assert(lines@.map_values(|line: DiffLine| line@) =~= Seq::<DiffLineModel>::empty());
            assert(diff_contents(Seq::<DiffLineModel>::empty()) =~= Seq::<SpansModel>::empty());
            assert(diff_contents(Seq::<DiffLineModel>::empty()).take(0) =~= Seq::<
                SpansModel,
            >::empty());
        }
        let document = DiffDocument {
            lines,
            projection,
            line_ranges: Vec::new(),
            hidden_prefix: vec![0],
            trailing_newline: false,
            text_bytes: 0,
        };
        proof {
            assert(document@.0 =~= Seq::<DiffLineModel>::empty());
            assert(diff_contents(document@.0) =~= Seq::<SpansModel>::empty());
            assert(diff_contents(document@.0).take(0) =~= Seq::<SpansModel>::empty());
        }
        document
    }
}

} // verus!
