use std::ops::Range;
use std::sync::Arc;

use vstd::prelude::*;

use crate::text::{lemma_utf8_len_concat, same_allocation, share, str_byte_len, utf8_len};

verus! {

/// Application-owned cursor and optional selection over UTF-8 byte offsets
#[derive(Clone, Copy, Debug, PartialEq, Eq, Structural)]
pub struct SelectableTextState {
    cursor: usize,
    selection_anchor: usize,
    has_selection: bool,
}

impl View for SelectableTextState {
    type V = (usize, usize, bool);

    closed spec fn view(&self) -> (usize, usize, bool) {
        (self.cursor, self.selection_anchor, self.has_selection)
    }
}

impl SelectableTextState {
    /// Creates a collapsed selection at a UTF-8 byte offset
    pub fn new(cursor: usize) -> (state: Self)
        ensures
            state@ == (cursor, cursor, false),
    {
        SelectableTextState { cursor, selection_anchor: cursor, has_selection: false }
    }

    /// Creates a selection between two UTF-8 byte offsets, collapsed when they are equal
    pub fn with_selection(cursor: usize, anchor: usize) -> (state: Self)
        ensures
            state@ == (cursor, anchor, cursor != anchor),
    {
        SelectableTextState { cursor, selection_anchor: anchor, has_selection: cursor != anchor }
    }

    /// Returns the cursor offset
    pub fn cursor(self) -> (cursor: usize)
        ensures
            cursor == self@.0,
    {
        self.cursor
    }

    /// Returns the selection anchor when a non-empty selection exists
    pub fn selection_anchor(self) -> (anchor: Option<usize>)
        ensures
            anchor == if self@.2 {
                Some(self@.1)
            } else {
                None
            },
    {
        if self.has_selection {
            Some(self.selection_anchor)
        } else {
            None
        }
    }

    /// Returns the ordered selected byte range when a selection exists
    pub fn selection(self) -> (range: Option<Range<usize>>)
        ensures
            self@.2 == range is Some,
            range matches Some(r) ==> (r.start == if self@.0 < self@.1 {
                self@.0
            } else {
                self@.1
            }) && (r.end == if self@.0 < self@.1 {
                self@.1
            } else {
                self@.0
            }),
    {
        if self.has_selection {
            if self.cursor < self.selection_anchor {
                Some(self.cursor..self.selection_anchor)
            } else {
                Some(self.selection_anchor..self.cursor)
            }
        } else {
            None
        }
    }

    /// Returns state selecting from `anchor` to the current cursor
    pub fn select(self, anchor: usize) -> (state: Self)
        ensures
            state@ == (self@.0, anchor, anchor != self@.0),
    {
        SelectableTextState {
            cursor: self.cursor,
            selection_anchor: anchor,
            has_selection: anchor != self.cursor,
        }
    }

    /// Returns state with the selection collapsed at the current cursor
    pub fn clear_selection(self) -> (state: Self)
        ensures
            state@ == (self@.0, self@.0, false),
    {
        SelectableTextState { cursor: self.cursor, selection_anchor: self.cursor, has_selection: false }
    }
}

impl Default for SelectableTextState {
    fn default() -> (state: Self)
        ensures
            state@ == (0usize, 0usize, false),
    {
        SelectableTextState::new(0)
    }
}

/// Source represented by a text copy request
#[derive(Clone, Copy, Debug, PartialEq, Eq, Structural, Hash)]
pub enum TextCopyKind {
    /// The current non-empty selection
    Selection,
    /// The complete text document
    Document,
}

// ---------------------------------------------------------------------------
// Content
// ---------------------------------------------------------------------------

/// Grapheme clusters concatenated in order
pub open spec fn joined_graphemes(graphemes: Seq<Seq<char>>) -> Seq<char>
    decreases graphemes.len(),
{
    if graphemes.len() == 0 {
        Seq::empty()
    } else {
        joined_graphemes(graphemes.drop_last()) + graphemes.last()
    }
}

/// The UTF-8 byte offset where grapheme `index` starts, the text length at the end
pub open spec fn grapheme_offset(graphemes: Seq<Seq<char>>, index: int) -> nat {
    utf8_len(joined_graphemes(graphemes.take(index)))
}

/// The UTF-8 byte length of the text
pub open spec fn text_length(graphemes: Seq<Seq<char>>) -> nat {
    grapheme_offset(graphemes, graphemes.len() as int)
}

#[derive(Debug)]
struct SelectableTextData {
    graphemes: Vec<String>,
    text: String,
    offsets: Vec<usize>,
    copyable: bool,
}

/// Immutable text displayed for selection, held as its grapheme clusters; clones share
/// storage
#[derive(Debug)]
pub struct SelectableTextContent {
    inner: Arc<SelectableTextData>,
}

/// The texts of grapheme clusters
pub open spec fn grapheme_texts(graphemes: Seq<String>) -> Seq<Seq<char>> {
    graphemes.map_values(|grapheme: String| grapheme@)
}

impl View for SelectableTextContent {
    type V = (Seq<Seq<char>>, bool);

    closed spec fn view(&self) -> (Seq<Seq<char>>, bool) {
        (grapheme_texts(self.inner.graphemes@), self.inner.copyable)
    }
}

impl SelectableTextData {
    #[verifier::type_invariant]
    spec fn indexed(self) -> bool {
        let graphemes = grapheme_texts(self.graphemes@);
        &&& self.text@ == joined_graphemes(graphemes)
        &&& self.offsets@.len() == graphemes.len() + 1
        &&& forall|index: int|
            0 <= index <= graphemes.len() ==> #[trigger] self.offsets@[index] == grapheme_offset(
                graphemes,
                index,
            )
    }
}

impl SelectableTextContent {
    /// Creates content from its grapheme clusters in order, each non-empty, whose concatenation
    /// is the text; `copyable` is false when a styled run of the text is hidden
    pub fn from_graphemes(graphemes: Vec<String>, copyable: bool) -> (content: Self)
        requires
            forall|index: int| 0 <= index < graphemes@.len() ==> (#[trigger] graphemes@[index])@.len() > 0,
        ensures
            content@ == (grapheme_texts(graphemes@), copyable),
    {
        let ghost texts = grapheme_texts(graphemes@);
        let mut text = String::new();
        let mut offsets: Vec<usize> = Vec::new();
        offsets.push(0);
        proof {
            assert(texts.take(0) =~= Seq::<Seq<char>>::empty());
            assert(utf8_len(Seq::<char>::empty()) == 0);
        }
        let mut index: usize = 0;
        while index < graphemes.len()
            invariant
                0 <= index <= graphemes@.len(),
                texts == grapheme_texts(graphemes@),
                text@ == joined_graphemes(texts.take(index as int)),
                offsets@.len() == index + 1,
                forall|k: int|
                    0 <= k <= index ==> #[trigger] offsets@[k] == grapheme_offset(texts, k),
            decreases graphemes@.len() - index,
        {
            proof {
                assert(texts.take(index + 1).drop_last() =~= texts.take(index as int));
                assert(texts.take(index + 1).last() == graphemes@[index as int]@);
            }
            text.push_str(graphemes[index].as_str());
            let length = str_byte_len(text.as_str());
            offsets.push(length);
            index = index + 1;
        }
        proof {
            assert(texts.take(texts.len() as int) =~= texts);
        }
        SelectableTextContent {
            inner: Arc::new(SelectableTextData { graphemes, text, offsets, copyable }),
        }
    }

    /// Returns the text
    pub fn text(&self) -> (text: &str)
        ensures
            text@ == joined_graphemes(self@.0),
    {
        proof {
            use_type_invariant(&*self.inner);
        }
        self.inner.text.as_str()
    }

    /// Reports whether this content may be supplied to a copy request
    pub fn is_copyable(&self) -> (copyable: bool)
        ensures
            copyable == self@.1,
    {
        self.inner.copyable
    }

    /// Returns the number of grapheme clusters
    pub fn grapheme_count(&self) -> (count: usize)
        ensures
            count == self@.0.len(),
    {
        self.inner.graphemes.len()
    }

    /// Returns the UTF-8 byte offset where grapheme `index` starts, the text length at the end
    pub fn offset(&self, index: usize) -> (offset: usize)
        requires
            index <= self@.0.len(),
        ensures
            offset == grapheme_offset(self@.0, index as int),
    {
        proof {
            use_type_invariant(&*self.inner);
        }
        self.inner.offsets[index]
    }

    /// Returns the text length in UTF-8 bytes
    pub fn len(&self) -> (length: usize)
        ensures
            length == text_length(self@.0),
    {
        self.offset(self.inner.graphemes.len())
    }

    fn grapheme(&self, index: usize) -> (grapheme: &String)
        requires
            index < self@.0.len(),
        ensures
            grapheme@ == self@.0[index as int],
    {
        &self.inner.graphemes[index]
    }

    /// Normalizes selection offsets to this content's grapheme boundaries
    pub fn normalize_state(&self, state: SelectableTextState) -> (normalized: SelectableTextState)
        ensures
            normalized@ == spec_normalize_text_state(self@.0, state@),
    {
        normalize_selectable_text_state(self, state)
    }

    /// Reports whether two contents share one storage allocation
    pub fn shares_storage(&self, other: &Self) -> (shared: bool)
        ensures
            shared ==> self@ == other@,
    {
        same_allocation(&self.inner, &other.inner)
    }
}

impl Clone for SelectableTextContent {
    fn clone(&self) -> (copy: Self)
        ensures
            copy@ == self@,
    {
        SelectableTextContent { inner: share(&self.inner) }
    }
}

// ---------------------------------------------------------------------------
// Boundaries, words and lines
// ---------------------------------------------------------------------------

/// The index of the last grapheme boundary at or before `limit`, scanning from `index` with
/// `best` found so far
pub open spec fn floor_index_from(graphemes: Seq<Seq<char>>, index: nat, limit: nat, best: nat) -> nat
    decreases graphemes.len() + 1 - index,
{
    if index > graphemes.len() {
        best
    } else if grapheme_offset(graphemes, index as int) <= limit {
        floor_index_from(graphemes, index + 1, limit, index)
    } else {
        floor_index_from(graphemes, index + 1, limit, best)
    }
}

/// The last grapheme boundary at or before `limit`
pub open spec fn boundary_floor(graphemes: Seq<Seq<char>>, limit: nat) -> nat {
    grapheme_offset(graphemes, floor_index_from(graphemes, 0, limit, 0) as int)
}

/// The first grapheme boundary after `cursor` from `index` on, the text length when there is
/// none
pub open spec fn ceiling_from(graphemes: Seq<Seq<char>>, index: nat, cursor: nat) -> nat
    decreases graphemes.len() + 1 - index,
{
    if index > graphemes.len() {
        text_length(graphemes)
    } else if grapheme_offset(graphemes, index as int) > cursor {
        grapheme_offset(graphemes, index as int)
    } else {
        ceiling_from(graphemes, index + 1, cursor)
    }
}

/// The boundary before the cursor, zero at the start
pub open spec fn spec_previous_cursor(graphemes: Seq<Seq<char>>, cursor: nat) -> nat {
    if cursor == 0 {
        0
    } else {
        boundary_floor(graphemes, (cursor - 1) as nat)
    }
}

/// The boundary after the cursor, the text length at the end
pub open spec fn spec_next_cursor(graphemes: Seq<Seq<char>>, cursor: nat) -> nat {
    ceiling_from(graphemes, 0, cursor)
}

/// A grapheme made only of spaces and the controls from tab to carriage return
pub open spec fn is_word_separator(grapheme: Seq<char>) -> bool {
    forall|k: int|
        0 <= k < grapheme.len() ==> (('\t' <= #[trigger] grapheme[k] && grapheme[k] <= '\r')
            || grapheme[k] == ' ')
}

/// A line break grapheme
pub open spec fn is_line_break(grapheme: Seq<char>) -> bool {
    grapheme == seq!['\r'] || grapheme == seq!['\n'] || grapheme == seq!['\r', '\n']
}

/// The number of graphemes ending at or before `cursor`, from `index` on
pub open spec fn graphemes_before_from(graphemes: Seq<Seq<char>>, index: nat, cursor: nat) -> nat
    decreases graphemes.len() - index,
{
    if index >= graphemes.len() || grapheme_offset(graphemes, index + 1int) > cursor {
        index
    } else {
        graphemes_before_from(graphemes, index + 1, cursor)
    }
}

/// The start of the last word among graphemes `index..end`, `start` when none begins there
pub open spec fn word_start_from(
    graphemes: Seq<Seq<char>>,
    index: nat,
    end: nat,
    in_word: bool,
    start: nat,
) -> nat
    decreases end - index,
{
    if index >= end {
        start
    } else if is_word_separator(graphemes[index as int]) {
        word_start_from(graphemes, index + 1, end, false, start)
    } else if !in_word {
        word_start_from(graphemes, index + 1, end, true, grapheme_offset(graphemes, index as int))
    } else {
        word_start_from(graphemes, index + 1, end, true, start)
    }
}

/// The start of the word before the cursor
pub open spec fn spec_previous_word(graphemes: Seq<Seq<char>>, cursor: nat) -> nat {
    word_start_from(graphemes, 0, graphemes_before_from(graphemes, 0, cursor), false, 0)
}

/// The start of the next word from grapheme `index` on: a word starting after the first
/// grapheme, or after a separator that follows a word; the text length when there is none
pub open spec fn next_word_from(
    graphemes: Seq<Seq<char>>,
    index: nat,
    first: nat,
    saw_word: bool,
    saw_separator: bool,
) -> nat
    decreases graphemes.len() - index,
{
    if index >= graphemes.len() {
        text_length(graphemes)
    } else {
        let separator = is_word_separator(graphemes[index as int]);
        if !separator && !saw_word {
            if index != first {
                grapheme_offset(graphemes, index as int)
            } else {
                next_word_from(graphemes, index + 1, first, true, saw_separator)
            }
        } else if separator && saw_word {
            next_word_from(graphemes, index + 1, first, saw_word, true)
        } else if !separator && saw_separator {
            grapheme_offset(graphemes, index as int)
        } else {
            next_word_from(graphemes, index + 1, first, saw_word, saw_separator)
        }
    }
}

/// The start of the word after the cursor
pub open spec fn spec_next_word(graphemes: Seq<Seq<char>>, cursor: nat) -> nat {
    let first = graphemes_before_from(graphemes, 0, cursor);
    next_word_from(graphemes, first, first, false, false)
}

/// The line holding the cursor, from grapheme `index` on, the current line starting at `start`
pub open spec fn line_from(graphemes: Seq<Seq<char>>, index: nat, cursor: nat, start: nat) -> (
    nat,
    nat,
)
    decreases graphemes.len() - index,
{
    if index >= graphemes.len() {
        (start, text_length(graphemes))
    } else if is_line_break(graphemes[index as int]) {
        let break_start = grapheme_offset(graphemes, index as int);
        if cursor >= start && cursor <= break_start {
            (start, break_start)
        } else {
            line_from(graphemes, index + 1, cursor, grapheme_offset(graphemes, index + 1int))
        }
    } else {
        line_from(graphemes, index + 1, cursor, start)
    }
}

/// The byte range of the line holding the cursor, without its line break
pub open spec fn spec_current_line(graphemes: Seq<Seq<char>>, cursor: nat) -> (nat, nat) {
    line_from(graphemes, 0, cursor, 0)
}

/// A state with both offsets moved to the boundaries at or before them, collapsed when they
/// meet
pub open spec fn spec_normalize_text_state(graphemes: Seq<Seq<char>>, state: (usize, usize, bool)) -> (
    usize,
    usize,
    bool,
) {
    let length = text_length(graphemes);
    let cursor = boundary_floor(graphemes, if state.0 < length {
        state.0 as nat
    } else {
        length
    }) as usize;
    let anchor = boundary_floor(graphemes, if state.1 < length {
        state.1 as nat
    } else {
        length
    }) as usize;
    if !state.2 || cursor == anchor {
        (cursor, cursor, false)
    } else {
        (cursor, anchor, true)
    }
}

/// The byte offset after one more grapheme grows by that grapheme's length
pub(crate) proof fn lemma_offset_step(graphemes: Seq<Seq<char>>, index: int)
    requires
        0 <= index < graphemes.len(),
    ensures
        grapheme_offset(graphemes, index + 1) == grapheme_offset(graphemes, index) + utf8_len(
            graphemes[index],
        ),
{
    assert(graphemes.take(index + 1).drop_last() =~= graphemes.take(index));
    assert(graphemes.take(index + 1).last() == graphemes[index]);
    lemma_utf8_len_concat(joined_graphemes(graphemes.take(index)), graphemes[index]);
}

/// Byte offsets of grapheme boundaries never decrease
pub(crate) proof fn lemma_offset_monotone(graphemes: Seq<Seq<char>>, low: int, high: int)
    requires
        0 <= low <= high <= graphemes.len(),
    ensures
        grapheme_offset(graphemes, low) <= grapheme_offset(graphemes, high),
    decreases high - low,
{
    if low < high {
        lemma_offset_step(graphemes, high - 1);
        lemma_offset_monotone(graphemes, low, high - 1);
    }
}

/// The text starts at byte offset zero
pub(crate) proof fn lemma_offset_zero(graphemes: Seq<Seq<char>>)
    ensures
        grapheme_offset(graphemes, 0) == 0,
{
    assert(graphemes.take(0) =~= Seq::<Seq<char>>::empty());
    assert(utf8_len(Seq::<char>::empty()) == 0);
}

/// The scan for the last boundary at or before `limit` ends on such a boundary with no later
/// boundary at or before `limit`
proof fn lemma_floor_index_from_is_last(graphemes: Seq<Seq<char>>, index: nat, limit: nat, best: nat)
    requires
        best < index,
        best <= graphemes.len(),
        grapheme_offset(graphemes, best as int) <= limit,
        forall|k: int|
            best < k < index && k <= graphemes.len() ==> grapheme_offset(graphemes, k) > limit,
    ensures
        ({
            let last = floor_index_from(graphemes, index, limit, best);
            &&& last <= graphemes.len()
            &&& grapheme_offset(graphemes, last as int) <= limit
            &&& forall|k: int|
                last < k <= graphemes.len() ==> grapheme_offset(graphemes, k) > limit
        }),
    decreases graphemes.len() + 1 - index,
{
    if index <= graphemes.len() {
        if grapheme_offset(graphemes, index as int) <= limit {
            lemma_floor_index_from_is_last(graphemes, index + 1, limit, index);
        } else {
            lemma_floor_index_from_is_last(graphemes, index + 1, limit, best);
        }
    }
}

/// The index found for `limit` is the last boundary at or before it
proof fn lemma_floor_index_is_last(graphemes: Seq<Seq<char>>, limit: nat)
    ensures
        ({
            let last = floor_index_from(graphemes, 0, limit, 0);
            &&& last <= graphemes.len()
            &&& grapheme_offset(graphemes, last as int) <= limit
            &&& forall|k: int|
                last < k <= graphemes.len() ==> grapheme_offset(graphemes, k) > limit
        }),
{
    lemma_offset_zero(graphemes);
    assert(floor_index_from(graphemes, 0, limit, 0) == floor_index_from(graphemes, 1, limit, 0));
    lemma_floor_index_from_is_last(graphemes, 1, limit, 0);
}

/// A boundary found for a limit is its own boundary, lies at or before the limit and within
/// the text
proof fn lemma_boundary_floor_fixed(graphemes: Seq<Seq<char>>, limit: nat)
    ensures
        boundary_floor(graphemes, boundary_floor(graphemes, limit)) == boundary_floor(graphemes, limit),
        boundary_floor(graphemes, limit) <= limit,
        boundary_floor(graphemes, limit) <= text_length(graphemes),
{
    let last = floor_index_from(graphemes, 0, limit, 0);
    let boundary = grapheme_offset(graphemes, last as int);
    let again = floor_index_from(graphemes, 0, boundary, 0);
    lemma_floor_index_is_last(graphemes, limit);
    lemma_floor_index_is_last(graphemes, boundary);
    if again < last {
        assert(grapheme_offset(graphemes, last as int) > boundary);
    }
    if last < again {
        assert(grapheme_offset(graphemes, again as int) > limit);
    }
    lemma_offset_monotone(graphemes, last as int, graphemes.len() as int);
}

/// Normalizing a state that is already normalized changes nothing
pub proof fn lemma_normalize_text_state_idempotent(
    graphemes: Seq<Seq<char>>,
    state: (usize, usize, bool),
)
    requires
        text_length(graphemes) <= usize::MAX,
    ensures
        spec_normalize_text_state(graphemes, spec_normalize_text_state(graphemes, state))
            == spec_normalize_text_state(graphemes, state),
{
    let length = text_length(graphemes);
    let cursor_limit: nat = if state.0 < length {
        state.0 as nat
    } else {
        length
    };
    let anchor_limit: nat = if state.1 < length {
        state.1 as nat
    } else {
        length
    };
    lemma_boundary_floor_fixed(graphemes, cursor_limit);
    lemma_boundary_floor_fixed(graphemes, anchor_limit);
    let once = spec_normalize_text_state(graphemes, state);
    assert(once.0 as nat == boundary_floor(graphemes, cursor_limit));
    assert(once.1 as nat == boundary_floor(graphemes, anchor_limit) || once.1 == once.0);
}

/// A larger limit never gives an earlier boundary index
proof fn lemma_floor_index_monotone(
    graphemes: Seq<Seq<char>>,
    index: nat,
    low: nat,
    high: nat,
    low_best: nat,
    high_best: nat,
)
    requires
        low <= high,
        low_best <= high_best <= graphemes.len(),
        low_best <= index,
    ensures
        floor_index_from(graphemes, index, low, low_best) <= floor_index_from(
            graphemes,
            index,
            high,
            high_best,
        ),
        floor_index_from(graphemes, index, high, high_best) <= graphemes.len(),
    decreases graphemes.len() + 1 - index,
{
    if index <= graphemes.len() {
        let offset = grapheme_offset(graphemes, index as int);
        let next_low = if offset <= low {
            index
        } else {
            low_best
        };
        let next_high = if offset <= high {
            index
        } else {
            high_best
        };
        lemma_floor_index_monotone(graphemes, index + 1, low, high, next_low, next_high);
    }
}

fn boundary_floor_index(content: &SelectableTextContent, limit: usize) -> (found: usize)
    ensures
        found == floor_index_from(content@.0, 0, limit as nat, 0),
        found <= content@.0.len(),
{
    let ghost graphemes = content@.0;
    let count = content.grapheme_count();
    proof {
        lemma_floor_index_monotone(graphemes, 0, limit as nat, limit as nat, 0, 0);
    }
    let mut best: usize = 0;
    let mut index: usize = 0;
    while index < count
        invariant
            0 <= index <= count,
            count == graphemes.len(),
            graphemes == content@.0,
            best <= count,
            floor_index_from(graphemes, 0, limit as nat, 0) == floor_index_from(
                graphemes,
                index as nat,
                limit as nat,
                best as nat,
            ),
        decreases count - index,
    {
        if content.offset(index) <= limit {
            best = index;
        }
        index = index + 1;
    }
    if content.offset(count) <= limit {
        best = count;
    }
    assert(floor_index_from(graphemes, (count + 1) as nat, limit as nat, best as nat) == best);
    best
}

fn boundary_floor_of(content: &SelectableTextContent, limit: usize) -> (floor: usize)
    ensures
        floor == boundary_floor(content@.0, limit as nat),
{
    let index = boundary_floor_index(content, limit);
    content.offset(index)
}

fn normalize_selectable_text_state(content: &SelectableTextContent, state: SelectableTextState) -> (normalized:
    SelectableTextState)
    ensures
        normalized@ == spec_normalize_text_state(content@.0, state@),
{
    let length = content.len();
    let cursor = boundary_floor_of(content, if state.cursor < length {
        state.cursor
    } else {
        length
    });
    let anchor = boundary_floor_of(content, if state.selection_anchor < length {
        state.selection_anchor
    } else {
        length
    });
    if !state.has_selection || cursor == anchor {
        SelectableTextState::new(cursor)
    } else {
        SelectableTextState { cursor, selection_anchor: anchor, has_selection: true }
    }
}

fn separator_grapheme(grapheme: &String) -> (separator: bool)
    ensures
        separator == is_word_separator(grapheme@),
{
    let ghost chars = grapheme@;
    let _byte_length = str_byte_len(grapheme.as_str());
    let mut index: usize = 0;
    for character in iter: grapheme.as_str().chars()
        invariant
            iter.seq() == chars,
            chars == grapheme@,
            index == iter.index(),
            0 <= index <= chars.len(),
            utf8_len(chars) <= usize::MAX,
            forall|k: int|
                0 <= k < index ==> (('\t' <= #[trigger] chars[k] && chars[k] <= '\r') || chars[k]
                    == ' '),
    {
        proof {
            crate::text::lemma_utf8_len_prefix(chars, index + 1);
        }
        if !(('\t' <= character && character <= '\r') || character == ' ') {
            assert(!(('\t' <= chars[index as int] && chars[index as int] <= '\r') || chars[index as int] == ' '));
            return false;
        }
        index = index + 1;
    }
    true
}

fn line_break_grapheme(grapheme: &String) -> (line_break: bool)
    ensures
        line_break == is_line_break(grapheme@),
{
    let mut carriage = String::new();
    carriage.push('\r');
    let mut feed = String::new();
    feed.push('\n');
    let mut both = String::new();
    both.push('\r');
    both.push('\n');
    assert(carriage@ =~= seq!['\r']);
    assert(feed@ =~= seq!['\n']);
    assert(both@ =~= seq!['\r', '\n']);
    *grapheme == carriage || *grapheme == feed || *grapheme == both
}

/// The boundary before the cursor, zero at the start
pub fn previous_cursor(content: &SelectableTextContent, cursor: usize) -> (previous: usize)
    ensures
        previous == spec_previous_cursor(content@.0, cursor as nat),
{
    if cursor == 0 {
        0
    } else {
        boundary_floor_of(content, cursor - 1)
    }
}

/// The boundary after the cursor, the text length at the end
pub fn next_cursor(content: &SelectableTextContent, cursor: usize) -> (next: usize)
    ensures
        next == spec_next_cursor(content@.0, cursor as nat),
{
    let ghost graphemes = content@.0;
    let count = content.grapheme_count();
    let mut index: usize = 0;
    while index < count
        invariant
            0 <= index <= count,
            count == graphemes.len(),
            graphemes == content@.0,
            ceiling_from(graphemes, 0, cursor as nat) == ceiling_from(
                graphemes,
                index as nat,
                cursor as nat,
            ),
        decreases count - index,
    {
        let offset = content.offset(index);
        if offset > cursor {
            return offset;
        }
        index = index + 1;
    }
    let end = content.offset(count);
    if end > cursor {
        end
    } else {
        assert(ceiling_from(graphemes, (count + 1) as nat, cursor as nat) == text_length(graphemes));
        content.len()
    }
}

fn graphemes_before(content: &SelectableTextContent, cursor: usize) -> (count: usize)
    ensures
        count == graphemes_before_from(content@.0, 0, cursor as nat),
        count <= content@.0.len(),
{
    let ghost graphemes = content@.0;
    let total = content.grapheme_count();
    let mut index: usize = 0;
    while index < total && content.offset(index + 1) <= cursor
        invariant
            0 <= index <= total,
            total == graphemes.len(),
            graphemes == content@.0,
            graphemes_before_from(graphemes, 0, cursor as nat) == graphemes_before_from(
                graphemes,
                index as nat,
                cursor as nat,
            ),
        decreases total - index,
    {
        index = index + 1;
    }
    index
}

/// The start of the word before the cursor
pub fn previous_word(content: &SelectableTextContent, cursor: usize) -> (start: usize)
    ensures
        start == spec_previous_word(content@.0, cursor as nat),
{
    let ghost graphemes = content@.0;
    let end = graphemes_before(content, cursor);
    let mut start: usize = 0;
    let mut in_word = false;
    let mut index: usize = 0;
    while index < end
        invariant
            0 <= index <= end <= graphemes.len(),
            graphemes == content@.0,
            spec_previous_word(graphemes, cursor as nat) == word_start_from(
                graphemes,
                index as nat,
                end as nat,
                in_word,
                start as nat,
            ),
        decreases end - index,
    {
        if separator_grapheme(content.grapheme(index)) {
            in_word = false;
        } else if !in_word {
            start = content.offset(index);
            in_word = true;
        }
        index = index + 1;
    }
    start
}

/// The start of the word after the cursor
pub fn next_word(content: &SelectableTextContent, cursor: usize) -> (next: usize)
    ensures
        next == spec_next_word(content@.0, cursor as nat),
{
    let ghost graphemes = content@.0;
    let first = graphemes_before(content, cursor);
    let count = content.grapheme_count();
    let mut saw_word = false;
    let mut saw_separator = false;
    let mut index = first;
    while index < count
        invariant
            first <= index <= count,
            count == graphemes.len(),
            graphemes == content@.0,
            spec_next_word(graphemes, cursor as nat) == next_word_from(
                graphemes,
                index as nat,
                first as nat,
                saw_word,
                saw_separator,
            ),
        decreases count - index,
    {
        let separator = separator_grapheme(content.grapheme(index));
        if !separator && !saw_word {
            if index != first {
                return content.offset(index);
            }
            saw_word = true;
        } else if separator && saw_word {
            saw_separator = true;
        } else if !separator && saw_separator {
            return content.offset(index);
        }
        index = index + 1;
    }
    content.len()
}

/// The byte range of the line holding the cursor, without its line break
pub fn current_line(content: &SelectableTextContent, cursor: usize) -> (line: Range<usize>)
    ensures
        (line.start as nat, line.end as nat) == spec_current_line(content@.0, cursor as nat),
{
    let ghost graphemes = content@.0;
    let count = content.grapheme_count();
    let mut start: usize = 0;
    let mut index: usize = 0;
    while index < count
        invariant
            0 <= index <= count,
            count == graphemes.len(),
            graphemes == content@.0,
            spec_current_line(graphemes, cursor as nat) == line_from(
                graphemes,
                index as nat,
                cursor as nat,
                start as nat,
            ),
        decreases count - index,
    {
        if line_break_grapheme(content.grapheme(index)) {
            let break_start = content.offset(index);
            if cursor >= start && cursor <= break_start {
                return start..break_start;
            }
            start = content.offset(index + 1);
        }
        index = index + 1;
    }
    start..content.len()
}

// ---------------------------------------------------------------------------
// Commands
// ---------------------------------------------------------------------------

/// Keyboard commands understood by selectable text
#[derive(Clone, Copy, Debug, PartialEq, Eq, Structural, Hash)]
pub enum SelectableTextAction {
    /// Moves one grapheme left, or to the start of the selection
    CursorLeft,
    /// Moves one grapheme right, or to the end of the selection
    CursorRight,
    /// Moves to the start of the previous word
    CursorWordLeft,
    /// Moves to the start of the next word
    CursorWordRight,
    /// Moves to the start of the line
    CursorLineStart,
    /// Moves to the end of the line
    CursorLineEnd,
    /// Moves to the start of the text
    CursorDocumentStart,
    /// Moves to the end of the text
    CursorDocumentEnd,
    /// Extends the selection one grapheme left
    SelectionExtendLeft,
    /// Extends the selection one grapheme right
    SelectionExtendRight,
    /// Extends the selection to the previous word start
    SelectionExtendWordLeft,
    /// Extends the selection to the next word start
    SelectionExtendWordRight,
    /// Extends the selection to the line start
    SelectionExtendLineStart,
    /// Extends the selection to the line end
    SelectionExtendLineEnd,
    /// Extends the selection to the text start
    SelectionExtendDocumentStart,
    /// Extends the selection to the text end
    SelectionExtendDocumentEnd,
    /// Selects the whole text
    SelectAll,
    /// Requests a copy of the selection
    CopySelection,
    /// Requests a copy of the whole text
    CopyDocument,
}

/// The anchor a movement keeps: the selection anchor, else the cursor
pub open spec fn kept_anchor(state: (usize, usize, bool)) -> usize {
    if state.2 {
        state.1
    } else {
        state.0
    }
}

/// The state after moving the cursor to `target`, extending the selection when asked
pub open spec fn spec_move_text(state: (usize, usize, bool), target: usize, extend: bool) -> (
    usize,
    usize,
    bool,
) {
    if extend {
        (target, kept_anchor(state), target != kept_anchor(state))
    } else {
        (target, target, false)
    }
}

/// The state after one command on normalized `state`
pub open spec fn spec_text_action(
    graphemes: Seq<Seq<char>>,
    state: (usize, usize, bool),
    action: SelectableTextAction,
) -> (usize, usize, bool) {
    let current = spec_normalize_text_state(graphemes, state);
    let cursor = current.0 as nat;
    let low = if current.0 < current.1 {
        current.0
    } else {
        current.1
    };
    let high = if current.0 < current.1 {
        current.1
    } else {
        current.0
    };
    let length = text_length(graphemes) as usize;
    let line = spec_current_line(graphemes, cursor);
    match action {
        SelectableTextAction::CursorLeft => if current.2 {
            (low, low, false)
        } else {
            spec_move_text(current, spec_previous_cursor(graphemes, cursor) as usize, false)
        },
        SelectableTextAction::CursorRight => if current.2 {
            (high, high, false)
        } else {
            spec_move_text(current, spec_next_cursor(graphemes, cursor) as usize, false)
        },
        SelectableTextAction::CursorWordLeft => spec_move_text(
            current,
            spec_previous_word(graphemes, cursor) as usize,
            false,
        ),
        SelectableTextAction::CursorWordRight => spec_move_text(
            current,
            spec_next_word(graphemes, cursor) as usize,
            false,
        ),
        SelectableTextAction::CursorLineStart => spec_move_text(current, line.0 as usize, false),
        SelectableTextAction::CursorLineEnd => spec_move_text(current, line.1 as usize, false),
        SelectableTextAction::CursorDocumentStart => spec_move_text(current, 0, false),
        SelectableTextAction::CursorDocumentEnd => spec_move_text(current, length, false),
        SelectableTextAction::SelectionExtendLeft => spec_move_text(
            current,
            spec_previous_cursor(graphemes, cursor) as usize,
            true,
        ),
        SelectableTextAction::SelectionExtendRight => spec_move_text(
            current,
            spec_next_cursor(graphemes, cursor) as usize,
            true,
        ),
        SelectableTextAction::SelectionExtendWordLeft => spec_move_text(
            current,
            spec_previous_word(graphemes, cursor) as usize,
            true,
        ),
        SelectableTextAction::SelectionExtendWordRight => spec_move_text(
            current,
            spec_next_word(graphemes, cursor) as usize,
            true,
        ),
        SelectableTextAction::SelectionExtendLineStart => spec_move_text(current, line.0 as usize, true),
        SelectableTextAction::SelectionExtendLineEnd => spec_move_text(current, line.1 as usize, true),
        SelectableTextAction::SelectionExtendDocumentStart => spec_move_text(current, 0, true),
        SelectableTextAction::SelectionExtendDocumentEnd => spec_move_text(current, length, true),
        SelectableTextAction::SelectAll => (length, 0, length != 0),
        SelectableTextAction::CopySelection | SelectableTextAction::CopyDocument => current,
    }
}

fn move_selectable_text(state: SelectableTextState, target: usize, extend: bool) -> (next: SelectableTextState)
    ensures
        next@ == spec_move_text(state@, target, extend),
{
    let anchor = if state.has_selection {
        state.selection_anchor
    } else {
        state.cursor
    };
    if extend {
        SelectableTextState::with_selection(target, anchor)
    } else {
        SelectableTextState::new(target)
    }
}

/// The state after one keyboard command
pub fn selectable_text_state_for_action(
    content: &SelectableTextContent,
    state: SelectableTextState,
    action: SelectableTextAction,
) -> (next: SelectableTextState)
    ensures
        next@ == spec_text_action(content@.0, state@, action),
{
    let state = content.normalize_state(state);
    let cursor = state.cursor;
    let length = content.len();
    match action {
        SelectableTextAction::CursorLeft => match state.selection() {
            Some(selection) => SelectableTextState::new(selection.start),
            None => move_selectable_text(state, previous_cursor(content, cursor), false),
        },
        SelectableTextAction::CursorRight => match state.selection() {
            Some(selection) => SelectableTextState::new(selection.end),
            None => move_selectable_text(state, next_cursor(content, cursor), false),
        },
        SelectableTextAction::CursorWordLeft => move_selectable_text(
            state,
            previous_word(content, cursor),
            false,
        ),
        SelectableTextAction::CursorWordRight => move_selectable_text(
            state,
            next_word(content, cursor),
            false,
        ),
        SelectableTextAction::CursorLineStart => move_selectable_text(
            state,
            current_line(content, cursor).start,
            false,
        ),
        SelectableTextAction::CursorLineEnd => move_selectable_text(
            state,
            current_line(content, cursor).end,
            false,
        ),
        SelectableTextAction::CursorDocumentStart => move_selectable_text(state, 0, false),
        SelectableTextAction::CursorDocumentEnd => move_selectable_text(state, length, false),
        SelectableTextAction::SelectionExtendLeft => move_selectable_text(
            state,
            previous_cursor(content, cursor),
            true,
        ),
        SelectableTextAction::SelectionExtendRight => move_selectable_text(
            state,
            next_cursor(content, cursor),
            true,
        ),
        SelectableTextAction::SelectionExtendWordLeft => move_selectable_text(
            state,
            previous_word(content, cursor),
            true,
        ),
        SelectableTextAction::SelectionExtendWordRight => move_selectable_text(
            state,
            next_word(content, cursor),
            true,
        ),
        SelectableTextAction::SelectionExtendLineStart => move_selectable_text(
            state,
            current_line(content, cursor).start,
            true,
        ),
        SelectableTextAction::SelectionExtendLineEnd => move_selectable_text(
            state,
            current_line(content, cursor).end,
            true,
        ),
        SelectableTextAction::SelectionExtendDocumentStart => move_selectable_text(state, 0, true),
        SelectableTextAction::SelectionExtendDocumentEnd => move_selectable_text(
            state,
            length,
            true,
        ),
        SelectableTextAction::SelectAll => SelectableTextState::with_selection(length, 0),
        SelectableTextAction::CopySelection | SelectableTextAction::CopyDocument => state,
    }
}

// ---------------------------------------------------------------------------
// Pointer
// ---------------------------------------------------------------------------

/// The offset a pointer selection reaches in the hit grapheme `start..end`: its start when it
/// lies before the anchor, else its end
pub fn pointer_selection_offset(start: usize, end: usize, anchor: usize) -> (offset: usize)
    ensures
        offset == if end <= anchor {
            start
        } else {
            end
        },
{
    if end <= anchor {
        start
    } else {
        end
    }
}

/// The state after a pointer press on the grapheme `start..end`: with `extend` the selection
/// stretches from the kept anchor, otherwise the cursor collapses at the grapheme start
pub fn pointer_press_state(state: SelectableTextState, start: usize, end: usize, extend: bool) -> (next:
    SelectableTextState)
    ensures
        next@ == if extend {
            let anchor = kept_anchor(state@);
            let offset = if end <= anchor {
                start
            } else {
                end
            };
            (offset, anchor, offset != anchor)
        } else {
            (start, start, false)
        },
{
    if extend {
        let anchor = if state.has_selection {
            state.selection_anchor
        } else {
            state.cursor
        };
        SelectableTextState::with_selection(pointer_selection_offset(start, end, anchor), anchor)
    } else {
        SelectableTextState::new(start)
    }
}

// ---------------------------------------------------------------------------
// Copy requests
// ---------------------------------------------------------------------------

/// A request that owns copied text
#[derive(Debug, PartialEq, Eq)]
pub struct TextCopyRequest {
    source: String,
    kind: TextCopyKind,
    text: String,
    range: Range<usize>,
}

impl View for TextCopyRequest {
    type V = (Seq<char>, TextCopyKind, Seq<char>, (nat, nat));

    closed spec fn view(&self) -> (Seq<char>, TextCopyKind, Seq<char>, (nat, nat)) {
        (self.source@, self.kind, self.text@, (self.range.start as nat, self.range.end as nat))
    }
}

impl TextCopyRequest {
    /// Returns the identity of the view that made the request
    pub fn source(&self) -> (source: &str)
        ensures
            source@ == self@.0,
    {
        self.source.as_str()
    }

    /// Returns whether the selection or the whole text was requested
    pub fn kind(&self) -> (kind: TextCopyKind)
        ensures
            kind == self@.1,
    {
        self.kind
    }

    /// Returns the owned text
    pub fn text(&self) -> (text: &str)
        ensures
            text@ == self@.2,
    {
        self.text.as_str()
    }

    /// Returns the UTF-8 byte range in the text
    pub fn range(&self) -> (range: Range<usize>)
        ensures
            (range.start as nat, range.end as nat) == self@.3,
    {
        self.range.start..self.range.end
    }
}

/// The graphemes from index `start` to index `end`, concatenated
pub open spec fn graphemes_between(graphemes: Seq<Seq<char>>, start: int, end: int) -> Seq<char> {
    joined_graphemes(graphemes.subrange(start, end))
}

fn text_between(content: &SelectableTextContent, start: usize, end: usize) -> (text: String)
    requires
        start <= end <= content@.0.len(),
    ensures
        text@ == graphemes_between(content@.0, start as int, end as int),
{
    let ghost graphemes = content@.0;
    let mut text = String::new();
    let mut index = start;
    proof {
        assert(graphemes.subrange(start as int, start as int) =~= Seq::<Seq<char>>::empty());
    }
    while index < end
        invariant
            start <= index <= end <= graphemes.len(),
            graphemes == content@.0,
            text@ == graphemes_between(graphemes, start as int, index as int),
        decreases end - index,
    {
        proof {
            assert(graphemes.subrange(start as int, index + 1).drop_last() =~= graphemes.subrange(
                start as int,
                index as int,
            ));
        }
        text.push_str(content.grapheme(index).as_str());
        index = index + 1;
    }
    text
}

/// A copy request for the selection or the whole text of normalized `state`, absent for an
/// empty selection
pub fn text_copy_request(
    content: &SelectableTextContent,
    state: SelectableTextState,
    kind: TextCopyKind,
    source: &str,
) -> (request: Option<TextCopyRequest>)
    ensures
        ({
            let graphemes = content@.0;
            let current = spec_normalize_text_state(graphemes, state@);
            let first = floor_index_from(graphemes, 0, if current.0 < current.1 {
                current.0
            } else {
                current.1
            } as nat, 0);
            let last = floor_index_from(graphemes, 0, if current.0 < current.1 {
                current.1
            } else {
                current.0
            } as nat, 0);
            match kind {
                TextCopyKind::Selection => {
                    &&& request is Some == current.2
                    &&& request matches Some(r) ==> r@.0 == source@ && r@.1 == kind && r@.3 == (
                        grapheme_offset(graphemes, first as int),
                        grapheme_offset(graphemes, last as int),
                    ) && r@.2 == graphemes_between(graphemes, first as int, last as int)
                },
                TextCopyKind::Document => request matches Some(r) && r@.0 == source@ && r@.1 == kind
                    && r@.3 == (0nat, text_length(graphemes)) && r@.2 == joined_graphemes(graphemes),
            }
        }),
{
    let state = content.normalize_state(state);
    match kind {
        TextCopyKind::Selection => match state.selection() {
            None => None,
            Some(range) => {
                let first = boundary_floor_index(content, range.start);
                let last = boundary_floor_index(content, range.end);
                proof {
                    lemma_floor_index_monotone(content@.0, 0, range.start as nat, range.end as nat, 0, 0);
                }
                let text = text_between(content, first, last);
                let bounds = content.offset(first)..content.offset(last);
                Some(TextCopyRequest { source: source.to_owned(), kind, text, range: bounds })
            },
        },
        TextCopyKind::Document => {
            let text = content.text().to_owned();
            Some(TextCopyRequest { source: source.to_owned(), kind, text, range: 0..content.len() })
        },
    }
}

/// A grapheme made only of spaces, tabs, line feeds, vertical tabs, form feeds and carriage
/// returns
pub open spec fn is_blank_grapheme(grapheme: Seq<char>) -> bool {
    forall|k: int|
        0 <= k < grapheme.len() ==> {
            let c = #[trigger] grapheme[k];
            c == ' ' || c == '\t' || c == '\n' || c == '\u{b}' || c == '\u{c}' || c == '\r'
        }
}

/// Grapheme `index` begins a word right after blank graphemes
pub open spec fn starts_word_after_blank(graphemes: Seq<Seq<char>>, index: int) -> bool {
    0 < index < graphemes.len() && !is_blank_grapheme(graphemes[index]) && is_blank_grapheme(
        graphemes[index - 1],
    )
}

proof fn lemma_separator_is_blank(grapheme: Seq<char>)
    ensures
        is_word_separator(grapheme) == is_blank_grapheme(grapheme),
{
    assert forall|k: int| 0 <= k < grapheme.len() implies ((('\t' <= #[trigger] grapheme[k]
        && grapheme[k] <= '\r') || grapheme[k] == ' ') <==> {
        let c = grapheme[k];
        c == ' ' || c == '\t' || c == '\n' || c == '\u{b}' || c == '\u{c}' || c == '\r'
    }) by {
    }
}

proof fn lemma_graphemes_before_bound(graphemes: Seq<Seq<char>>, index: nat, cursor: nat)
    requires
        index <= graphemes.len(),
    ensures
        index <= graphemes_before_from(graphemes, index, cursor) <= graphemes.len(),
    decreases graphemes.len() - index,
{
    if index < graphemes.len() && grapheme_offset(graphemes, index + 1int) <= cursor {
        lemma_graphemes_before_bound(graphemes, index + 1, cursor);
    }
}

proof fn lemma_next_word_from(
    graphemes: Seq<Seq<char>>,
    index: nat,
    first: nat,
    saw_word: bool,
    saw_separator: bool,
)
    requires
        first <= index <= graphemes.len(),
        !saw_word ==> forall|k: int| first <= k < index ==> is_blank_grapheme(#[trigger] graphemes[k]),
        saw_word ==> index > first,
        saw_separator ==> saw_word,
        saw_word && !saw_separator ==> !is_blank_grapheme(graphemes[index - 1]),
        saw_word && saw_separator ==> is_blank_grapheme(graphemes[index - 1]),
        forall|k: int| first < k < index ==> !#[trigger] starts_word_after_blank(graphemes, k),
    ensures
        ({
            let result = next_word_from(graphemes, index, first, saw_word, saw_separator);
            ||| exists|j: int|
                first < j < graphemes.len() && #[trigger] starts_word_after_blank(graphemes, j)
                    && result == grapheme_offset(graphemes, j) && forall|k: int|
                    first < k < j ==> !#[trigger] starts_word_after_blank(graphemes, k)
            ||| result == text_length(graphemes) && forall|k: int|
                first < k < graphemes.len() ==> !#[trigger] starts_word_after_blank(graphemes, k)
        }),
    decreases graphemes.len() - index,
{
    if index < graphemes.len() {
        let g = graphemes[index as int];
        lemma_separator_is_blank(g);
        let separator = is_word_separator(g);
        if !separator && !saw_word {
            if index != first {
                assert(is_blank_grapheme(graphemes[index - 1]));
                assert(starts_word_after_blank(graphemes, index as int));
            } else {
                lemma_next_word_from(graphemes, index + 1, first, true, saw_separator);
            }
        } else if separator && saw_word {
            assert(!starts_word_after_blank(graphemes, index as int));
            lemma_next_word_from(graphemes, index + 1, first, saw_word, true);
        } else if !separator && saw_separator {
            assert(starts_word_after_blank(graphemes, index as int));
        } else {
            assert(!starts_word_after_blank(graphemes, index as int));
            assert forall|k: int| first <= k < index + 1 && !saw_word implies is_blank_grapheme(
                #[trigger] graphemes[k],
            ) by {}
            lemma_next_word_from(graphemes, index + 1, first, saw_word, saw_separator);
        }
    }
}

/// Moving to the next word stops at the first grapheme after the cursor's grapheme that begins
/// a word right after blank graphemes (spaces, tabs, line feeds, vertical tabs, form feeds or
/// carriage returns), at the end of the text when there is none
pub proof fn lemma_next_word_stops_after_blank(graphemes: Seq<Seq<char>>, cursor: nat)
    ensures
        ({
            let first = graphemes_before_from(graphemes, 0, cursor);
            let result = spec_next_word(graphemes, cursor);
            ||| exists|j: int|
                first < j < graphemes.len() && #[trigger] starts_word_after_blank(graphemes, j)
                    && result == grapheme_offset(graphemes, j) && forall|k: int|
                    first < k < j ==> !#[trigger] starts_word_after_blank(graphemes, k)
            ||| result == text_length(graphemes) && forall|k: int|
                first < k < graphemes.len() ==> !#[trigger] starts_word_after_blank(graphemes, k)
        }),
{
    lemma_graphemes_before_bound(graphemes, 0, cursor);
    let first = graphemes_before_from(graphemes, 0, cursor);
    lemma_next_word_from(graphemes, first, first, false, false);
}

/// Grapheme `index` begins a word: it is not blank, and it is the first grapheme or follows a
/// blank one
pub open spec fn begins_word(graphemes: Seq<Seq<char>>, index: int) -> bool {
    0 <= index < graphemes.len() && !is_blank_grapheme(graphemes[index]) && (index == 0
        || is_blank_grapheme(graphemes[index - 1]))
}

/// `start` is the offset of the last word beginning before grapheme `index`, zero when none
pub open spec fn last_word_start_before(graphemes: Seq<Seq<char>>, index: int, start: nat) -> bool {
    ||| exists|j: int|
        0 <= j < index && #[trigger] begins_word(graphemes, j) && start == grapheme_offset(graphemes, j)
            && forall|k: int| j < k < index ==> !#[trigger] begins_word(graphemes, k)
    ||| start == 0 && forall|k: int| 0 <= k < index ==> !#[trigger] begins_word(graphemes, k)
}

proof fn lemma_word_start_from(
    graphemes: Seq<Seq<char>>,
    index: nat,
    end: nat,
    in_word: bool,
    start: nat,
)
    requires
        index <= end <= graphemes.len(),
        in_word <==> (index > 0 && !is_blank_grapheme(graphemes[index - 1])),
        last_word_start_before(graphemes, index as int, start),
    ensures
        last_word_start_before(graphemes, end as int, word_start_from(graphemes, index, end, in_word, start)),
    decreases end - index,
{
    if index < end {
        let g = graphemes[index as int];
        lemma_separator_is_blank(g);
        if is_word_separator(g) {
            assert(!begins_word(graphemes, index as int));
            if exists|j: int|
                0 <= j < index && #[trigger] begins_word(graphemes, j) && start == grapheme_offset(graphemes, j)
                    && forall|k: int| j < k < index ==> !#[trigger] begins_word(graphemes, k) {
                let j = choose|j: int|
                    0 <= j < index && #[trigger] begins_word(graphemes, j) && start == grapheme_offset(graphemes, j)
                        && forall|k: int| j < k < index ==> !#[trigger] begins_word(graphemes, k);
                assert(forall|k: int| j < k < index + 1 ==> !#[trigger] begins_word(graphemes, k));
            }
            lemma_word_start_from(graphemes, index + 1, end, false, start);
        } else if !in_word {
            assert(begins_word(graphemes, index as int));
            let next = grapheme_offset(graphemes, index as int);
            assert(last_word_start_before(graphemes, index + 1int, next));
            lemma_word_start_from(graphemes, index + 1, end, true, next);
        } else {
            assert(!begins_word(graphemes, index as int));
            if exists|j: int|
                0 <= j < index && #[trigger] begins_word(graphemes, j) && start == grapheme_offset(graphemes, j)
                    && forall|k: int| j < k < index ==> !#[trigger] begins_word(graphemes, k) {
                let j = choose|j: int|
                    0 <= j < index && #[trigger] begins_word(graphemes, j) && start == grapheme_offset(graphemes, j)
                        && forall|k: int| j < k < index ==> !#[trigger] begins_word(graphemes, k);
                assert(forall|k: int| j < k < index + 1 ==> !#[trigger] begins_word(graphemes, k));
            }
            lemma_word_start_from(graphemes, index + 1, end, true, start);
        }
    }
}

/// Moving to the previous word stops at the start of the last word that begins before the
/// cursor's grapheme, a word beginning at a non-blank grapheme that opens the text or follows
/// blank graphemes (spaces, tabs, line feeds, vertical tabs, form feeds or carriage returns);
/// at the start of the text when there is none
pub proof fn lemma_previous_word_stops_at_word_start(graphemes: Seq<Seq<char>>, cursor: nat)
    ensures
        last_word_start_before(
            graphemes,
            graphemes_before_from(graphemes, 0, cursor) as int,
            spec_previous_word(graphemes, cursor),
        ),
{
    lemma_graphemes_before_bound(graphemes, 0, cursor);
    lemma_word_start_from(graphemes, 0, graphemes_before_from(graphemes, 0, cursor), false, 0);
}

} // verus!
