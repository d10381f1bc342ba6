use vstd::prelude::*;

use crate::composer::ComposerOverflowPolicy;
use crate::selectable_text::{
    grapheme_offset, grapheme_texts, joined_graphemes, lemma_offset_monotone, lemma_offset_step,
    lemma_offset_zero, text_length,
};
use crate::text::{str_byte_len, utf8_len};
use crate::text_area::{TextAreaModel, TextAreaState};

verus! {

/// What a composer length limit counts
#[derive(Clone, Copy, Debug, PartialEq, Eq, Structural, Hash)]
pub enum ComposerLengthUnit {
    /// UTF-8 bytes of the text
    Utf8Bytes,
    /// Grapheme clusters of the text
    Graphemes,
}

/// A maximum length that future insertions respect; existing text is never rewritten
#[derive(Clone, Copy, Debug, PartialEq, Eq, Structural, Hash)]
pub struct ComposerLengthLimit {
    pub maximum: usize,
    pub unit: ComposerLengthUnit,
    pub overflow: ComposerOverflowPolicy,
}

impl ComposerLengthLimit {
    /// Limits future insertion by UTF-8 bytes
    pub fn utf8_bytes(maximum: usize, overflow: ComposerOverflowPolicy) -> (limit: Self)
        ensures
            limit == (ComposerLengthLimit {
                maximum,
                unit: ComposerLengthUnit::Utf8Bytes,
                overflow,
            }),
    {
        ComposerLengthLimit { maximum, unit: ComposerLengthUnit::Utf8Bytes, overflow }
    }

    /// Limits future insertion by grapheme count
    pub fn graphemes(maximum: usize, overflow: ComposerOverflowPolicy) -> (limit: Self)
        ensures
            limit == (ComposerLengthLimit {
                maximum,
                unit: ComposerLengthUnit::Graphemes,
                overflow,
            }),
    {
        ComposerLengthLimit { maximum, unit: ComposerLengthUnit::Graphemes, overflow }
    }
}

/// How an editor treats a proposed insertion
#[derive(Debug, PartialEq, Eq)]
pub enum TextAreaInsertionDecision {
    /// Insert the proposed text as it is
    Accept,
    /// Leave the editor unchanged
    Reject,
    /// Insert this text in place of the proposed one
    Replace(String),
}

/// `left - right`, or zero when `right` is larger
pub open spec fn saturating_difference(left: int, right: int) -> nat {
    if left <= right {
        0
    } else {
        (left - right) as nat
    }
}

/// The UTF-8 bytes between the cursor and the selection anchor
pub open spec fn selection_bytes(model: TextAreaModel) -> nat {
    match model.2 {
        Some(anchor) => saturating_difference(model.1 as int, anchor as int)
            + saturating_difference(anchor as int, model.1 as int),
        None => 0,
    }
}

/// The length of the text that an insertion keeps, in the limit's unit: all of it but the
/// selection, which the insertion replaces; grapheme counts are supplied by the caller
pub open spec fn retained_length(
    unit: ComposerLengthUnit,
    model: TextAreaModel,
    value_graphemes: nat,
    selected_graphemes: nat,
) -> nat {
    match unit {
        ComposerLengthUnit::Utf8Bytes => saturating_difference(
            utf8_len(model.0) as int,
            selection_bytes(model) as int,
        ),
        ComposerLengthUnit::Graphemes => saturating_difference(
            value_graphemes as int,
            selected_graphemes as int,
        ),
    }
}

/// The length of the first `count` graphemes, in the limit's unit
pub open spec fn prefix_length(unit: ComposerLengthUnit, graphemes: Seq<Seq<char>>, count: nat) -> nat {
    match unit {
        ComposerLengthUnit::Utf8Bytes => grapheme_offset(graphemes, count as int),
        ComposerLengthUnit::Graphemes => count,
    }
}

/// Whether `count` leading graphemes fit in `available` bytes and one more would not
pub open spec fn is_byte_fit(graphemes: Seq<Seq<char>>, available: nat, count: nat) -> bool {
    &&& count <= graphemes.len()
    &&& grapheme_offset(graphemes, count as int) <= available
    &&& count < graphemes.len() ==> grapheme_offset(graphemes, count + 1int) > available
}

/// The number of leading graphemes that fit in `available` units
pub open spec fn fitting_graphemes(
    unit: ComposerLengthUnit,
    graphemes: Seq<Seq<char>>,
    available: nat,
) -> nat {
    match unit {
        ComposerLengthUnit::Utf8Bytes => choose|count: nat| is_byte_fit(graphemes, available, count),
        ComposerLengthUnit::Graphemes => if available < graphemes.len() {
            available
        } else {
            graphemes.len()
        },
    }
}

/// Whether the whole insertion fits the limit; the largest `usize` admits any length
pub open spec fn insertion_fits(limit: ComposerLengthLimit, retained: nat, graphemes: Seq<Seq<char>>) -> bool {
    ||| retained + prefix_length(limit.unit, graphemes, graphemes.len()) <= limit.maximum
    ||| limit.maximum == usize::MAX
}

/// The decision that truncation to `count` leading graphemes gives: the whole insertion
/// when those graphemes cover all its bytes, their text otherwise
pub open spec fn is_truncation(decision: TextAreaInsertionDecision, graphemes: Seq<Seq<char>>, count: nat) -> bool {
    if grapheme_offset(graphemes, count as int) == text_length(graphemes) {
        decision is Accept
    } else {
        decision matches TextAreaInsertionDecision::Replace(text) && text@ == joined_graphemes(
            graphemes.take(count as int),
        )
    }
}

/// Some count of leading graphemes is the longest that fits, searching from `count`
proof fn lemma_byte_fit_from(graphemes: Seq<Seq<char>>, available: nat, count: nat)
    requires
        count <= graphemes.len(),
        grapheme_offset(graphemes, count as int) <= available,
    ensures
        exists|fit: nat| is_byte_fit(graphemes, available, fit),
    decreases graphemes.len() - count,
{
    if count < graphemes.len() && grapheme_offset(graphemes, count + 1int) <= available {
        lemma_byte_fit_from(graphemes, available, count + 1);
    } else {
        assert(is_byte_fit(graphemes, available, count));
    }
}

/// At most one count of leading graphemes is the longest that fits
proof fn lemma_byte_fit_unique(graphemes: Seq<Seq<char>>, available: nat, first: nat, second: nat)
    requires
        is_byte_fit(graphemes, available, first),
        is_byte_fit(graphemes, available, second),
    ensures
        first == second,
{
    if first < second {
        lemma_offset_monotone(graphemes, first + 1int, second as int);
    } else if second < first {
        lemma_offset_monotone(graphemes, second + 1int, first as int);
    }
}

/// The longest fitting count of leading graphemes is the chosen one
proof fn lemma_byte_fit_is_chosen(graphemes: Seq<Seq<char>>, available: nat, count: nat)
    requires
        is_byte_fit(graphemes, available, count),
    ensures
        fitting_graphemes(ComposerLengthUnit::Utf8Bytes, graphemes, available) == count,
{
    let chosen = choose|fit: nat| is_byte_fit(graphemes, available, fit);
    lemma_byte_fit_unique(graphemes, available, chosen, count);
}

/// Truncation keeps the longest grapheme-aligned prefix that fits: when the kept text
/// itself is within the limit, the prefix fits and one more grapheme would not
pub proof fn lemma_truncation_keeps_longest_fit(
    limit: ComposerLengthLimit,
    retained: nat,
    graphemes: Seq<Seq<char>>,
)
    requires
        retained <= limit.maximum,
    ensures
        ({
            let count = fitting_graphemes(
                limit.unit,
                graphemes,
                saturating_difference(limit.maximum as int, retained as int),
            );
            &&& count <= graphemes.len()
            &&& retained + prefix_length(limit.unit, graphemes, count) <= limit.maximum
            &&& count < graphemes.len() ==> retained + prefix_length(limit.unit, graphemes, count + 1)
                > limit.maximum
        }),
{
    let available = saturating_difference(limit.maximum as int, retained as int);
    if limit.unit == ComposerLengthUnit::Utf8Bytes {
        lemma_offset_zero(graphemes);
        lemma_byte_fit_from(graphemes, available, 0);
        let chosen = choose|fit: nat| is_byte_fit(graphemes, available, fit);
        assert(is_byte_fit(graphemes, available, chosen));
    }
}

/// The byte offsets of every grapheme boundary of `graphemes`, the text length last
fn grapheme_offsets(graphemes: &[String]) -> (offsets: Vec<usize>)
    requires
        text_length(grapheme_texts(graphemes@)) <= usize::MAX,
    ensures
        offsets@.len() == graphemes@.len() + 1,
        forall|index: int|
            0 <= index <= graphemes@.len() ==> #[trigger] offsets@[index] == grapheme_offset(
                grapheme_texts(graphemes@),
                index,
            ),
{
    let ghost texts = grapheme_texts(graphemes@);
    let mut offsets: Vec<usize> = Vec::new();
    proof {
        lemma_offset_zero(texts);
    }
    offsets.push(0);
    let mut offset: usize = 0;
    let mut index: usize = 0;
    while index < graphemes.len()
        invariant
            0 <= index <= graphemes@.len(),
            texts == grapheme_texts(graphemes@),
            text_length(texts) <= usize::MAX,
            offset == grapheme_offset(texts, index as int),
            offsets@.len() == index + 1,
            forall|k: int| 0 <= k <= index ==> #[trigger] offsets@[k] == grapheme_offset(texts, k),
        decreases graphemes@.len() - index,
    {
        proof {
            lemma_offset_step(texts, index as int);
            lemma_offset_monotone(texts, index + 1, texts.len() as int);
        }
        let width = str_byte_len(graphemes[index].as_str());
        offset = offset + width;
        offsets.push(offset);
        index = index + 1;
    }
    offsets
}

/// The text of the first `count` graphemes
fn joined_prefix(graphemes: &[String], count: usize) -> (text: String)
    requires
        count <= graphemes@.len(),
    ensures
        text@ == joined_graphemes(grapheme_texts(graphemes@).take(count as int)),
{
    let ghost texts = grapheme_texts(graphemes@);
    let mut text = String::new();
    proof {
        assert(texts.take(0) =~= Seq::<Seq<char>>::empty());
    }
    let mut index: usize = 0;
    while index < count
        invariant
            0 <= index <= count <= graphemes@.len(),
            texts == grapheme_texts(graphemes@),
            text@ == joined_graphemes(texts.take(index as int)),
        decreases count - index,
    {
        proof {
            assert(texts.take(index + 1).drop_last() =~= texts.take(index as int));
            assert(texts.take(index + 1).last() == graphemes@[index as int]@);
        }
        text.push_str(graphemes[index].as_str());
        index = index + 1;
    }
    text
}

/// Decides how a composer with a length limit treats inserting the text made of the
/// grapheme clusters `inserted`, which replaces the editor's selection
///
/// The text kept besides the insertion is measured in the limit's unit: by the editor's
/// UTF-8 bytes, or by `value_graphemes` and `selected_graphemes`, the grapheme counts of the
/// editor text and of its selection, which can be no more than the text's characters; the
/// inserted graphemes are non-empty. A fitting insertion is accepted; one that does not fit is
/// rejected, or truncated to the longest grapheme-aligned prefix that fits
pub fn composer_insertion_decision(
    limit: ComposerLengthLimit,
    state: &TextAreaState,
    value_graphemes: usize,
    selected_graphemes: usize,
    inserted: &[String],
) -> (decision: TextAreaInsertionDecision)
    requires
        text_length(grapheme_texts(inserted@)) <= usize::MAX,
        forall|index: int| 0 <= index < inserted@.len() ==> (#[trigger] inserted@[index])@.len() > 0,
        selected_graphemes <= value_graphemes <= state@.0.len(),
    ensures
        ({
            let graphemes = grapheme_texts(inserted@);
            let retained = retained_length(
                limit.unit,
                state@,
                value_graphemes as nat,
                selected_graphemes as nat,
            );
            &&& insertion_fits(limit, retained, graphemes) ==> decision is Accept
            &&& !insertion_fits(limit, retained, graphemes) && limit.overflow
                == ComposerOverflowPolicy::Reject ==> decision is Reject
            &&& !insertion_fits(limit, retained, graphemes) && limit.overflow
                == ComposerOverflowPolicy::Truncate ==> is_truncation(
                decision,
                graphemes,
                fitting_graphemes(
                    limit.unit,
                    graphemes,
                    saturating_difference(limit.maximum as int, retained as int),
                ),
            )
        }),
{
    let ghost graphemes = grapheme_texts(inserted@);
    let ghost retained_spec = retained_length(
        limit.unit,
        state@,
        value_graphemes as nat,
        selected_graphemes as nat,
    );
    let retained = match limit.unit {
        ComposerLengthUnit::Utf8Bytes => {
            let length = str_byte_len(state.value());
            let cursor = state.cursor();
            let selected = match state.selection_anchor() {
                Some(anchor) => if anchor <= cursor {
                    cursor - anchor
                } else {
                    anchor - cursor
                },
                None => 0,
            };
            length.saturating_sub(selected)
        },
        ComposerLengthUnit::Graphemes => value_graphemes.saturating_sub(selected_graphemes),
    };
    assert(retained == retained_spec);
    let offsets = grapheme_offsets(inserted);
    let total = offsets[inserted.len()];
    let inserted_length = match limit.unit {
        ComposerLengthUnit::Utf8Bytes => total,
        ComposerLengthUnit::Graphemes => inserted.len(),
    };
    assert(graphemes.len() == inserted@.len());
    assert(inserted_length == prefix_length(limit.unit, graphemes, graphemes.len()));
    if retained.saturating_add(inserted_length) <= limit.maximum {
        return TextAreaInsertionDecision::Accept;
    }
    if limit.overflow == ComposerOverflowPolicy::Reject {
        return TextAreaInsertionDecision::Reject;
    }
    let available = limit.maximum.saturating_sub(retained);
    let count = match limit.unit {
        ComposerLengthUnit::Utf8Bytes => {
            let mut count: usize = 0;
            proof {
                lemma_offset_zero(graphemes);
            }
            while count < inserted.len()
                invariant
                    0 <= count <= inserted@.len(),
                    graphemes == grapheme_texts(inserted@),
                    offsets@.len() == inserted@.len() + 1,
                    forall|index: int|
                        0 <= index <= inserted@.len() ==> #[trigger] offsets@[index]
                            == grapheme_offset(graphemes, index),
                    grapheme_offset(graphemes, count as int) <= available,
                ensures
                    is_byte_fit(graphemes, available as nat, count as nat),
                decreases inserted@.len() - count,
            {
                if offsets[count + 1] > available {
                    break;
                }
                count = count + 1;
            }
            proof {
                lemma_byte_fit_is_chosen(graphemes, available as nat, count as nat);
            }
            count
        },
        ComposerLengthUnit::Graphemes => if available < inserted.len() {
            available
        } else {
            inserted.len()
        },
    };
    if offsets[count] == total {
        TextAreaInsertionDecision::Accept
    } else {
        TextAreaInsertionDecision::Replace(joined_prefix(inserted, count))
    }
}

/// The editor height of a composer: its content rows clamped between the row bounds, with
/// the minimum at least one row and the maximum at least the minimum
pub fn composer_visible_rows(content_rows: usize, min_rows: u32, max_rows: u32) -> (rows: u32)
    ensures
        ({
            let minimum: int = if min_rows == 0 {
                1
            } else {
                min_rows as int
            };
            let maximum: int = if max_rows < minimum {
                minimum
            } else {
                max_rows as int
            };
            rows == (if content_rows < minimum {
                minimum
            } else if content_rows > maximum {
                maximum
            } else {
                content_rows as int
            })
        }),
{
    let minimum: u32 = if min_rows == 0 {
        1
    } else {
        min_rows
    };
    let maximum: u32 = if max_rows < minimum {
        minimum
    } else {
        max_rows
    };
    if content_rows < minimum as usize {
        minimum
    } else if content_rows > maximum as usize {
        maximum
    } else {
        content_rows as u32
    }
}

} // verus!
