use vstd::prelude::*;

use crate::event::{InputEvent, KeyAction, KeyCode, Modifiers};
use crate::suggestion::SuggestionId;
use crate::text::{
    decimal_digit, decimal_text, lemma_utf8_len_concat, lemma_utf8_len_prefix, push_decimal_u64,
    str_byte_len, utf8_len,
};

verus! {

/// The text `suggestion-row:`
pub open spec fn row_id_prefix() -> Seq<char> {
    seq!['s', 'u', 'g', 'g', 'e', 's', 't', 'i', 'o', 'n', '-', 'r', 'o', 'w', ':']
}

/// A text and its UTF-8 length, framed as the length, a colon, then the text
pub open spec fn length_framed(text: Seq<char>) -> Seq<char> {
    decimal_text(utf8_len(text)) + seq![':'] + text
}

/// The identity of the row showing `candidate` in the popup `popup`: `suggestion-row:`, then
/// the popup and the candidate identities each framed by its UTF-8 length and joined by a
/// colon
pub open spec fn spec_suggestion_row_id(popup: Seq<char>, candidate: Seq<char>) -> Seq<char> {
    row_id_prefix() + length_framed(popup) + seq![':'] + length_framed(candidate)
}

/// Builds the identity of the row showing `candidate` in the popup `popup`
pub fn suggestion_row_id(popup: &str, candidate: &SuggestionId) -> (id: String)
    ensures
        id@ == spec_suggestion_row_id(popup@, candidate@),
{
    let candidate = candidate.as_str();
    let mut id = String::new();
    id.push('s');
    id.push('u');
    id.push('g');
    id.push('g');
    id.push('e');
    id.push('s');
    id.push('t');
    id.push('i');
    id.push('o');
    id.push('n');
    id.push('-');
    id.push('r');
    id.push('o');
    id.push('w');
    id.push(':');
    push_decimal_u64(&mut id, str_byte_len(popup) as u64);
    id.push(':');
    id.push_str(popup);
    id.push(':');
    push_decimal_u64(&mut id, str_byte_len(candidate) as u64);
    id.push(':');
    id.push_str(candidate);
    proof {
        assert(id@ =~= spec_suggestion_row_id(popup@, candidate@));
    }
    id
}

/// A decimal spelling holds digits only, never a colon
proof fn lemma_decimal_text_has_no_colon(value: nat)
    ensures
        !decimal_text(value).contains(':'),
        decimal_text(value).len() >= 1,
    decreases value,
{
    if value >= 10 {
        lemma_decimal_text_has_no_colon(value / 10);
        let text = decimal_text(value);
        assert(text == decimal_text(value / 10) + seq![decimal_digit(value % 10)]);
        if text.contains(':') {
            let index = choose|index: int| 0 <= index < text.len() && text[index] == ':';
            if index < text.len() - 1 {
                assert(decimal_text(value / 10)[index] == ':');
            }
        }
    }
}

/// Different digit values have different digit characters
proof fn lemma_decimal_digit_injective(first: nat, second: nat)
    requires
        first < 10,
        second < 10,
        decimal_digit(first) == decimal_digit(second),
    ensures
        first == second,
{
    assert(decimal_digit(first) as int == first + 48);
    assert(decimal_digit(second) as int == second + 48);
}

/// Different numbers have different decimal spellings
proof fn lemma_decimal_text_injective(first: nat, second: nat)
    requires
        decimal_text(first) == decimal_text(second),
    ensures
        first == second,
    decreases first,
{
    lemma_decimal_text_has_no_colon(first / 10);
    lemma_decimal_text_has_no_colon(second / 10);
    if first >= 10 && second >= 10 {
        let left = decimal_text(first);
        let right = decimal_text(second);
        assert(left.drop_last() =~= decimal_text(first / 10));
        assert(right.drop_last() =~= decimal_text(second / 10));
        assert(left.last() == decimal_digit(first % 10));
        assert(right.last() == decimal_digit(second % 10));
        lemma_decimal_digit_injective(first % 10, second % 10);
        lemma_decimal_text_injective(first / 10, second / 10);
    } else if first >= 10 {
        assert(decimal_text(first).len() >= 2);
    } else if second >= 10 {
        assert(decimal_text(second).len() >= 2);
    } else {
        assert(decimal_text(first)[0] == decimal_digit(first));
        assert(decimal_text(second)[0] == decimal_digit(second));
        lemma_decimal_digit_injective(first, second);
    }
}

/// Two colon-free heads followed by a colon split equal texts at the same place
proof fn lemma_split_at_first_colon(
    first_head: Seq<char>,
    first_tail: Seq<char>,
    second_head: Seq<char>,
    second_tail: Seq<char>,
)
    requires
        !first_head.contains(':'),
        !second_head.contains(':'),
        first_head + seq![':'] + first_tail == second_head + seq![':'] + second_tail,
    ensures
        first_head == second_head,
        first_tail == second_tail,
{
    let whole = first_head + seq![':'] + first_tail;
    if first_head.len() < second_head.len() {
        assert(whole[first_head.len() as int] == ':');
        assert(second_head[first_head.len() as int] == ':');
    } else if second_head.len() < first_head.len() {
        assert(whole[second_head.len() as int] == ':');
        assert(first_head[second_head.len() as int] == ':');
    }
    assert(first_head =~= whole.take(first_head.len() as int));
    assert(second_head =~= whole.take(second_head.len() as int));
    assert(first_tail =~= whole.skip(first_head.len() + 1int));
    assert(second_tail =~= whole.skip(second_head.len() + 1int));
}

/// Of two texts that start a third one, those with one UTF-8 length are equal
proof fn lemma_prefix_of_length(first: Seq<char>, first_rest: Seq<char>, second: Seq<char>, second_rest: Seq<char>)
    requires
        first + first_rest == second + second_rest,
        utf8_len(first) == utf8_len(second),
    ensures
        first == second,
        first_rest == second_rest,
{
    let whole = first + first_rest;
    if first.len() < second.len() {
        assert(second =~= first + second.skip(first.len() as int)) by {
            assert forall|index: int| 0 <= index < first.len() implies second[index] == first[index] by {
                assert(whole[index] == first[index]);
                assert(whole[index] == second[index]);
            }
        }
        lemma_utf8_len_concat(first, second.skip(first.len() as int));
        lemma_utf8_len_prefix(second.skip(first.len() as int), 1);
    } else if second.len() < first.len() {
        assert(first =~= second + first.skip(second.len() as int)) by {
            assert forall|index: int| 0 <= index < second.len() implies first[index] == second[index] by {
                assert(whole[index] == first[index]);
                assert(whole[index] == second[index]);
            }
        }
        lemma_utf8_len_concat(second, first.skip(second.len() as int));
        lemma_utf8_len_prefix(first.skip(second.len() as int), 1);
    }
    assert(first =~= whole.take(first.len() as int));
    assert(second =~= whole.take(second.len() as int));
    assert(first_rest =~= whole.skip(first.len() as int));
    assert(second_rest =~= whole.skip(second.len() as int));
}

/// Framing by length keeps a text apart from whatever follows it
proof fn lemma_framed_split(first: Seq<char>, first_rest: Seq<char>, second: Seq<char>, second_rest: Seq<char>)
    requires
        length_framed(first) + first_rest == length_framed(second) + second_rest,
    ensures
        first == second,
        first_rest == second_rest,
{
    lemma_decimal_text_has_no_colon(utf8_len(first));
    lemma_decimal_text_has_no_colon(utf8_len(second));
    assert(length_framed(first) + first_rest =~= decimal_text(utf8_len(first)) + seq![':'] + (first
        + first_rest));
    assert(length_framed(second) + second_rest =~= decimal_text(utf8_len(second)) + seq![':'] + (
    second + second_rest));
    lemma_split_at_first_colon(
        decimal_text(utf8_len(first)),
        first + first_rest,
        decimal_text(utf8_len(second)),
        second + second_rest,
    );
    lemma_decimal_text_injective(utf8_len(first), utf8_len(second));
    lemma_prefix_of_length(first, first_rest, second, second_rest);
}

/// Row identities never collide: rows of different popups or different candidates get
/// different identities, whatever colons or digits the identities hold
pub proof fn lemma_suggestion_row_ids_distinct(
    first_popup: Seq<char>,
    first_candidate: Seq<char>,
    second_popup: Seq<char>,
    second_candidate: Seq<char>,
)
    requires
        spec_suggestion_row_id(first_popup, first_candidate) == spec_suggestion_row_id(
            second_popup,
            second_candidate,
        ),
    ensures
        first_popup == second_popup,
        first_candidate == second_candidate,
{
    let first = spec_suggestion_row_id(first_popup, first_candidate);
    let second = spec_suggestion_row_id(second_popup, second_candidate);
    let first_body = length_framed(first_popup) + (seq![':'] + length_framed(first_candidate));
    let second_body = length_framed(second_popup) + (seq![':'] + length_framed(second_candidate));
    assert(first =~= row_id_prefix() + first_body);
    assert(second =~= row_id_prefix() + second_body);
    assert(first_body =~= first.skip(15));
    assert(second_body =~= second.skip(15));
    lemma_framed_split(
        first_popup,
        seq![':'] + length_framed(first_candidate),
        second_popup,
        seq![':'] + length_framed(second_candidate),
    );
    assert(length_framed(first_candidate) =~= (seq![':'] + length_framed(first_candidate)).skip(1));
    assert(length_framed(second_candidate) =~= (seq![':'] + length_framed(second_candidate)).skip(1));
    lemma_framed_split(first_candidate, Seq::empty(), second_candidate, Seq::empty());
}

/// An unmodified repeat of Enter or Escape, which an open popup consumes so that holding
/// the key accepts or dismisses once
pub open spec fn spec_suggestion_blocked_repeat(event: InputEvent) -> bool {
    match event {
        InputEvent::Key(key) => key.action == KeyAction::Repeat && key.modifiers == (Modifiers {
            shift: false,
            control: false,
            alt: false,
            meta: false,
        }) && (key.code == KeyCode::Enter || key.code == KeyCode::Escape),
        _ => false,
    }
}

/// Reports whether an open popup consumes a key repeat without acting on it
pub fn suggestion_blocked_repeat(event: &InputEvent) -> (blocked: bool)
    ensures
        blocked == spec_suggestion_blocked_repeat(*event),
{
    match event {
        InputEvent::Key(key) => key.action == KeyAction::Repeat && key.modifiers
            == Modifiers::none() && (key.code == KeyCode::Enter || key.code == KeyCode::Escape),
        _ => false,
    }
}

} // verus!
