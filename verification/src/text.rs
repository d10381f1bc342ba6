use std::sync::Arc;

use vstd::prelude::*;
use vstd::utf8::encode_utf8;

verus! {

/// Appends one character to a string
pub assume_specification[ std::string::String::push ](string: &mut std::string::String, character: char)
    ensures
        final(string)@ == old(string)@.push(character),
;

/// Appends a string slice to a string
pub assume_specification[ std::string::String::push_str ](string: &mut std::string::String, value: &str)
    ensures
        final(string)@ == old(string)@ + value@,
;

/// A second handle on the same shared allocation (`Arc::clone`)
#[verifier::external_body]
pub(crate) fn share<T>(value: &Arc<T>) -> (copy: Arc<T>)
    ensures
        copy == *value,
{
    Arc::clone(value)
}

/// Whether two handles point at one shared allocation (`Arc::ptr_eq`); handles on one
/// allocation hold equal values
#[verifier::external_body]
pub(crate) fn same_allocation<T>(first: &Arc<T>, second: &Arc<T>) -> (same: bool)
    ensures
        same ==> *first == *second,
{
    Arc::ptr_eq(first, second)
}

/// The number of UTF-8 bytes that encode one character
pub open spec fn utf8_width(character: char) -> nat {
    let code = character as u32;
    if code < 0x80 {
        1
    } else if code < 0x800 {
        2
    } else if code < 0x10000 {
        3
    } else {
        4
    }
}

/// The number of UTF-8 bytes that encode a character sequence
pub open spec fn utf8_len(chars: Seq<char>) -> nat
    decreases chars.len(),
{
    if chars.len() == 0 {
        0
    } else {
        utf8_len(chars.drop_last()) + utf8_width(chars.last())
    }
}

/// Computes the UTF-8 width of one character
pub fn char_utf8_width(character: char) -> (width: usize)
    ensures
        width == utf8_width(character),
{
    let code = character as u32;
    if code < 0x80 {
        1
    } else if code < 0x800 {
        2
    } else if code < 0x10000 {
        3
    } else {
        4
    }
}

/// The number of UTF-8 bytes in a string slice
pub fn str_byte_len(value: &str) -> (length: usize)
    ensures
        length == utf8_len(value@),
{
    proof {
        lemma_utf8_len_is_encoding_length(value@);
    }
    value.as_bytes().len()
}

/// The UTF-8 length of a concatenation is the sum of the lengths
pub proof fn lemma_utf8_len_concat(left: Seq<char>, right: Seq<char>)
    ensures
        utf8_len(left + right) == utf8_len(left) + utf8_len(right),
    decreases right.len(),
{
    if right.len() == 0 {
        assert(left + right =~= left);
    } else {
        assert((left + right).drop_last() =~= left + right.drop_last());
        lemma_utf8_len_concat(left, right.drop_last());
    }
}

/// A prefix encodes to no more bytes than the whole and to at least one
/// byte per character
pub proof fn lemma_utf8_len_prefix(chars: Seq<char>, count: int)
    requires
        0 <= count <= chars.len(),
    ensures
        utf8_len(chars.take(count)) <= utf8_len(chars),
        count <= utf8_len(chars.take(count)),
    decreases count,
{
    assert(chars =~= chars.take(count) + chars.skip(count));
    lemma_utf8_len_concat(chars.take(count), chars.skip(count));
    if count > 0 {
        assert(chars.take(count).drop_last() =~= chars.take(count - 1));
        lemma_utf8_len_prefix(chars, count - 1);
    }
}

/// `utf8_len` is the length of vstd's UTF-8 encoding
pub proof fn lemma_utf8_len_is_encoding_length(chars: Seq<char>)
    ensures
        encode_utf8(chars).len() == utf8_len(chars),
    decreases chars.len(),
{
    if chars.len() > 0 {
        lemma_utf8_len_is_encoding_length(chars.drop_first());
        let first = seq![chars[0]];
        assert(chars =~= first + chars.drop_first());
        lemma_utf8_len_concat(first, chars.drop_first());
        assert(first.drop_last() =~= Seq::<char>::empty());
        assert(utf8_len(Seq::<char>::empty()) == 0);
        assert(utf8_len(first) == utf8_width(chars[0]));
        vstd::utf8::char_is_scalar(chars[0]);
        assert(vstd::utf8::encode_scalar(chars[0] as u32).len() == utf8_width(chars[0]));
    }
}

/// The decimal digit character of `value < 10`
pub open spec fn decimal_digit(value: nat) -> char {
    (value + 48) as char
}

/// The decimal spelling of a natural number
pub open spec fn decimal_text(value: nat) -> Seq<char>
    decreases value,
{
    if value < 10 {
        seq![decimal_digit(value)]
    } else {
        decimal_text(value / 10) + seq![decimal_digit(value % 10)]
    }
}

/// Appends the decimal spelling of a number
pub fn push_decimal_u64(output: &mut String, value: u64)
    ensures
        final(output)@ == old(output)@ + decimal_text(value as nat),
    decreases value,
{
    if value >= 10 {
        push_decimal_u64(output, value / 10);
    }
    let digit = ((value % 10) as u8 + 48) as char;
    output.push(digit);
}

/// `count` spaces
pub open spec fn spaces(count: nat) -> Seq<char> {
    Seq::new(count, |i: int| ' ')
}

/// `text` right-aligned in a field of `width` characters
pub open spec fn right_aligned(text: Seq<char>, width: nat) -> Seq<char> {
    if text.len() >= width {
        text
    } else {
        spaces((width - text.len()) as nat) + text
    }
}

/// Appends `count` spaces
pub fn push_spaces(output: &mut String, count: usize)
    ensures
        final(output)@ == old(output)@ + spaces(count as nat),
{
    let ghost start = output@;
    let mut index: usize = 0;
    while index < count
        invariant
            0 <= index <= count,
            output@ == start + spaces(index as nat),
        decreases count - index,
    {
        output.push(' ');
        proof {
            assert(start + spaces((index + 1) as nat) =~= start + spaces(index as nat) + seq![' ']);
        }
        index = index + 1;
    }
}

/// Appends `text` right-aligned in a field of `width` characters
pub fn push_right_aligned(output: &mut String, text: &str, width: usize)
    ensures
        final(output)@ == old(output)@ + right_aligned(text@, width as nat),
{
    let length = text_char_count(text);
    if length < width {
        push_spaces(output, width - length);
    }
    let ghost before = output@;
    output.push_str(text);
    proof {
        if length >= width {
            assert(before =~= old(output)@);
        }
        assert(output@ =~= old(output)@ + right_aligned(text@, width as nat));
    }
}

/// The number of characters of a string slice
pub fn text_char_count(text: &str) -> (count: usize)
    ensures
        count == text@.len(),
{
    let ghost chars = text@;
    let _byte_length = str_byte_len(text);
    let mut count: usize = 0;
    for _character in iter: text.chars()
        invariant
            iter.seq() == chars,
            chars == text@,
            count == iter.index(),
            0 <= count <= chars.len(),
            utf8_len(chars) <= usize::MAX,
    {
        proof {
            lemma_utf8_len_prefix(chars, count + 1);
        }
        count = count + 1;
    }
    count
}

/// `text` padded on the left with zeros to `width` characters
pub open spec fn zero_padded(text: Seq<char>, width: nat) -> Seq<char> {
    if text.len() >= width {
        text
    } else {
        Seq::new((width - text.len()) as nat, |i: int| '0') + text
    }
}

/// Appends the decimal spelling of `value` padded on the left with zeros to `width` characters
pub fn push_zero_padded(output: &mut String, value: u64, width: usize)
    ensures
        final(output)@ == old(output)@ + zero_padded(decimal_text(value as nat), width as nat),
{
    let mut digits = String::new();
    push_decimal_u64(&mut digits, value);
    let length = text_char_count(digits.as_str());
    let ghost start = output@;
    let ghost text = decimal_text(value as nat);
    assert(digits@ =~= text);
    let mut index: usize = length;
    while index < width
        invariant
            length == text.len(),
            index == length || length < index <= width,
            output@ == start + Seq::new((index - length) as nat, |i: int| '0'),
        decreases width - index,
    {
        output.push('0');
        proof {
            assert(start + Seq::new((index + 1 - length) as nat, |i: int| '0') =~= start + Seq::new(
                (index - length) as nat,
                |i: int| '0',
            ) + seq!['0']);
        }
        index = index + 1;
    }
    output.push_str(digits.as_str());
    proof {
        if length >= width {
            assert(Seq::new((index - length) as nat, |i: int| '0') =~= Seq::<char>::empty());
            assert(output@ =~= start + text);
        } else {
            assert(index == width);
            assert(output@ =~= start + zero_padded(text, width as nat));
        }
    }
}

} // verus!

