use std::sync::Arc;

use vstd::prelude::*;
use vstd::string::StringSliceAdditionalSpecFns;
use vstd::utf8::encode_utf8;

use crate::text::{share, utf8_len, utf8_width, char_utf8_width, lemma_utf8_len_concat};

verus! {

/// Default maximum JSON value occurrences accepted by one document
pub const DEFAULT_JSON_DOCUMENT_MAX_NODES: u64 = 100_000;

/// Default maximum one-based JSON value depth accepted by one document
pub const DEFAULT_JSON_DOCUMENT_MAX_DEPTH: u32 = 128;

/// Hard maximum JSON depth supported by the inspector backend
pub const MAX_JSON_DOCUMENT_DEPTH: u32 = 256;

/// Default maximum decoded UTF-8 bytes across strings and object keys
pub const DEFAULT_JSON_DOCUMENT_MAX_STRING_BYTES: u64 = 16_777_216;

/// Default maximum deterministic compact serialization size
pub const DEFAULT_JSON_DOCUMENT_MAX_SERIALIZED_BYTES: u64 = 33_554_432;

/// Closed JSON value category
#[derive(Clone, Copy, Debug, PartialEq, Eq, Structural)]
pub enum JsonKind {
    /// JSON null
    Null,
    /// JSON Boolean
    Boolean,
    /// JSON number token
    Number,
    /// JSON string
    String,
    /// Ordered JSON array
    Array,
    /// Ordered JSON object
    Object,
}

/// The stable identifier of each kind
pub open spec fn spec_kind_name(kind: JsonKind) -> Seq<char> {
    match kind {
        JsonKind::Null => "null"@,
        JsonKind::Boolean => "boolean"@,
        JsonKind::Number => "number"@,
        JsonKind::String => "string"@,
        JsonKind::Array => "array"@,
        JsonKind::Object => "object"@,
    }
}

impl JsonKind {
    /// Returns the stable language-independent kind identifier
    pub fn as_str(self) -> (name: &'static str)
        ensures
            name@ == spec_kind_name(self),
    {
        match self {
            JsonKind::Null => "null",
            JsonKind::Boolean => "boolean",
            JsonKind::Number => "number",
            JsonKind::String => "string",
            JsonKind::Array => "array",
            JsonKind::Object => "object",
        }
    }
}

// ---------------------------------------------------------------------------
// Number grammar
// ---------------------------------------------------------------------------

/// An ASCII decimal digit byte
pub open spec fn is_digit_byte(byte: u8) -> bool {
    48 <= byte <= 57
}

/// The first position at or after `index` that is not a digit
pub open spec fn skip_digits(bytes: Seq<u8>, index: int) -> int
    decreases bytes.len() - index,
{
    if 0 <= index < bytes.len() && is_digit_byte(bytes[index]) {
        skip_digits(bytes, index + 1)
    } else {
        index
    }
}

/// Whether `bytes[index]` exists and is a digit
pub open spec fn digit_at(bytes: Seq<u8>, index: int) -> bool {
    0 <= index < bytes.len() && is_digit_byte(bytes[index])
}

/// Scans the optional sign and integer part, giving the following position
pub open spec fn scan_number_integer(bytes: Seq<u8>) -> Result<int, int> {
    let start: int = if bytes.len() > 0 && bytes[0] == 45u8 { 1 } else { 0 };
    if start < bytes.len() && bytes[start] == 48u8 {
        if digit_at(bytes, start + 1) {
            Err(start + 1)
        } else {
            Ok(start + 1)
        }
    } else if start < bytes.len() && 49 <= bytes[start] <= 57 {
        Ok(skip_digits(bytes, start + 1))
    } else {
        Err(start)
    }
}

/// Scans an optional fraction starting at `index`
pub open spec fn scan_number_fraction(bytes: Seq<u8>, index: int) -> Result<int, int> {
    if 0 <= index < bytes.len() && bytes[index] == 46u8 {
        if !digit_at(bytes, index + 1) {
            Err(index + 1)
        } else {
            Ok(skip_digits(bytes, index + 1))
        }
    } else {
        Ok(index)
    }
}

/// Whether `bytes[index]` is an exponent marker
pub open spec fn exponent_at(bytes: Seq<u8>, index: int) -> bool {
    0 <= index < bytes.len() && (bytes[index] == 101u8 || bytes[index] == 69u8)
}

/// Whether `bytes[index]` is an exponent sign
pub open spec fn sign_at(bytes: Seq<u8>, index: int) -> bool {
    0 <= index < bytes.len() && (bytes[index] == 43u8 || bytes[index] == 45u8)
}

/// Scans an optional exponent starting at `index`
pub open spec fn scan_number_exponent(bytes: Seq<u8>, index: int) -> Result<int, int> {
    if exponent_at(bytes, index) {
        let digits = if sign_at(bytes, index + 1) { index + 2 } else { index + 1 };
        if !digit_at(bytes, digits) {
            Err(digits)
        } else {
            Ok(skip_digits(bytes, digits))
        }
    } else {
        Ok(index)
    }
}

/// The RFC 8259 number grammar: `Ok` for a complete token, otherwise the
/// first invalid or missing byte offset
pub open spec fn scan_json_number(bytes: Seq<u8>) -> Result<(), int> {
    match scan_number_integer(bytes) {
        Err(offset) => Err(offset),
        Ok(after_integer) => match scan_number_fraction(bytes, after_integer) {
            Err(offset) => Err(offset),
            Ok(after_fraction) => match scan_number_exponent(bytes, after_fraction) {
                Err(offset) => Err(offset),
                Ok(end) => if end == bytes.len() {
                    Ok(())
                } else {
                    Err(end)
                },
            },
        },
    }
}

proof fn lemma_skip_digits_bounds(bytes: Seq<u8>, index: int)
    requires
        0 <= index <= bytes.len(),
    ensures
        index <= skip_digits(bytes, index) <= bytes.len(),
        forall|k: int| index <= k < skip_digits(bytes, index) ==> is_digit_byte(#[trigger] bytes[k]),
        !digit_at(bytes, skip_digits(bytes, index)),
    decreases bytes.len() - index,
{
    if index < bytes.len() && is_digit_byte(bytes[index]) {
        lemma_skip_digits_bounds(bytes, index + 1);
    }
}

fn exec_skip_digits(bytes: &[u8], index: usize) -> (end: usize)
    requires
        index <= bytes@.len(),
    ensures
        end as int == skip_digits(bytes@, index as int),
        index <= end <= bytes@.len(),
{
    let mut i = index;
    while i < bytes.len() && bytes[i] >= 48 && bytes[i] <= 57
        invariant
            index <= i <= bytes@.len(),
            skip_digits(bytes@, i as int) == skip_digits(bytes@, index as int),
        decreases bytes@.len() - i,
    {
        i = i + 1;
    }
    i
}

fn validate_json_number(bytes: &[u8]) -> (result: Result<(), usize>)
    ensures
        match scan_json_number(bytes@) {
            Ok(()) => result is Ok,
            Err(offset) => result matches Err(o) && o as int == offset,
        },
{
    let len = bytes.len();
    let mut index: usize = 0;
    if len > 0 && bytes[0] == 45 {
        index = 1;
    }
    if index < len && bytes[index] == 48 {
        index = index + 1;
        if index < len && bytes[index] >= 48 && bytes[index] <= 57 {
            return Err(index);
        }
    } else if index < len && bytes[index] >= 49 && bytes[index] <= 57 {
        index = exec_skip_digits(bytes, index + 1);
    } else {
        return Err(index);
    }
    proof {
        lemma_skip_digits_bounds(bytes@, 0);
    }
    assert(scan_number_integer(bytes@) == Ok::<int, int>(index as int));
    if index < len && bytes[index] == 46 {
        index = index + 1;
        if !(index < len && bytes[index] >= 48 && bytes[index] <= 57) {
            return Err(index);
        }
        index = exec_skip_digits(bytes, index);
    }
    let ghost after_fraction = index;
    if index < len && (bytes[index] == 101 || bytes[index] == 69) {
        index = index + 1;
        if index < len && (bytes[index] == 43 || bytes[index] == 45) {
            index = index + 1;
        }
        if !(index < len && bytes[index] >= 48 && bytes[index] <= 57) {
            return Err(index);
        }
        index = exec_skip_digits(bytes, index);
    }
    if index == len {
        Ok(())
    } else {
        Err(index)
    }
}

/// One validated JSON number token that preserves its spelling
#[derive(Debug)]
pub struct JsonNumber {
    pub(crate) token: String,
}

impl View for JsonNumber {
    type V = Seq<char>;

    closed spec fn view(&self) -> Seq<char> {
        self.token@
    }
}

impl JsonNumber {
    /// The token satisfies the number grammar
    #[verifier::type_invariant]
    closed spec fn well_formed(self) -> bool {
        scan_json_number(encode_utf8(self.token@)) is Ok
    }

    /// Validates and owns one JSON number token
    pub fn new(value: &str) -> (result: Result<JsonNumber, InvalidJsonNumber>)
        ensures
            match scan_json_number(value.spec_bytes()) {
                Ok(()) => result matches Ok(number) && number@ == value@,
                Err(offset) => result matches Err(error) && error.spec_offset() as int == offset
                    && error.spec_byte_length() as int == value.spec_bytes().len(),
            },
    {
        let bytes = value.as_bytes();
        match validate_json_number(bytes) {
            Err(offset) => {
                let byte_length = bytes.len();
                assert(byte_length as int == value.spec_bytes().len());
                Err(InvalidJsonNumber { offset, byte_length })
            },
            Ok(()) => {
                let token = value.to_owned();
                assert(token@ == value@);
                Ok(JsonNumber { token })
            },
        }
    }

    /// Returns the validated token without numeric conversion
    pub fn as_str(&self) -> (token: &str)
        ensures
            token@ == self@,
            scan_json_number(token.spec_bytes()) is Ok,
    {
        proof {
            use_type_invariant(self);
        }
        self.token.as_str()
    }

    /// Returns an independent handle on the same token
    pub fn duplicate(&self) -> (copy: JsonNumber)
        ensures
            copy@ == self@,
    {
        proof {
            use_type_invariant(self);
        }
        JsonNumber { token: self.token.clone() }
    }
}

impl Clone for JsonNumber {
    fn clone(&self) -> (copy: Self)
        ensures
            copy@ == self@,
    {
        self.duplicate()
    }
}

/// Error returned for a token outside the JSON number grammar
#[derive(Clone, Copy, Debug, PartialEq, Eq, Structural)]
pub struct InvalidJsonNumber {
    offset: usize,
    byte_length: usize,
}

impl InvalidJsonNumber {
    /// The first invalid or missing byte offset
    pub closed spec fn spec_offset(self) -> usize {
        self.offset
    }

    /// The rejected token byte length
    pub closed spec fn spec_byte_length(self) -> usize {
        self.byte_length
    }

    /// Returns the first invalid or missing byte offset
    pub fn offset(&self) -> (offset: usize)
        ensures
            offset == self.spec_offset(),
    {
        self.offset
    }

    /// Returns the rejected token byte length without retaining its contents
    pub fn byte_length(&self) -> (length: usize)
        ensures
            length == self.spec_byte_length(),
    {
        self.byte_length
    }
}


// ---------------------------------------------------------------------------
// RFC 6901 pointers
// ---------------------------------------------------------------------------

/// Whether `chars[index]` exists and completes a `~0` or `~1` escape
pub open spec fn escape_tail_at(chars: Seq<char>, index: int) -> bool {
    0 <= index < chars.len() && (chars[index] == '0' || chars[index] == '1')
}

/// Whether `chars[index]` is a `~` that does not start a valid escape
pub open spec fn bad_tilde_at(chars: Seq<char>, index: int) -> bool {
    0 <= index < chars.len() && chars[index] == '~' && !escape_tail_at(chars, index + 1)
}

/// A valid RFC 6901 JSON Pointer: empty, or `/`-prefixed with only `~0` and
/// `~1` escapes
pub open spec fn is_json_pointer(chars: Seq<char>) -> bool {
    chars.len() == 0 || (chars[0] == '/' && forall|i: int| !bad_tilde_at(chars, i))
}

/// `index` is the character position of the first pointer error
pub open spec fn is_first_pointer_error(chars: Seq<char>, index: int) -> bool {
    ||| (index == 0 && chars.len() > 0 && chars[0] != '/')
    ||| (chars.len() > 0 && chars[0] == '/' && bad_tilde_at(chars, index) && forall|k: int|
        0 <= k < index ==> !bad_tilde_at(chars, k))
}

fn validate_json_pointer(value: &str) -> (result: Result<(), InvalidJsonPointer>)
    ensures
        result is Ok <==> is_json_pointer(value@),
        result matches Err(error) ==> exists|index: int|
            0 <= index <= value@.len() && is_first_pointer_error(value@, index)
                && error.offset as nat == utf8_len(value@.take(index)),
{
    broadcast use vstd::string::group_string_axioms;

    let ghost chars = value@;
    let total = value.as_bytes().len();
    proof {
        crate::text::lemma_utf8_len_is_encoding_length(chars);
    }
    let mut index: usize = 0;
    let mut bytes: usize = 0;
    let mut pending: Option<usize> = None;
    let ghost mut pending_index: int = 0;
    for character in iter: value.chars()
        invariant
            iter.seq() == chars,
            chars == value@,
            index == iter.index(),
            total as nat == utf8_len(chars),
            0 <= index <= chars.len(),
            bytes as nat == utf8_len(chars.take(index as int)),
            index > 0 ==> chars[0] == '/',
            forall|j: int| 0 <= j && j + 1 < index ==> !bad_tilde_at(chars, j),
            pending is Some <==> (index > 0 && chars[index - 1] == '~'),
            pending matches Some(offset) ==> pending_index == index - 1 && offset as nat
                == utf8_len(chars.take(index - 1)),
    {
        assert(character == chars[index as int]);
        proof {
            assert(chars.take(index + 1).drop_last() =~= chars.take(index as int));
            assert(chars.take(index + 1).last() == chars[index as int]);
            lemma_utf8_len_bounded(chars, index + 1);
        }
        if index == 0 && character != '/' {
            assert(is_first_pointer_error(chars, 0));
            assert(chars.take(0) =~= Seq::<char>::empty());
            assert(!is_json_pointer(chars));
            assert(0 <= 0 <= chars.len() && is_first_pointer_error(chars, 0) && 0 == utf8_len(chars.take(0)));
            return Err(InvalidJsonPointer { offset: 0 });
        }
        if let Some(offset) = pending {
            if character != '0' && character != '1' {
                assert(bad_tilde_at(chars, pending_index));
                assert(is_first_pointer_error(chars, pending_index));
                return Err(InvalidJsonPointer { offset });
            }
        }
        if character == '~' {
            pending = Some(bytes);
            proof {
                pending_index = index as int;
            }
        } else {
            pending = None;
        }
        bytes = bytes + char_utf8_width(character);
        index = index + 1;
    }
    if let Some(offset) = pending {
        assert(bad_tilde_at(chars, pending_index));
        assert(is_first_pointer_error(chars, pending_index));
        return Err(InvalidJsonPointer { offset });
    }
    assert forall|i: int| !bad_tilde_at(chars, i) by {
        if 0 <= i < chars.len() && i + 1 == chars.len() {
        }
    }
    Ok(())
}

/// The UTF-8 length of a prefix fits the machine word when the text is in memory
proof fn lemma_utf8_len_bounded(chars: Seq<char>, count: int)
    requires
        0 <= count <= chars.len(),
    ensures
        utf8_len(chars.take(count)) <= utf8_len(chars),
        count <= utf8_len(chars.take(count)),
{
    crate::text::lemma_utf8_len_prefix(chars, count);
}

/// Error returned for an invalid RFC 6901 pointer
#[derive(Clone, Copy, Debug, PartialEq, Eq, Structural)]
pub struct InvalidJsonPointer {
    offset: usize,
}

impl InvalidJsonPointer {
    /// The first invalid or missing byte offset
    pub closed spec fn spec_offset(self) -> usize {
        self.offset
    }

    /// Returns the first invalid or missing byte offset
    pub fn offset(&self) -> (offset: usize)
        ensures
            offset == self.spec_offset(),
    {
        self.offset
    }
}

/// Validated RFC 6901 JSON Pointer used as one document identity
#[derive(Debug)]
pub struct JsonPointer {
    pub(crate) path: String,
}

impl View for JsonPointer {
    type V = Seq<char>;

    closed spec fn view(&self) -> Seq<char> {
        self.path@
    }
}

impl JsonPointer {
    /// The path is a valid pointer
    #[verifier::type_invariant]
    closed spec fn well_formed(self) -> bool {
        is_json_pointer(self.path@)
    }

    /// Returns the root pointer
    pub fn root() -> (pointer: JsonPointer)
        ensures
            pointer@ == Seq::<char>::empty(),
    {
        JsonPointer { path: String::new() }
    }

    /// Validates and owns one JSON Pointer
    pub fn new(value: &str) -> (result: Result<JsonPointer, InvalidJsonPointer>)
        ensures
            is_json_pointer(value@) ==> (result matches Ok(pointer) && pointer@ == value@),
            !is_json_pointer(value@) ==> (result matches Err(error) && exists|index: int|
                0 <= index <= value@.len() && is_first_pointer_error(value@, index)
                    && error.spec_offset() as nat == utf8_len(value@.take(index))),
    {
        match validate_json_pointer(value) {
            Err(error) => Err(error),
            Ok(()) => {
                let path = value.to_owned();
                Ok(JsonPointer { path })
            },
        }
    }

    /// Builds a pointer from text already known to be valid
    pub(crate) fn from_valid(path: String) -> (pointer: JsonPointer)
        requires
            is_json_pointer(path@),
        ensures
            pointer@ == path@,
    {
        JsonPointer { path }
    }

    /// Returns the encoded pointer
    pub fn as_str(&self) -> (path: &str)
        ensures
            path@ == self@,
            is_json_pointer(path@),
    {
        proof {
            use_type_invariant(self);
        }
        self.path.as_str()
    }

    /// Returns an independent copy of this pointer
    pub fn duplicate(&self) -> (copy: JsonPointer)
        ensures
            copy@ == self@,
    {
        proof {
            use_type_invariant(self);
        }
        JsonPointer { path: self.path.clone() }
    }

    /// Reports whether two pointers spell the same path
    pub fn same_path(&self, other: &JsonPointer) -> (same: bool)
        ensures
            same == (self@ == other@),
    {
        self.path == other.path
    }
}

impl Clone for JsonPointer {
    fn clone(&self) -> (copy: Self)
        ensures
            copy@ == self@,
    {
        self.duplicate()
    }
}

// ---------------------------------------------------------------------------
// Values
// ---------------------------------------------------------------------------

/// One ordered JSON object member
#[derive(Debug)]
pub struct JsonMember {
    pub(crate) key: String,
    pub(crate) value: JsonValue,
}

impl JsonMember {
    /// The member key
    pub closed spec fn spec_key(self) -> Seq<char> {
        self.key@
    }

    /// The member value
    pub closed spec fn spec_value(self) -> JsonValue {
        self.value
    }

    /// Creates one key-value member
    pub fn new(key: &str, value: JsonValue) -> (member: JsonMember)
        ensures
            member.spec_key() == key@,
            member.spec_value() == value,
    {
        JsonMember { key: key.to_owned(), value }
    }

    /// Returns the member key
    pub fn key(&self) -> (key: &str)
        ensures
            key@ == self.spec_key(),
    {
        self.key.as_str()
    }

    /// Returns the immutable member value
    pub fn value(&self) -> (value: &JsonValue)
        ensures
            *value == self.spec_value(),
    {
        &self.value
    }
}

impl Clone for JsonMember {
    fn clone(&self) -> (copy: Self)
        ensures
            copy.spec_key() == self.spec_key(),
            copy.spec_value() == self.spec_value(),
    {
        JsonMember { key: self.key.clone(), value: self.value.clone() }
    }
}

/// Error returned when one JSON object repeats a key
#[derive(Debug)]
pub struct DuplicateJsonKey {
    key: String,
}

impl DuplicateJsonKey {
    /// The duplicated key
    pub closed spec fn spec_key(self) -> Seq<char> {
        self.key@
    }

    /// Returns the duplicated key
    pub fn key(&self) -> (key: &str)
        ensures
            key@ == self.spec_key(),
    {
        self.key.as_str()
    }
}

#[derive(Debug)]
pub(crate) enum JsonValueData {
    Null,
    Boolean(bool),
    Number(JsonNumber),
    Text(String),
    Array(Vec<JsonValue>),
    Object(Vec<JsonMember>),
}

/// Immutable typed JSON value whose clones share storage
#[derive(Debug)]
pub struct JsonValue {
    pub(crate) inner: Arc<JsonValueData>,
}

/// `members[index]` repeats the key of an earlier member
pub open spec fn repeats_earlier_key(members: Seq<JsonMember>, index: int) -> bool {
    exists|earlier: int| 0 <= earlier < index && #[trigger] members[earlier].spec_key() == members[index].spec_key()
}

/// No member of `members` repeats an earlier key
pub open spec fn has_unique_keys(members: Seq<JsonMember>) -> bool {
    forall|index: int| 0 <= index < members.len() ==> !repeats_earlier_key(members, index)
}

/// `index` is the first member that repeats an earlier key
pub open spec fn is_first_repeated_key(members: Seq<JsonMember>, index: int) -> bool {
    &&& 0 <= index < members.len()
    &&& repeats_earlier_key(members, index)
    &&& forall|k: int| 0 <= k < index ==> !repeats_earlier_key(members, k)
}

/// Every object anywhere in a value has unique keys
pub open spec fn keys_unique_throughout(value: JsonValue) -> bool
    decreases value, 1int,
{
    match value.spec_kind() {
        JsonKind::Array => {
            proof {
                lemma_items_decrease(value);
            }
            items_keys_unique(value.spec_items())
        },
        JsonKind::Object => {
            proof {
                lemma_members_decrease(value);
            }
            has_unique_keys(value.spec_members()) && members_keys_unique(value.spec_members())
        },
        _ => true,
    }
}

/// Every object anywhere in ordered values has unique keys
pub open spec fn items_keys_unique(items: Seq<JsonValue>) -> bool
    decreases items, 0int,
{
    if items.len() == 0 {
        true
    } else {
        items_keys_unique(items.drop_last()) && keys_unique_throughout(items.last())
    }
}

/// Every object anywhere in the values of ordered members has unique keys
pub open spec fn members_keys_unique(members: Seq<JsonMember>) -> bool
    decreases members, 0int,
{
    if members.len() == 0 {
        true
    } else {
        proof {
            lemma_member_value_decreases(members.last());
        }
        members_keys_unique(members.drop_last()) && keys_unique_throughout(
            members.last().spec_value(),
        )
    }
}

/// Values each unique throughout form a sequence unique throughout
proof fn lemma_items_keys_unique(items: Seq<JsonValue>)
    requires
        forall|index: int| 0 <= index < items.len() ==> keys_unique_throughout(#[trigger] items[index]),
    ensures
        items_keys_unique(items),
    decreases items.len(),
{
    if items.len() > 0 {
        lemma_items_keys_unique(items.drop_last());
    }
}

/// Member values each unique throughout form members unique throughout
proof fn lemma_members_keys_unique(members: Seq<JsonMember>)
    requires
        forall|index: int|
            0 <= index < members.len() ==> keys_unique_throughout(#[trigger] members[index].spec_value()),
    ensures
        members_keys_unique(members),
    decreases members.len(),
{
    if members.len() > 0 {
        lemma_members_keys_unique(members.drop_last());
    }
}

impl JsonValue {
    #[verifier::type_invariant]
    pub(crate) open spec fn keys_unique(self) -> bool {
        keys_unique_throughout(self)
    }

    /// The closed value category
    pub closed spec fn spec_kind(self) -> JsonKind {
        match *self.inner {
            JsonValueData::Null => JsonKind::Null,
            JsonValueData::Boolean(_) => JsonKind::Boolean,
            JsonValueData::Number(_) => JsonKind::Number,
            JsonValueData::Text(_) => JsonKind::String,
            JsonValueData::Array(_) => JsonKind::Array,
            JsonValueData::Object(_) => JsonKind::Object,
        }
    }

    /// The Boolean held by a Boolean value
    pub closed spec fn spec_boolean(self) -> Option<bool> {
        match *self.inner {
            JsonValueData::Boolean(value) => Some(value),
            _ => None,
        }
    }

    /// The number token held by a Number value
    pub closed spec fn spec_number(self) -> Option<Seq<char>> {
        match *self.inner {
            JsonValueData::Number(value) => Some(value@),
            _ => None,
        }
    }

    /// The decoded text held by a String value
    pub closed spec fn spec_string(self) -> Option<Seq<char>> {
        match *self.inner {
            JsonValueData::Text(value) => Some(value@),
            _ => None,
        }
    }

    /// The ordered values of an Array, empty for any other kind
    pub closed spec fn spec_items(self) -> Seq<JsonValue> {
        match *self.inner {
            JsonValueData::Array(values) => values@,
            _ => Seq::empty(),
        }
    }

    /// The ordered members of an Object, empty for any other kind
    pub closed spec fn spec_members(self) -> Seq<JsonMember> {
        match *self.inner {
            JsonValueData::Object(members) => members@,
            _ => Seq::empty(),
        }
    }

    /// Creates JSON null
    pub fn null() -> (value: JsonValue)
        ensures
            value.spec_kind() == JsonKind::Null,
    {
        JsonValue { inner: Arc::new(JsonValueData::Null) }
    }

    /// Creates a JSON Boolean
    pub fn boolean(flag: bool) -> (value: JsonValue)
        ensures
            value.spec_kind() == JsonKind::Boolean,
            value.spec_boolean() == Some(flag),
    {
        JsonValue { inner: Arc::new(JsonValueData::Boolean(flag)) }
    }

    /// Creates a JSON number from a validated token
    pub fn number(number: JsonNumber) -> (value: JsonValue)
        ensures
            value.spec_kind() == JsonKind::Number,
            value.spec_number() == Some(number@),
    {
        JsonValue { inner: Arc::new(JsonValueData::Number(number)) }
    }

    /// Creates a JSON string
    pub fn string(text: &str) -> (value: JsonValue)
        ensures
            value.spec_kind() == JsonKind::String,
            value.spec_string() == Some(text@),
    {
        JsonValue { inner: Arc::new(JsonValueData::Text(text.to_owned())) }
    }

    /// Creates an immutable ordered JSON array
    pub fn array(values: Vec<JsonValue>) -> (value: JsonValue)
        ensures
            value.spec_kind() == JsonKind::Array,
            value.spec_items() == values@,
    {
        let mut index: usize = 0;
        while index < values.len()
            invariant
                0 <= index <= values@.len(),
                forall|k: int| 0 <= k < index ==> keys_unique_throughout(#[trigger] values@[k]),
            decreases values@.len() - index,
        {
            let item = &values[index];
            proof {
                use_type_invariant(item);
            }
            index = index + 1;
        }
        proof {
            lemma_items_keys_unique(values@);
        }
        let value = JsonValue { inner: Arc::new(JsonValueData::Array(values)) };
        value
    }

    /// Creates an immutable ordered JSON object and rejects duplicate keys
    pub fn object(members: Vec<JsonMember>) -> (result: Result<JsonValue, DuplicateJsonKey>)
        ensures
            has_unique_keys(members@) ==> (result matches Ok(value) && value.spec_kind()
                == JsonKind::Object && value.spec_members() == members@),
            !has_unique_keys(members@) ==> (result matches Err(error) && exists|index: int|
                is_first_repeated_key(members@, index) && error.spec_key()
                    == members@[index].spec_key()),
    {
        let mut index: usize = 0;
        while index < members.len()
            invariant
                0 <= index <= members@.len(),
                forall|k: int| 0 <= k < index ==> !repeats_earlier_key(members@, k),
                forall|k: int| 0 <= k < index ==> keys_unique_throughout(#[trigger] members@[k].spec_value()),
            decreases members@.len() - index,
        {
            let member_value = &members[index].value;
            proof {
                use_type_invariant(member_value);
            }
            let mut earlier: usize = 0;
            while earlier < index
                invariant
                    0 <= earlier <= index < members@.len(),
                    forall|k: int| 0 <= k < index ==> !repeats_earlier_key(members@, k),
                    forall|e: int| 0 <= e < earlier ==> members@[e].spec_key() != members@[index as int].spec_key(),
                decreases index - earlier,
            {
                if members[earlier].key == members[index].key {
                    assert(members@[earlier as int].spec_key() == members@[index as int].spec_key());
                    assert(repeats_earlier_key(members@, index as int));
                    assert(is_first_repeated_key(members@, index as int));
                    return Err(DuplicateJsonKey { key: members[index].key.clone() });
                }
                earlier = earlier + 1;
            }
            index = index + 1;
        }
        proof {
            lemma_members_keys_unique(members@);
        }
        Ok(JsonValue { inner: Arc::new(JsonValueData::Object(members)) })
    }

    /// Returns the closed value category
    pub fn kind(&self) -> (kind: JsonKind)
        ensures
            kind == self.spec_kind(),
    {
        match &*self.inner {
            JsonValueData::Null => JsonKind::Null,
            JsonValueData::Boolean(_) => JsonKind::Boolean,
            JsonValueData::Number(_) => JsonKind::Number,
            JsonValueData::Text(_) => JsonKind::String,
            JsonValueData::Array(_) => JsonKind::Array,
            JsonValueData::Object(_) => JsonKind::Object,
        }
    }

    /// Returns the Boolean value when this is a Boolean
    pub fn as_boolean(&self) -> (flag: Option<bool>)
        ensures
            flag == self.spec_boolean(),
            flag is Some <==> self.spec_kind() == JsonKind::Boolean,
    {
        match &*self.inner {
            JsonValueData::Boolean(value) => Some(*value),
            _ => None,
        }
    }

    /// Returns the validated number token when this is a Number
    pub fn as_number(&self) -> (number: Option<&JsonNumber>)
        ensures
            number is Some <==> self.spec_number() is Some,
            number is Some <==> self.spec_kind() == JsonKind::Number,
            number matches Some(n) ==> self.spec_number() == Some(n@),
    {
        match &*self.inner {
            JsonValueData::Number(value) => Some(value),
            _ => None,
        }
    }

    /// Returns the decoded string when this is a String
    pub fn as_string(&self) -> (text: Option<&str>)
        ensures
            text is Some <==> self.spec_string() is Some,
            text is Some <==> self.spec_kind() == JsonKind::String,
            text matches Some(t) ==> self.spec_string() == Some(t@),
    {
        match &*self.inner {
            JsonValueData::Text(value) => Some(value.as_str()),
            _ => None,
        }
    }

    /// Returns the ordered values when this is an Array
    pub fn as_array(&self) -> (values: Option<&[JsonValue]>)
        ensures
            values is Some <==> self.spec_kind() == JsonKind::Array,
            values matches Some(v) ==> v@ == self.spec_items(),
    {
        match &*self.inner {
            JsonValueData::Array(values) => Some(values.as_slice()),
            _ => None,
        }
    }

    /// Returns the ordered members when this is an Object
    pub fn as_object(&self) -> (members: Option<&[JsonMember]>)
        ensures
            members is Some <==> self.spec_kind() == JsonKind::Object,
            members matches Some(m) ==> m@ == self.spec_members(),
    {
        match &*self.inner {
            JsonValueData::Object(members) => Some(members.as_slice()),
            _ => None,
        }
    }
}

impl Clone for JsonValue {
    fn clone(&self) -> (copy: Self)
        ensures
            copy == *self,
    {
        proof {
            use_type_invariant(self);
        }
        JsonValue { inner: share(&self.inner) }
    }
}

impl Default for JsonValue {
    fn default() -> (value: Self)
        ensures
            value.spec_kind() == JsonKind::Null,
    {
        JsonValue::null()
    }
}

/// An Array's values are structurally smaller than the Array
pub proof fn lemma_items_decrease(value: JsonValue)
    ensures
        value.spec_kind() == JsonKind::Array ==> decreases_to!(value => value.spec_items()),
        forall|index: int|
            0 <= index < value.spec_items().len() ==> decreases_to!(value => #[trigger] value.spec_items()[index]),
{
    if let JsonValueData::Array(values) = *value.inner {
        assert(decreases_to!(value => values));
        assert(decreases_to!(values => values@));
        assert forall|index: int| 0 <= index < values@.len() implies decreases_to!(value => #[trigger] values@[index]) by {
            assert(decreases_to!(values@ => values@[index]));
        }
    }
}

/// An Object's members are structurally smaller than the Object
pub proof fn lemma_members_decrease(value: JsonValue)
    ensures
        value.spec_kind() == JsonKind::Object ==> decreases_to!(value => value.spec_members()),
        forall|index: int|
            0 <= index < value.spec_members().len() ==> decreases_to!(value => #[trigger] value.spec_members()[index].spec_value()),
{
    if let JsonValueData::Object(members) = *value.inner {
        assert(decreases_to!(value => members));
        assert(decreases_to!(members => members@));
        assert forall|index: int| 0 <= index < members@.len() implies decreases_to!(value => #[trigger] members@[index].spec_value()) by {
            assert(decreases_to!(members@ => members@[index]));
            assert(decreases_to!(members@[index] => members@[index].value));
        }
    }
}

/// A member's value is structurally smaller than the member
pub proof fn lemma_member_value_decreases(member: JsonMember)
    ensures
        decreases_to!(member => member.spec_value()),
{
}

/// The accessor specifications agree with the stored representation
pub(crate) proof fn lemma_value_representation(value: JsonValue)
    ensures
        match *value.inner {
            JsonValueData::Null => value.spec_kind() == JsonKind::Null,
            JsonValueData::Boolean(flag) => value.spec_kind() == JsonKind::Boolean
                && value.spec_boolean() == Some(flag),
            JsonValueData::Number(number) => value.spec_kind() == JsonKind::Number
                && value.spec_number() == Some(number@),
            JsonValueData::Text(text) => value.spec_kind() == JsonKind::String
                && value.spec_string() == Some(text@),
            JsonValueData::Array(values) => value.spec_kind() == JsonKind::Array
                && value.spec_items() == values@,
            JsonValueData::Object(members) => value.spec_kind() == JsonKind::Object
                && value.spec_members() == members@,
        },
        value.spec_kind() != JsonKind::Array ==> value.spec_items() == Seq::<JsonValue>::empty(),
        value.spec_kind() != JsonKind::String ==> value.spec_string() is None,
        value.spec_kind() != JsonKind::Object ==> value.spec_members() == Seq::<JsonMember>::empty(),
{
}

/// The member accessor specifications agree with the stored fields
pub(crate) proof fn lemma_member_representation(member: JsonMember)
    ensures
        member.spec_key() == member.key@,
        member.spec_value() == member.value,
{
}

/// The number view is the stored token
pub(crate) proof fn lemma_number_representation(number: JsonNumber)
    ensures
        number@ == number.token@,
{
}

} // verus!
