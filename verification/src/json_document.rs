use std::sync::Arc;

use vstd::prelude::*;

use crate::json::{
    JsonKind, JsonMember, JsonPointer, JsonValue, JsonValueData, is_json_pointer,
    lemma_items_decrease, lemma_member_value_decreases, lemma_members_decrease, bad_tilde_at,
    lemma_value_representation, lemma_member_representation, lemma_number_representation,
    escape_tail_at,
};
use crate::text::{utf8_len, utf8_width, char_utf8_width, share, lemma_utf8_len_is_encoding_length, lemma_utf8_len_prefix, str_byte_len};
use crate::json::{DEFAULT_JSON_DOCUMENT_MAX_NODES, DEFAULT_JSON_DOCUMENT_MAX_DEPTH, MAX_JSON_DOCUMENT_DEPTH, DEFAULT_JSON_DOCUMENT_MAX_STRING_BYTES, DEFAULT_JSON_DOCUMENT_MAX_SERIALIZED_BYTES};

verus! {

// ---------------------------------------------------------------------------
// Deterministic compact serialization
// ---------------------------------------------------------------------------

/// The upper-case hexadecimal digit for `value < 16`
pub open spec fn hex_digit(value: int) -> char {
    if value < 10 {
        (value + 48) as char
    } else {
        (value + 55) as char
    }
}

/// The JSON escape of one string character
pub open spec fn escape_json_char(character: char) -> Seq<char> {
    if character == '"' {
        seq!['\\', '"']
    } else if character == '\\' {
        seq!['\\', '\\']
    } else if character == '\u{0008}' {
        seq!['\\', 'b']
    } else if character == '\u{000C}' {
        seq!['\\', 'f']
    } else if character == '\n' {
        seq!['\\', 'n']
    } else if character == '\r' {
        seq!['\\', 'r']
    } else if character == '\t' {
        seq!['\\', 't']
    } else if (character as u32) < 0x20 {
        seq![
            '\\',
            'u',
            '0',
            '0',
            hex_digit((character as u32) as int / 16),
            hex_digit((character as u32) as int % 16),
        ]
    } else {
        seq![character]
    }
}

/// The JSON escape of string content, without quotes
pub open spec fn escape_json_chars(chars: Seq<char>) -> Seq<char>
    decreases chars.len(),
{
    if chars.len() == 0 {
        Seq::empty()
    } else {
        escape_json_chars(chars.drop_last()) + escape_json_char(chars.last())
    }
}

/// A quoted JSON string literal
pub open spec fn quoted_json_string(chars: Seq<char>) -> Seq<char> {
    seq!['"'] + escape_json_chars(chars) + seq!['"']
}

/// The compact serialization of one member: key, colon, value
pub open spec fn serialize_member(member: JsonMember) -> Seq<char>
    decreases member, 0int,
{
    proof {
        lemma_member_value_decreases(member);
    }
    quoted_json_string(member.spec_key()) + seq![':'] + json_serialization(member.spec_value())
}

/// The comma-separated serialization of ordered values
pub open spec fn serialize_items(items: Seq<JsonValue>) -> Seq<char>
    decreases items, 0int,
{
    if items.len() == 0 {
        Seq::empty()
    } else if items.len() == 1 {
        json_serialization(items[0])
    } else {
        serialize_items(items.drop_last()) + seq![','] + json_serialization(items.last())
    }
}

/// The comma-separated serialization of ordered members
pub open spec fn serialize_members(members: Seq<JsonMember>) -> Seq<char>
    decreases members, 0int,
{
    if members.len() == 0 {
        Seq::empty()
    } else if members.len() == 1 {
        serialize_member(members[0])
    } else {
        serialize_members(members.drop_last()) + seq![','] + serialize_member(members.last())
    }
}

/// Deterministic compact JSON serialization of a value
pub open spec fn json_serialization(value: JsonValue) -> Seq<char>
    decreases value, 1int,
{
    match value.spec_kind() {
        JsonKind::Null => "null"@,
        JsonKind::Boolean => if value.spec_boolean() == Some(true) {
            "true"@
        } else {
            "false"@
        },
        JsonKind::Number => value.spec_number().unwrap(),
        JsonKind::String => quoted_json_string(value.spec_string().unwrap()),
        JsonKind::Array => {
            proof {
                lemma_items_decrease(value);
            }
            seq!['['] + serialize_items(value.spec_items()) + seq![']']
        },
        JsonKind::Object => {
            proof {
                lemma_members_decrease(value);
            }
            seq!['{'] + serialize_members(value.spec_members()) + seq!['}']
        },
    }
}

fn hex_char(value: u32) -> (digit: char)
    requires
        value < 16,
    ensures
        digit == hex_digit(value as int),
{
    if value < 10 {
        ((value + 48) as u8) as char
    } else {
        ((value + 55) as u8) as char
    }
}

pub(crate) fn push_char(output: &mut String, written: &mut usize, character: char)
    requires
        *old(written) == old(output)@.len(),
    ensures
        final(output)@ == old(output)@.push(character),
        *final(written) == final(output)@.len(),
{
    output.push(character);
    let bytes = str_byte_len(output.as_str());
    proof {
        lemma_utf8_len_prefix(output@, output@.len() as int);
        assert(output@.take(output@.len() as int) =~= output@);
    }
    *written = *written + 1;
}

pub(crate) fn push_escaped_char(output: &mut String, written: &mut usize, character: char)
    requires
        *old(written) == old(output)@.len(),
    ensures
        final(output)@ == old(output)@ + escape_json_char(character),
        *final(written) == final(output)@.len(),
{
    let ghost start = output@;
    if character == '"' {
        push_char(output, written, '\\');
        push_char(output, written, '"');
    } else if character == '\\' {
        push_char(output, written, '\\');
        push_char(output, written, '\\');
    } else if character == '\u{0008}' {
        push_char(output, written, '\\');
        push_char(output, written, 'b');
    } else if character == '\u{000C}' {
        push_char(output, written, '\\');
        push_char(output, written, 'f');
    } else if character == '\n' {
        push_char(output, written, '\\');
        push_char(output, written, 'n');
    } else if character == '\r' {
        push_char(output, written, '\\');
        push_char(output, written, 'r');
    } else if character == '\t' {
        push_char(output, written, '\\');
        push_char(output, written, 't');
    } else if (character as u32) < 0x20 {
        let code = character as u32;
        push_char(output, written, '\\');
        push_char(output, written, 'u');
        push_char(output, written, '0');
        push_char(output, written, '0');
        push_char(output, written, hex_char(code / 16));
        push_char(output, written, hex_char(code % 16));
    } else {
        push_char(output, written, character);
    }
    assert(output@ =~= start + escape_json_char(character));
}

/// Appends the quoted JSON literal of `value`
pub(crate) fn push_json_string(output: &mut String, written: &mut usize, value: &str)
    requires
        *old(written) == old(output)@.len(),
    ensures
        final(output)@ == old(output)@ + quoted_json_string(value@),
        *final(written) == final(output)@.len(),
{
    broadcast use vstd::string::group_string_axioms;

    let ghost start = output@;
    let ghost chars = value@;
    push_char(output, written, '"');
    for character in iter: value.chars()
        invariant
            iter.seq() == chars,
            chars == value@,
            0 <= iter.index() <= chars.len(),
            output@ == start + seq!['"'] + escape_json_chars(chars.take(iter.index())),
            *written == output@.len(),
    {
        let ghost index = iter.index();
        proof {
            assert(chars.take(index + 1).drop_last() =~= chars.take(index));
            assert(chars.take(index + 1).last() == chars[index]);
        }
        push_escaped_char(output, written, character);
    }
    assert(chars.take(chars.len() as int) =~= chars);
    push_char(output, written, '"');
    assert(output@ =~= start + quoted_json_string(chars));
}

// ---------------------------------------------------------------------------
// Limits and failures
// ---------------------------------------------------------------------------

/// Zero selects the default, any other value is kept
pub open spec fn spec_default_u64(value: u64, default: u64) -> u64 {
    if value == 0 {
        default
    } else {
        value
    }
}

fn default_u64(value: u64, default: u64) -> (result: u64)
    ensures
        result == spec_default_u64(value, default),
{
    if value == 0 {
        default
    } else {
        value
    }
}

/// Bounded eager-work limits for one JsonDocument
#[derive(Clone, Copy, Debug, PartialEq, Eq, Structural)]
pub struct JsonDocumentLimits {
    max_nodes: u64,
    max_depth: u32,
    max_string_bytes: u64,
    max_serialized_bytes: u64,
}

impl JsonDocumentLimits {
    /// Every limit is positive and the depth stays within the hard maximum
    #[verifier::type_invariant]
    closed spec fn well_formed(self) -> bool {
        &&& self.max_nodes > 0
        &&& 0 < self.max_depth <= MAX_JSON_DOCUMENT_DEPTH
        &&& self.max_string_bytes > 0
        &&& self.max_serialized_bytes > 0
    }

    /// The maximum JSON value occurrence count
    pub closed spec fn spec_max_nodes(self) -> u64 {
        self.max_nodes
    }

    /// The maximum one-based JSON value depth
    pub closed spec fn spec_max_depth(self) -> u32 {
        self.max_depth
    }

    /// The maximum decoded bytes across strings and object keys
    pub closed spec fn spec_max_string_bytes(self) -> u64 {
        self.max_string_bytes
    }

    /// The maximum compact serialization byte count
    pub closed spec fn spec_max_serialized_bytes(self) -> u64 {
        self.max_serialized_bytes
    }

    /// Returns the maximum JSON value occurrence count
    pub fn max_nodes(&self) -> (value: u64)
        ensures
            value == self.spec_max_nodes(),
    {
        self.max_nodes
    }

    /// Returns these limits with a maximum JSON value occurrence count
    ///
    /// Zero restores the default
    pub fn with_max_nodes(self, value: u64) -> (limits: Self)
        ensures
            limits.spec_max_nodes() == spec_default_u64(value, DEFAULT_JSON_DOCUMENT_MAX_NODES),
            limits.spec_max_depth() == self.spec_max_depth(),
            limits.spec_max_string_bytes() == self.spec_max_string_bytes(),
            limits.spec_max_serialized_bytes() == self.spec_max_serialized_bytes(),
    {
        proof {
            use_type_invariant(&self);
        }
        JsonDocumentLimits {
            max_nodes: default_u64(value, DEFAULT_JSON_DOCUMENT_MAX_NODES),
            ..self
        }
    }

    /// Returns the maximum one-based JSON value depth
    pub fn max_depth(&self) -> (value: u32)
        ensures
            value == self.spec_max_depth(),
    {
        self.max_depth
    }

    /// Returns these limits with a capped maximum one-based depth
    ///
    /// Zero restores the default and values above the hard maximum are capped
    pub fn with_max_depth(self, value: u32) -> (limits: Self)
        ensures
            limits.spec_max_depth() == (if value == 0 {
                DEFAULT_JSON_DOCUMENT_MAX_DEPTH
            } else if value > MAX_JSON_DOCUMENT_DEPTH {
                MAX_JSON_DOCUMENT_DEPTH
            } else {
                value
            }),
            limits.spec_max_nodes() == self.spec_max_nodes(),
            limits.spec_max_string_bytes() == self.spec_max_string_bytes(),
            limits.spec_max_serialized_bytes() == self.spec_max_serialized_bytes(),
    {
        proof {
            use_type_invariant(&self);
        }
        let value = if value == 0 {
            DEFAULT_JSON_DOCUMENT_MAX_DEPTH
        } else {
            value
        };
        let value = if value > MAX_JSON_DOCUMENT_DEPTH {
            MAX_JSON_DOCUMENT_DEPTH
        } else {
            value
        };
        JsonDocumentLimits { max_depth: value, ..self }
    }

    /// Returns the maximum decoded bytes across strings and object keys
    pub fn max_string_bytes(&self) -> (value: u64)
        ensures
            value == self.spec_max_string_bytes(),
    {
        self.max_string_bytes
    }

    /// Returns these limits with a maximum decoded string byte count
    ///
    /// Zero restores the default
    pub fn with_max_string_bytes(self, value: u64) -> (limits: Self)
        ensures
            limits.spec_max_string_bytes() == spec_default_u64(
                value,
                DEFAULT_JSON_DOCUMENT_MAX_STRING_BYTES,
            ),
            limits.spec_max_nodes() == self.spec_max_nodes(),
            limits.spec_max_depth() == self.spec_max_depth(),
            limits.spec_max_serialized_bytes() == self.spec_max_serialized_bytes(),
    {
        proof {
            use_type_invariant(&self);
        }
        JsonDocumentLimits {
            max_string_bytes: default_u64(value, DEFAULT_JSON_DOCUMENT_MAX_STRING_BYTES),
            ..self
        }
    }

    /// Returns the maximum deterministic compact serialization byte count
    pub fn max_serialized_bytes(&self) -> (value: u64)
        ensures
            value == self.spec_max_serialized_bytes(),
    {
        self.max_serialized_bytes
    }

    /// Returns these limits with a maximum serialized byte count
    ///
    /// Zero restores the default
    pub fn with_max_serialized_bytes(self, value: u64) -> (limits: Self)
        ensures
            limits.spec_max_serialized_bytes() == spec_default_u64(
                value,
                DEFAULT_JSON_DOCUMENT_MAX_SERIALIZED_BYTES,
            ),
            limits.spec_max_nodes() == self.spec_max_nodes(),
            limits.spec_max_depth() == self.spec_max_depth(),
            limits.spec_max_string_bytes() == self.spec_max_string_bytes(),
    {
        proof {
            use_type_invariant(&self);
        }
        JsonDocumentLimits {
            max_serialized_bytes: default_u64(value, DEFAULT_JSON_DOCUMENT_MAX_SERIALIZED_BYTES),
            ..self
        }
    }
}

impl JsonDocumentLimits {
    /// The bounded default limits
    pub closed spec fn spec_default() -> JsonDocumentLimits {
        JsonDocumentLimits {
            max_nodes: DEFAULT_JSON_DOCUMENT_MAX_NODES,
            max_depth: DEFAULT_JSON_DOCUMENT_MAX_DEPTH,
            max_string_bytes: DEFAULT_JSON_DOCUMENT_MAX_STRING_BYTES,
            max_serialized_bytes: DEFAULT_JSON_DOCUMENT_MAX_SERIALIZED_BYTES,
        }
    }
}

impl Default for JsonDocumentLimits {
    fn default() -> (limits: Self)
        ensures
            limits == JsonDocumentLimits::spec_default(),
            limits.spec_max_nodes() == DEFAULT_JSON_DOCUMENT_MAX_NODES,
            limits.spec_max_depth() == DEFAULT_JSON_DOCUMENT_MAX_DEPTH,
            limits.spec_max_string_bytes() == DEFAULT_JSON_DOCUMENT_MAX_STRING_BYTES,
            limits.spec_max_serialized_bytes() == DEFAULT_JSON_DOCUMENT_MAX_SERIALIZED_BYTES,
    {
        JsonDocumentLimits {
            max_nodes: DEFAULT_JSON_DOCUMENT_MAX_NODES,
            max_depth: DEFAULT_JSON_DOCUMENT_MAX_DEPTH,
            max_string_bytes: DEFAULT_JSON_DOCUMENT_MAX_STRING_BYTES,
            max_serialized_bytes: DEFAULT_JSON_DOCUMENT_MAX_SERIALIZED_BYTES,
        }
    }
}

/// Stable category of a JSON document resource failure
#[derive(Clone, Copy, Debug, PartialEq, Eq, Structural)]
pub enum JsonDocumentErrorKind {
    /// The value occurrence limit was exceeded
    NodeLimit,
    /// The one-based nesting depth limit was exceeded
    DepthLimit,
    /// The decoded string and key byte limit was exceeded
    StringByteLimit,
    /// The compact serialization byte limit was exceeded
    SerializedByteLimit,
}

/// The stable identifier of each failure category
pub open spec fn spec_json_error_kind_name(kind: JsonDocumentErrorKind) -> Seq<char> {
    match kind {
        JsonDocumentErrorKind::NodeLimit => "node-limit"@,
        JsonDocumentErrorKind::DepthLimit => "depth-limit"@,
        JsonDocumentErrorKind::StringByteLimit => "string-byte-limit"@,
        JsonDocumentErrorKind::SerializedByteLimit => "serialized-byte-limit"@,
    }
}

impl JsonDocumentErrorKind {
    /// Returns the stable language-independent error identifier
    pub fn as_str(self) -> (name: &'static str)
        ensures
            name@ == spec_json_error_kind_name(self),
    {
        match self {
            JsonDocumentErrorKind::NodeLimit => "node-limit",
            JsonDocumentErrorKind::DepthLimit => "depth-limit",
            JsonDocumentErrorKind::StringByteLimit => "string-byte-limit",
            JsonDocumentErrorKind::SerializedByteLimit => "serialized-byte-limit",
        }
    }
}

/// Structured JSON document resource failure
#[derive(Clone, Copy, Debug, PartialEq, Eq, Structural)]
pub struct JsonDocumentError {
    kind: JsonDocumentErrorKind,
    limit: u64,
    observed: u64,
}

/// The failure of category `kind` with its limit and first observed value
pub closed spec fn json_document_error(
    kind: JsonDocumentErrorKind,
    limit: u64,
    observed: u64,
) -> JsonDocumentError {
    JsonDocumentError { kind, limit, observed }
}

impl JsonDocumentError {
    /// The stable error category
    pub closed spec fn spec_kind(self) -> JsonDocumentErrorKind {
        self.kind
    }

    /// The configured limit
    pub closed spec fn spec_limit(self) -> u64 {
        self.limit
    }

    /// The first observed value beyond the limit
    pub closed spec fn spec_observed(self) -> u64 {
        self.observed
    }

    /// Failures are determined by their three fields
    pub proof fn lemma_fields(self)
        ensures
            self == json_document_error(self.spec_kind(), self.spec_limit(), self.spec_observed()),
    {
    }

    /// Returns the stable error category
    pub fn kind(&self) -> (kind: JsonDocumentErrorKind)
        ensures
            kind == self.spec_kind(),
    {
        self.kind
    }

    /// Returns the configured limit
    pub fn limit(&self) -> (limit: u64)
        ensures
            limit == self.spec_limit(),
    {
        self.limit
    }

    /// Returns the first observed value beyond the limit
    pub fn observed(&self) -> (observed: u64)
        ensures
            observed == self.spec_observed(),
    {
        self.observed
    }
}

/// Accessors of a constructed failure return its fields
pub proof fn lemma_json_document_error_fields(
    kind: JsonDocumentErrorKind,
    limit: u64,
    observed: u64,
)
    ensures
        json_document_error(kind, limit, observed).spec_kind() == kind,
        json_document_error(kind, limit, observed).spec_limit() == limit,
        json_document_error(kind, limit, observed).spec_observed() == observed,
{
}

fn check_limit(kind: JsonDocumentErrorKind, limit: u64, observed: u64) -> (result: Result<
    (),
    JsonDocumentError,
>)
    ensures
        observed > limit ==> result == Err::<(), JsonDocumentError>(
            json_document_error(kind, limit, observed),
        ),
        observed <= limit ==> result is Ok,
{
    if observed > limit {
        Err(JsonDocumentError { kind, limit, observed })
    } else {
        Ok(())
    }
}

// ---------------------------------------------------------------------------
// Resource validation
// ---------------------------------------------------------------------------

/// Addition that stops at `u64::MAX`
pub open spec fn saturating(value: int) -> int {
    if value > u64::MAX {
        u64::MAX as int
    } else {
        value
    }
}

/// Serialized bytes of one escaped string character
pub open spec fn escaped_byte_cost(character: char) -> nat {
    if character == '"' || character == '\\' || character == '\u{0008}' || character == '\u{000C}'
        || character == '\n' || character == '\r' || character == '\t' {
        2
    } else if (character as u32) < 0x20 {
        6
    } else {
        utf8_width(character)
    }
}

/// Serialized bytes of escaped string content, without quotes
pub open spec fn escaped_byte_count(chars: Seq<char>) -> nat
    decreases chars.len(),
{
    if chars.len() == 0 {
        0
    } else {
        escaped_byte_count(chars.drop_last()) + escaped_byte_cost(chars.last())
    }
}

/// Serialized bytes of a quoted JSON string literal
pub open spec fn quoted_byte_count(chars: Seq<char>) -> nat {
    2 + escaped_byte_count(chars)
}

/// Decoded UTF-8 bytes of every key of `members`
pub open spec fn member_key_bytes(members: Seq<JsonMember>) -> nat
    decreases members.len(),
{
    if members.len() == 0 {
        0
    } else {
        member_key_bytes(members.drop_last()) + utf8_len(members.last().spec_key())
    }
}

/// Serialized bytes of every quoted key of `members` and its colon
pub open spec fn member_key_serialized_bytes(members: Seq<JsonMember>) -> nat
    decreases members.len(),
{
    if members.len() == 0 {
        0
    } else {
        member_key_serialized_bytes(members.drop_last()) + quoted_byte_count(
            members.last().spec_key(),
        ) + 1
    }
}

/// Separators between `count` elements
pub open spec fn separator_count(count: nat) -> nat {
    if count == 0 {
        0
    } else {
        (count - 1) as nat
    }
}

/// Decoded string and key bytes contributed by one value occurrence
pub open spec fn node_string_bytes(value: JsonValue) -> nat {
    match value.spec_kind() {
        JsonKind::String => utf8_len(value.spec_string().unwrap()),
        JsonKind::Object => member_key_bytes(value.spec_members()),
        _ => 0,
    }
}

/// Serialized bytes contributed by one value occurrence, excluding children
pub open spec fn node_serialized_bytes(value: JsonValue) -> nat {
    match value.spec_kind() {
        JsonKind::Null => 4,
        JsonKind::Boolean => if value.spec_boolean() == Some(true) {
            4
        } else {
            5
        },
        JsonKind::Number => utf8_len(value.spec_number().unwrap()),
        JsonKind::String => quoted_byte_count(value.spec_string().unwrap()),
        JsonKind::Array => 2 + separator_count(value.spec_items().len()),
        JsonKind::Object => 2 + separator_count(value.spec_members().len())
            + member_key_serialized_bytes(value.spec_members()),
    }
}

/// Running value, string byte, and serialized byte counts
pub type JsonCounts = (int, int, int);

/// Checks one value occurrence and then its children in preorder against
/// the limits, giving the final counts or the first failure
pub open spec fn check_json_value(
    value: JsonValue,
    depth: int,
    limits: JsonDocumentLimits,
    counts: JsonCounts,
) -> Result<JsonCounts, JsonDocumentError>
    decreases value, 1int,
{
    let nodes = saturating(counts.0 + 1);
    let strings = saturating(counts.1 + node_string_bytes(value));
    let serialized = saturating(counts.2 + node_serialized_bytes(value));
    if nodes > limits.spec_max_nodes() {
        Err(
            json_document_error(
                JsonDocumentErrorKind::NodeLimit,
                limits.spec_max_nodes(),
                nodes as u64,
            ),
        )
    } else if depth > limits.spec_max_depth() {
        Err(
            json_document_error(
                JsonDocumentErrorKind::DepthLimit,
                limits.spec_max_depth() as u64,
                depth as u64,
            ),
        )
    } else if strings > limits.spec_max_string_bytes() {
        Err(
            json_document_error(
                JsonDocumentErrorKind::StringByteLimit,
                limits.spec_max_string_bytes(),
                strings as u64,
            ),
        )
    } else if serialized > limits.spec_max_serialized_bytes() {
        Err(
            json_document_error(
                JsonDocumentErrorKind::SerializedByteLimit,
                limits.spec_max_serialized_bytes(),
                serialized as u64,
            ),
        )
    } else {
        match value.spec_kind() {
            JsonKind::Array => {
                proof {
                    lemma_items_decrease(value);
                }
                check_json_items(value.spec_items(), depth + 1, limits, (nodes, strings, serialized))
            },
            JsonKind::Object => {
                proof {
                    lemma_members_decrease(value);
                }
                check_json_members(
                    value.spec_members(),
                    depth + 1,
                    limits,
                    (nodes, strings, serialized),
                )
            },
            _ => Ok((nodes, strings, serialized)),
        }
    }
}

/// Checks ordered values one after another
pub open spec fn check_json_items(
    items: Seq<JsonValue>,
    depth: int,
    limits: JsonDocumentLimits,
    counts: JsonCounts,
) -> Result<JsonCounts, JsonDocumentError>
    decreases items, 0int,
{
    if items.len() == 0 {
        Ok(counts)
    } else {
        match check_json_items(items.drop_last(), depth, limits, counts) {
            Err(error) => Err(error),
            Ok(next) => check_json_value(items.last(), depth, limits, next),
        }
    }
}

/// Checks the values of ordered members one after another
pub open spec fn check_json_members(
    members: Seq<JsonMember>,
    depth: int,
    limits: JsonDocumentLimits,
    counts: JsonCounts,
) -> Result<JsonCounts, JsonDocumentError>
    decreases members, 0int,
{
    if members.len() == 0 {
        Ok(counts)
    } else {
        match check_json_members(members.drop_last(), depth, limits, counts) {
            Err(error) => Err(error),
            Ok(next) => {
                proof {
                    lemma_member_value_decreases(members.last());
                }
                check_json_value(members.last().spec_value(), depth, limits, next)
            },
        }
    }
}

/// The checks a document applies to its root, starting from zero counts at depth one
pub open spec fn check_json_document(root: JsonValue, limits: JsonDocumentLimits) -> Result<
    JsonCounts,
    JsonDocumentError,
> {
    check_json_value(root, 1, limits, (0, 0, 0))
}

/// Saturating twice is saturating the total
proof fn lemma_saturating_twice(start: int, first: int, second: int)
    requires
        start >= 0,
        first >= 0,
        second >= 0,
    ensures
        saturating(saturating(start + first) + second) == saturating(start + first + second),
{
}

/// Adding a saturated amount saturates like adding the amount
proof fn lemma_saturating_nested(start: int, amount: int)
    requires
        start >= 0,
        amount >= 0,
    ensures
        saturating(start + saturating(amount)) == saturating(start + amount),
{
}

/// A failure inside a prefix of values is the failure of all values
proof fn lemma_items_error_extends(
    items: Seq<JsonValue>,
    count: int,
    depth: int,
    limits: JsonDocumentLimits,
    counts: JsonCounts,
)
    requires
        0 <= count <= items.len(),
        check_json_items(items.take(count), depth, limits, counts) is Err,
    ensures
        check_json_items(items, depth, limits, counts) == check_json_items(
            items.take(count),
            depth,
            limits,
            counts,
        ),
    decreases items.len() - count,
{
    if count < items.len() {
        assert(items.take(count + 1).drop_last() =~= items.take(count));
        lemma_items_error_extends(items, count + 1, depth, limits, counts);
    } else {
        assert(items.take(count) =~= items);
    }
}

/// A failure inside a prefix of members is the failure of all members
proof fn lemma_members_error_extends(
    members: Seq<JsonMember>,
    count: int,
    depth: int,
    limits: JsonDocumentLimits,
    counts: JsonCounts,
)
    requires
        0 <= count <= members.len(),
        check_json_members(members.take(count), depth, limits, counts) is Err,
    ensures
        check_json_members(members, depth, limits, counts) == check_json_members(
            members.take(count),
            depth,
            limits,
            counts,
        ),
    decreases members.len() - count,
{
    if count < members.len() {
        assert(members.take(count + 1).drop_last() =~= members.take(count));
        lemma_members_error_extends(members, count + 1, depth, limits, counts);
    } else {
        assert(members.take(count) =~= members);
    }
}

pub(crate) struct JsonDocumentCounters {
    nodes: u64,
    string_bytes: u64,
    serialized_bytes: u64,
}

impl JsonDocumentCounters {
    /// Counters before any value is seen
    pub(crate) fn zero() -> (counters: Self)
        ensures
            counters.counts() == (0int, 0int, 0int),
    {
        JsonDocumentCounters { nodes: 0, string_bytes: 0, serialized_bytes: 0 }
    }

    pub(crate) closed spec fn counts(self) -> JsonCounts {
        (self.nodes as int, self.string_bytes as int, self.serialized_bytes as int)
    }
}

fn json_string_serialized_bytes(value: &str) -> (bytes: u64)
    ensures
        bytes as int == saturating(quoted_byte_count(value@) as int),
{
    broadcast use vstd::string::group_string_axioms;

    let ghost chars = value@;
    let mut bytes: u64 = 2;
    for character in iter: value.chars()
        invariant
            iter.seq() == chars,
            chars == value@,
            0 <= iter.index() <= chars.len(),
            bytes as int == saturating(2 + escaped_byte_count(chars.take(iter.index())) as int),
    {
        let ghost index = iter.index();
        proof {
            assert(chars.take(index + 1).drop_last() =~= chars.take(index));
            assert(chars.take(index + 1).last() == chars[index]);
        }
        let cost: u64 = if character == '"' || character == '\\' || character == '\u{0008}'
            || character == '\u{000C}' || character == '\n' || character == '\r' || character
            == '\t' {
            2
        } else if (character as u32) < 0x20 {
            6
        } else {
            char_utf8_width(character) as u64
        };
        bytes = bytes.saturating_add(cost);
    }
    assert(chars.take(chars.len() as int) =~= chars);
    bytes
}

fn utf8_byte_length(value: &str) -> (length: u64)
    ensures
        length as int == utf8_len(value@),
{
    proof {
        lemma_utf8_len_is_encoding_length(value@);
    }
    value.as_bytes().len() as u64
}

pub(crate) fn validate_json_value(
    value: &JsonValue,
    depth: u32,
    limits: JsonDocumentLimits,
    counters: &mut JsonDocumentCounters,
) -> (result: Result<(), JsonDocumentError>)
    requires
        depth <= MAX_JSON_DOCUMENT_DEPTH + 1,
    ensures
        match check_json_value(*value, depth as int, limits, old(counters).counts()) {
            Ok(counts) => result is Ok && final(counters).counts() == counts,
            Err(error) => result == Err::<(), JsonDocumentError>(error),
        },
    decreases *value,
{
    proof {
        use_type_invariant(&limits);
        lemma_value_representation(*value);
    }
    counters.nodes = counters.nodes.saturating_add(1);
    check_limit(JsonDocumentErrorKind::NodeLimit, limits.max_nodes, counters.nodes)?;
    check_limit(JsonDocumentErrorKind::DepthLimit, limits.max_depth as u64, depth as u64)?;
    let ghost c = old(counters).counts();
    match &*value.inner {
        JsonValueData::Null => {
            counters.serialized_bytes = counters.serialized_bytes.saturating_add(4);
        },
        JsonValueData::Boolean(flag) => {
            counters.serialized_bytes = counters.serialized_bytes.saturating_add(
                if *flag {
                    4
                } else {
                    5
                },
            );
        },
        JsonValueData::Number(number) => {
            let length = utf8_byte_length(number.as_str());
            counters.serialized_bytes = counters.serialized_bytes.saturating_add(length);
        },
        JsonValueData::Text(text) => {
            let length = utf8_byte_length(text.as_str());
            counters.string_bytes = counters.string_bytes.saturating_add(length);
            let quoted = json_string_serialized_bytes(text.as_str());
            proof {
                lemma_saturating_nested(c.2, quoted_byte_count(text@) as int);
            }
            counters.serialized_bytes = counters.serialized_bytes.saturating_add(quoted);
        },
        JsonValueData::Array(values) => {
            let separators = if values.len() == 0 {
                0
            } else {
                values.len() - 1
            };
            counters.serialized_bytes = counters.serialized_bytes.saturating_add(2).saturating_add(
                separators as u64,
            );
        },
        JsonValueData::Object(members) => {
            let separators = if members.len() == 0 {
                0
            } else {
                members.len() - 1
            };
            counters.serialized_bytes = counters.serialized_bytes.saturating_add(2).saturating_add(
                separators as u64,
            );
            let ghost start_strings = counters.string_bytes as int;
            let ghost start_serialized = counters.serialized_bytes as int;
            let ghost node_total = counters.nodes;
            let mut index: usize = 0;
            while index < members.len()
                invariant
                    0 <= index <= members@.len(),
                    counters.nodes == node_total,
                    0 <= start_strings,
                    0 <= start_serialized,
                    counters.string_bytes as int == saturating(
                        start_strings + member_key_bytes(members@.take(index as int)),
                    ),
                    counters.serialized_bytes as int == saturating(
                        start_serialized + member_key_serialized_bytes(members@.take(index as int)),
                    ),
                decreases members@.len() - index,
            {
                proof {
                    assert(members@.take(index + 1).drop_last() =~= members@.take(index as int));
                }
                let key = members[index].key.as_str();
                let length = utf8_byte_length(key);
                let quoted = json_string_serialized_bytes(key);
                proof {
                    let prefix = members@.take(index as int);
                    let key_chars = members@[index as int].spec_key();
                    lemma_member_representation(members@[index as int]);
                    assert(key@ == key_chars);
                    lemma_saturating_twice(start_strings, member_key_bytes(prefix) as int, length as int);
                    lemma_saturating_twice(
                        start_serialized,
                        member_key_serialized_bytes(prefix) as int,
                        quoted_byte_count(key_chars) as int,
                    );
                    lemma_saturating_nested(
                        saturating(start_serialized + member_key_serialized_bytes(prefix)),
                        quoted_byte_count(key_chars) as int,
                    );
                    lemma_saturating_twice(
                        start_serialized,
                        (member_key_serialized_bytes(prefix) + quoted_byte_count(key_chars)) as int,
                        1,
                    );
                }
                counters.string_bytes = counters.string_bytes.saturating_add(length);
                counters.serialized_bytes = counters.serialized_bytes.saturating_add(
                    quoted,
                ).saturating_add(1);
                index = index + 1;
            }
            assert(members@.take(members@.len() as int) =~= members@);
            proof {
                lemma_saturating_twice(c.2, 2, separator_count(members@.len()) as int);
                lemma_saturating_twice(
                    c.2,
                    (2 + separator_count(members@.len())) as int,
                    member_key_serialized_bytes(members@) as int,
                );
            }
        },
    }
    proof {
        if let JsonValueData::Array(values) = &*value.inner {
            lemma_saturating_twice(c.2, 2, separator_count(values@.len()) as int);
        }
        if let JsonValueData::Number(number) = &*value.inner {
            lemma_number_representation(*number);
        }
        assert(counters.string_bytes == saturating(c.1 + node_string_bytes(*value)));
        assert(counters.serialized_bytes == saturating(c.2 + node_serialized_bytes(*value)));
    }
    check_limit(
        JsonDocumentErrorKind::StringByteLimit,
        limits.max_string_bytes,
        counters.string_bytes,
    )?;
    check_limit(
        JsonDocumentErrorKind::SerializedByteLimit,
        limits.max_serialized_bytes,
        counters.serialized_bytes,
    )?;
    let ghost after_node = counters.counts();
    match &*value.inner {
        JsonValueData::Array(values) => {
            let mut index: usize = 0;
            while index < values.len()
                invariant
                    0 <= index <= values@.len(),
                    c == old(counters).counts(),
                    values@ == value.spec_items(),
                    check_json_value(*value, depth as int, limits, c) == check_json_items(
                        values@,
                        depth + 1,
                        limits,
                        after_node,
                    ),
                    depth < MAX_JSON_DOCUMENT_DEPTH + 1,
                    check_json_items(values@.take(index as int), depth + 1, limits, after_node)
                        == Ok::<JsonCounts, JsonDocumentError>(counters.counts()),
                decreases values@.len() - index,
            {
                proof {
                    assert(values@.take(index + 1).drop_last() =~= values@.take(index as int));
                    lemma_items_decrease(*value);
                }
                let ghost before = counters.counts();
                let checked = validate_json_value(&values[index], depth + 1, limits, counters);
                if let Err(error) = checked {
                    proof {
                        assert(values@.take(index + 1).last() == values@[index as int]);
                        assert(check_json_items(values@.take(index + 1), depth + 1, limits, after_node)
                            == check_json_value(values@[index as int], depth + 1, limits, before));
                        lemma_items_error_extends(
                            values@,
                            index + 1,
                            depth + 1,
                            limits,
                            after_node,
                        );
                    }
                    return Err(error);
                }
                index = index + 1;
            }
            assert(values@.take(values@.len() as int) =~= values@);
        },
        JsonValueData::Object(members) => {
            let mut index: usize = 0;
            while index < members.len()
                invariant
                    0 <= index <= members@.len(),
                    c == old(counters).counts(),
                    members@ == value.spec_members(),
                    check_json_value(*value, depth as int, limits, c) == check_json_members(
                        members@,
                        depth + 1,
                        limits,
                        after_node,
                    ),
                    depth < MAX_JSON_DOCUMENT_DEPTH + 1,
                    check_json_members(members@.take(index as int), depth + 1, limits, after_node)
                        == Ok::<JsonCounts, JsonDocumentError>(counters.counts()),
                decreases members@.len() - index,
            {
                proof {
                    assert(members@.take(index + 1).drop_last() =~= members@.take(index as int));
                    lemma_members_decrease(*value);
                    lemma_member_representation(members@[index as int]);
                }
                let ghost before = counters.counts();
                let checked = validate_json_value(&members[index].value, depth + 1, limits, counters);
                if let Err(error) = checked {
                    proof {
                        assert(members@.take(index + 1).last() == members@[index as int]);
                        assert(check_json_members(members@.take(index + 1), depth + 1, limits, after_node)
                            == check_json_value(members@[index as int].spec_value(), depth + 1, limits, before));
                        lemma_members_error_extends(
                            members@,
                            index + 1,
                            depth + 1,
                            limits,
                            after_node,
                        );
                    }
                    return Err(error);
                }
                index = index + 1;
            }
            assert(members@.take(members@.len() as int) =~= members@);
        },
        _ => {},
    }
    Ok(())
}

/// Applies every resource limit to a document root
pub(crate) fn validate_document(root: &JsonValue, limits: JsonDocumentLimits) -> (result: Result<
    (),
    JsonDocumentError,
>)
    ensures
        match check_json_document(*root, limits) {
            Ok(_) => result is Ok,
            Err(error) => result == Err::<(), JsonDocumentError>(error),
        },
{
    let mut counters = JsonDocumentCounters::zero();
    validate_json_value(root, 1, limits, &mut counters)
}

} // verus!
