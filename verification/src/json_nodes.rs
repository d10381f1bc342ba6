use std::sync::Arc;

use vstd::prelude::*;

use crate::json::{
    JsonKind, JsonMember, JsonPointer, JsonValue, JsonValueData, bad_tilde_at, escape_tail_at,
    has_unique_keys, is_json_pointer, items_keys_unique, keys_unique_throughout, members_keys_unique,
    repeats_earlier_key, lemma_items_decrease, lemma_member_representation,
    lemma_member_value_decreases, lemma_members_decrease, lemma_number_representation,
    lemma_value_representation,
};
use crate::text::{same_allocation, share};
use crate::json_document::{
    JsonDocumentError, JsonDocumentLimits, check_json_document, json_serialization, push_char,
    push_json_string, quoted_json_string, serialize_items, serialize_member, serialize_members,
    validate_document,
};

verus! {

// ---------------------------------------------------------------------------
// Child pointers
// ---------------------------------------------------------------------------

/// The decimal digit character of `value < 10`
pub open spec fn digit_char(value: nat) -> char {
    (value + 48) as char
}

/// The decimal spelling of a natural number
pub open spec fn decimal_chars(value: nat) -> Seq<char>
    decreases value,
{
    if value < 10 {
        seq![digit_char(value)]
    } else {
        decimal_chars(value / 10) + seq![digit_char(value % 10)]
    }
}

/// The JSON Pointer escape of one key character
pub open spec fn escape_pointer_char(character: char) -> Seq<char> {
    if character == '~' {
        seq!['~', '0']
    } else if character == '/' {
        seq!['~', '1']
    } else {
        seq![character]
    }
}

/// The JSON Pointer reference token of an object key
pub open spec fn escape_pointer_token(key: Seq<char>) -> Seq<char>
    decreases key.len(),
{
    if key.len() == 0 {
        Seq::empty()
    } else {
        escape_pointer_token(key.drop_last()) + escape_pointer_char(key.last())
    }
}

/// The pointer of array element `index` under `parent`
pub open spec fn array_child_pointer(parent: Seq<char>, index: nat) -> Seq<char> {
    parent + seq!['/'] + decimal_chars(index)
}

/// The pointer of the member with `key` under `parent`
pub open spec fn object_child_pointer(parent: Seq<char>, key: Seq<char>) -> Seq<char> {
    parent + seq!['/'] + escape_pointer_token(key)
}

/// Every `~` of a token starts an escape
proof fn lemma_token_escapes(key: Seq<char>)
    ensures
        forall|index: int| !bad_tilde_at(escape_pointer_token(key), index),
    decreases key.len(),
{
    if key.len() > 0 {
        lemma_token_escapes(key.drop_last());
        let front = escape_pointer_token(key.drop_last());
        let back = escape_pointer_char(key.last());
        let token = escape_pointer_token(key);
        assert(token =~= front + back);
        assert forall|index: int| !bad_tilde_at(token, index) by {
            if 0 <= index < front.len() && token[index] == '~' {
                assert(token[index] == front[index]);
                assert(!bad_tilde_at(front, index));
                assert(escape_tail_at(front, index + 1));
                assert(token[index + 1] == front[index + 1]);
            }
        }
    }
}

/// The digits of a decimal spelling hold no `~`
proof fn lemma_decimal_has_no_tilde(value: nat)
    ensures
        forall|index: int|
            0 <= index < decimal_chars(value).len() ==> decimal_chars(value)[index] != '~',
        decimal_chars(value).len() >= 1,
    decreases value,
{
    if value >= 10 {
        lemma_decimal_has_no_tilde(value / 10);
    }
}

/// Appending `/` and a token whose tildes all start escapes keeps a pointer valid
proof fn lemma_pointer_append(parent: Seq<char>, token: Seq<char>)
    requires
        is_json_pointer(parent),
        forall|index: int| !bad_tilde_at(token, index),
    ensures
        is_json_pointer(parent + seq!['/'] + token),
{
    let child = parent + seq!['/'] + token;
    let offset = parent.len() + 1;
    assert forall|index: int| !bad_tilde_at(child, index) by {
        if 0 <= index < parent.len() && child[index] == '~' {
            assert(child[index] == parent[index]);
            assert(!bad_tilde_at(parent, index));
            if index + 1 < parent.len() {
                assert(child[index + 1] == parent[index + 1]);
            }
        } else if offset <= index < child.len() && child[index] == '~' {
            assert(child[index] == token[index - offset]);
            assert(!bad_tilde_at(token, index - offset));
            assert(child[index + 1] == token[index - offset + 1]);
        }
    }
    if parent.len() == 0 {
        assert(child[0] == '/');
    } else {
        assert(child[0] == parent[0]);
    }
}

/// Array element pointers are valid pointers
proof fn lemma_array_child_pointer(parent: Seq<char>, index: nat)
    requires
        is_json_pointer(parent),
    ensures
        is_json_pointer(array_child_pointer(parent, index)),
{
    lemma_decimal_has_no_tilde(index);
    lemma_pointer_append(parent, decimal_chars(index));
}

/// Member pointers are valid pointers
proof fn lemma_object_child_pointer(parent: Seq<char>, key: Seq<char>)
    requires
        is_json_pointer(parent),
    ensures
        is_json_pointer(object_child_pointer(parent, key)),
{
    lemma_token_escapes(key);
    lemma_pointer_append(parent, escape_pointer_token(key));
}

/// A token holds no `/`
pub open spec fn is_segment(token: Seq<char>) -> bool {
    forall|index: int| 0 <= index < token.len() ==> token[index] != '/'
}

/// The numeric value of a string of decimal digits
pub open spec fn decimal_value(digits: Seq<char>) -> int
    decreases digits.len(),
{
    if digits.len() == 0 {
        0
    } else {
        decimal_value(digits.drop_last()) * 10 + (digits.last() as int - 48)
    }
}

/// A decimal spelling reads back as its number and holds no `/`
proof fn lemma_decimal_token(value: nat)
    ensures
        decimal_value(decimal_chars(value)) == value,
        is_segment(decimal_chars(value)),
    decreases value,
{
    let chars = decimal_chars(value);
    if value >= 10 {
        lemma_decimal_token(value / 10);
        let front = decimal_chars(value / 10);
        assert(chars.drop_last() =~= front);
        assert(chars.last() == digit_char(value % 10));
        assert(digit_char(value % 10) as int == value % 10 + 48);
        assert(value == (value / 10) * 10 + value % 10);
        assert(decimal_value(chars) == decimal_value(front) * 10 + (chars.last() as int - 48));
        assert forall|index: int| 0 <= index < chars.len() implies chars[index] != '/' by {
            if index < front.len() {
                assert(chars[index] == front[index]);
            }
        }
    } else {
        assert(chars.drop_last() =~= Seq::<char>::empty());
        assert(digit_char(value) as int == value + 48);
        assert(decimal_value(chars.drop_last()) == 0);
    }
}

/// The key spelled by a JSON Pointer reference token
pub open spec fn unescape_pointer_token(token: Seq<char>) -> Seq<char>
    decreases token.len(),
{
    if token.len() == 0 {
        Seq::empty()
    } else if token.len() >= 2 && token[token.len() - 2] == '~' && token.last() == '0' {
        unescape_pointer_token(token.subrange(0, token.len() - 2)).push('~')
    } else if token.len() >= 2 && token[token.len() - 2] == '~' && token.last() == '1' {
        unescape_pointer_token(token.subrange(0, token.len() - 2)).push('/')
    } else {
        unescape_pointer_token(token.drop_last()).push(token.last())
    }
}

/// A key's reference token reads back as the key, holds no `/` and never ends in `~`
proof fn lemma_escape_token(key: Seq<char>)
    ensures
        unescape_pointer_token(escape_pointer_token(key)) == key,
        is_segment(escape_pointer_token(key)),
        escape_pointer_token(key).len() > 0 ==> escape_pointer_token(key).last() != '~',
    decreases key.len(),
{
    if key.len() > 0 {
        lemma_escape_token(key.drop_last());
        let front = escape_pointer_token(key.drop_last());
        let back = escape_pointer_char(key.last());
        let token = escape_pointer_token(key);
        let character = key.last();
        assert(token =~= front + back);
        assert(key.drop_last().push(character) =~= key);
        if character == '~' || character == '/' {
            assert(token.subrange(0, token.len() - 2) =~= front);
        } else {
            assert(token.drop_last() =~= front);
            if token.len() >= 2 {
                assert(token[token.len() - 2] == front.last());
            }
        }
        assert forall|index: int| 0 <= index < token.len() implies token[index] != '/' by {
            if index < front.len() {
                assert(token[index] == front[index]);
            }
        }
    }
}

/// Where the reference token starting at `start` of `path` ends: at the next `/` or at the end
pub open spec fn segment_end(path: Seq<char>, start: int) -> int
    decreases path.len() - start,
{
    if start < 0 || start >= path.len() || path[start] == '/' {
        start
    } else {
        segment_end(path, start + 1)
    }
}

/// The reference token of `path` that starts at `start`
pub open spec fn segment_at(path: Seq<char>, start: int) -> Seq<char> {
    path.subrange(start, segment_end(path, start))
}

/// `path` lies strictly below `ancestor`: it continues `ancestor` with `/`
pub open spec fn is_below(path: Seq<char>, ancestor: Seq<char>) -> bool {
    path.len() > ancestor.len() && path.subrange(0, ancestor.len() + 1int) == ancestor + seq!['/']
}

proof fn lemma_segment_end(path: Seq<char>, start: int, end: int)
    requires
        0 <= start <= end <= path.len(),
        forall|index: int| start <= index < end ==> path[index] != '/',
        end == path.len() || path[end] == '/',
    ensures
        segment_end(path, start) == end,
    decreases end - start,
{
    if start < end {
        lemma_segment_end(path, start + 1, end);
    }
}

/// A path at or below `parent/token` lies below `parent`, and its token after `parent/` is
/// `token`
proof fn lemma_path_under_token(path: Seq<char>, parent: Seq<char>, token: Seq<char>)
    requires
        is_segment(token),
        path == parent + seq!['/'] + token || is_below(path, parent + seq!['/'] + token),
    ensures
        is_below(path, parent),
        segment_at(path, parent.len() + 1int) == token,
{
    let child = parent + seq!['/'] + token;
    let start = parent.len() + 1int;
    let end = child.len() as int;
    assert forall|index: int| 0 <= index < end implies path[index] == child[index] by {
        if path != child {
            assert(path.subrange(0, end + 1)[index] == path[index]);
            assert((child + seq!['/'])[index] == child[index]);
        }
    }
    if path != child {
        assert(path.subrange(0, end + 1)[end] == path[end]);
        assert((child + seq!['/'])[end] == '/');
    }
    assert forall|index: int| start <= index < end implies path[index] != '/' by {
        assert(child[index] == token[index - start]);
    }
    lemma_segment_end(path, start, end);
    assert(path.subrange(start, end) =~= token);
    assert(path.subrange(0, start) =~= parent + seq!['/']);
}

fn push_decimal(output: &mut String, value: usize)
    ensures
        final(output)@ == old(output)@ + decimal_chars(value as nat),
    decreases value,
{
    if value >= 10 {
        push_decimal(output, value / 10);
    }
    let digit = ((value % 10) as u8 + 48) as char;
    output.push(digit);
}

/// The pointer of array element `index` under `parent`
pub fn array_child_path(parent: &JsonPointer, index: usize) -> (path: JsonPointer)
    ensures
        path@ == array_child_pointer(parent@, index as nat),
{
    let parent_text = parent.as_str();
    proof {
        lemma_array_child_pointer(parent@, index as nat);
    }
    let mut path = parent_text.to_owned();
    path.push('/');
    push_decimal(&mut path, index);
    assert(path@ =~= array_child_pointer(parent@, index as nat));
    JsonPointer::from_valid(path)
}

/// The pointer of the member with `key` under `parent`
pub fn object_child_path(parent: &JsonPointer, key: &str) -> (path: JsonPointer)
    ensures
        path@ == object_child_pointer(parent@, key@),
{
    broadcast use vstd::string::group_string_axioms;

    let parent_text = parent.as_str();
    proof {
        lemma_object_child_pointer(parent@, key@);
    }
    let ghost chars = key@;
    let mut path = parent_text.to_owned();
    path.push('/');
    let ghost start = path@;
    for character in iter: key.chars()
        invariant
            iter.seq() == chars,
            chars == key@,
            0 <= iter.index() <= chars.len(),
            path@ == start + escape_pointer_token(chars.take(iter.index())),
    {
        let ghost index = iter.index();
        proof {
            assert(chars.take(index + 1).drop_last() =~= chars.take(index));
            assert(chars.take(index + 1).last() == chars[index]);
        }
        if character == '~' {
            path.push_str("~0");
            proof {
                reveal_strlit("~0");
            }
        } else if character == '/' {
            path.push_str("~1");
            proof {
                reveal_strlit("~1");
            }
        } else {
            path.push(character);
        }
        assert(path@ =~= start + escape_pointer_token(chars.take(index + 1)));
    }
    assert(chars.take(chars.len() as int) =~= chars);
    assert(path@ =~= object_child_pointer(parent@, key@));
    JsonPointer::from_valid(path)
}

// ---------------------------------------------------------------------------
// Preorder node model
// ---------------------------------------------------------------------------

/// How a node is reached from its parent
pub enum JsonLabelModel {
    /// The document root
    Root,
    /// An object member with this key
    Key(Seq<char>),
    /// An array element at this index
    Index(nat),
}

/// One indexed JSON value as plain values
pub struct JsonNodeModel {
    /// Complete JSON Pointer
    pub path: Seq<char>,
    /// Value category
    pub kind: JsonKind,
    /// Zero-based depth
    pub depth: nat,
    /// Preorder index of the parent
    pub parent: Option<nat>,
    /// Direct child count
    pub child_count: nat,
    /// Preorder index just past the last descendant
    pub subtree_end: nat,
    /// Character offset where the serialization of the value starts
    pub start: nat,
    /// Character offset just past the serialization of the value
    pub end: nat,
    /// Key or index in the parent
    pub label: JsonLabelModel,
    /// Decoded text of a string value
    pub decoded: Option<Seq<char>>,
}

/// The depth of a child, stopping at `u32::MAX`
pub open spec fn child_depth(depth: nat) -> nat {
    if depth + 1 > u32::MAX {
        u32::MAX as nat
    } else {
        depth + 1
    }
}

/// The number of values in a value, itself included
pub open spec fn json_node_count(value: JsonValue) -> nat
    decreases value, 1int,
{
    match value.spec_kind() {
        JsonKind::Array => {
            proof {
                lemma_items_decrease(value);
            }
            1 + items_node_count(value.spec_items())
        },
        JsonKind::Object => {
            proof {
                lemma_members_decrease(value);
            }
            1 + members_node_count(value.spec_members())
        },
        _ => 1,
    }
}

/// The number of values in ordered values
pub open spec fn items_node_count(items: Seq<JsonValue>) -> nat
    decreases items, 0int,
{
    if items.len() == 0 {
        0
    } else {
        items_node_count(items.drop_last()) + json_node_count(items.last())
    }
}

/// The number of values in the values of ordered members
pub open spec fn members_node_count(members: Seq<JsonMember>) -> nat
    decreases members, 0int,
{
    if members.len() == 0 {
        0
    } else {
        proof {
            lemma_member_value_decreases(members.last());
        }
        members_node_count(members.drop_last()) + json_node_count(members.last().spec_value())
    }
}

/// The direct child count of a value
pub open spec fn json_child_count(value: JsonValue) -> nat {
    match value.spec_kind() {
        JsonKind::Array => value.spec_items().len(),
        JsonKind::Object => value.spec_members().len(),
        _ => 0,
    }
}

/// The preorder node records of a value whose serialization starts at `offset`
pub open spec fn json_nodes(
    value: JsonValue,
    path: Seq<char>,
    label: JsonLabelModel,
    parent: Option<nat>,
    depth: nat,
    index: nat,
    offset: nat,
) -> Seq<JsonNodeModel>
    decreases value, 1int,
{
    let node = JsonNodeModel {
        path,
        kind: value.spec_kind(),
        depth,
        parent,
        child_count: json_child_count(value),
        subtree_end: index + json_node_count(value),
        start: offset,
        end: offset + json_serialization(value).len(),
        label,
        decoded: value.spec_string(),
    };
    match value.spec_kind() {
        JsonKind::Array => {
            proof {
                lemma_items_decrease(value);
            }
            seq![node] + item_nodes(
                value.spec_items(),
                path,
                index,
                child_depth(depth),
                index + 1,
                offset + 1,
            )
        },
        JsonKind::Object => {
            proof {
                lemma_members_decrease(value);
            }
            seq![node] + member_nodes(
                value.spec_members(),
                path,
                index,
                child_depth(depth),
                index + 1,
                offset + 1,
            )
        },
        _ => seq![node],
    }
}

/// The preorder node records of ordered array elements
pub open spec fn item_nodes(
    items: Seq<JsonValue>,
    parent_path: Seq<char>,
    parent: nat,
    depth: nat,
    first: nat,
    offset: nat,
) -> Seq<JsonNodeModel>
    decreases items, 0int,
{
    if items.len() == 0 {
        Seq::empty()
    } else {
        let last = (items.len() - 1) as nat;
        item_nodes(items.drop_last(), parent_path, parent, depth, first, offset) + json_nodes(
            items.last(),
            array_child_pointer(parent_path, last),
            JsonLabelModel::Index(last),
            Some(parent),
            depth,
            first + items_node_count(items.drop_last()),
            offset + serialize_items(items.drop_last()).len() + if last > 0 {
                1nat
            } else {
                0nat
            },
        )
    }
}

/// The preorder node records of the values of ordered object members
pub open spec fn member_nodes(
    members: Seq<JsonMember>,
    parent_path: Seq<char>,
    parent: nat,
    depth: nat,
    first: nat,
    offset: nat,
) -> Seq<JsonNodeModel>
    decreases members, 0int,
{
    if members.len() == 0 {
        Seq::empty()
    } else {
        proof {
            lemma_member_value_decreases(members.last());
        }
        let last = (members.len() - 1) as nat;
        let key = members.last().spec_key();
        member_nodes(members.drop_last(), parent_path, parent, depth, first, offset) + json_nodes(
            members.last().spec_value(),
            object_child_pointer(parent_path, key),
            JsonLabelModel::Key(key),
            Some(parent),
            depth,
            first + members_node_count(members.drop_last()),
            offset + serialize_members(members.drop_last()).len() + (if last > 0 {
                1nat
            } else {
                0nat
            }) + quoted_json_string(key).len() + 1,
        )
    }
}

/// The preorder node records of a whole document
pub open spec fn document_nodes(root: JsonValue) -> Seq<JsonNodeModel> {
    json_nodes(root, Seq::empty(), JsonLabelModel::Root, None, 0, 0, 0)
}

/// A value has as many node records as values
proof fn lemma_json_nodes_len(
    value: JsonValue,
    path: Seq<char>,
    label: JsonLabelModel,
    parent: Option<nat>,
    depth: nat,
    index: nat,
    offset: nat,
)
    ensures
        json_nodes(value, path, label, parent, depth, index, offset).len() == json_node_count(value),
    decreases value, 1int,
{
    match value.spec_kind() {
        JsonKind::Array => {
            lemma_items_decrease(value);
            lemma_item_nodes_len(
                value.spec_items(),
                path,
                index,
                child_depth(depth),
                index + 1,
                offset + 1,
            );
        },
        JsonKind::Object => {
            lemma_members_decrease(value);
            lemma_member_nodes_len(
                value.spec_members(),
                path,
                index,
                child_depth(depth),
                index + 1,
                offset + 1,
            );
        },
        _ => {},
    }
}

proof fn lemma_item_nodes_len(
    items: Seq<JsonValue>,
    parent_path: Seq<char>,
    parent: nat,
    depth: nat,
    first: nat,
    offset: nat,
)
    ensures
        item_nodes(items, parent_path, parent, depth, first, offset).len() == items_node_count(
            items,
        ),
    decreases items, 0int,
{
    if items.len() > 0 {
        let last = (items.len() - 1) as nat;
        lemma_item_nodes_len(items.drop_last(), parent_path, parent, depth, first, offset);
        lemma_json_nodes_len(
            items.last(),
            array_child_pointer(parent_path, last),
            JsonLabelModel::Index(last),
            Some(parent),
            depth,
            first + items_node_count(items.drop_last()),
            offset + serialize_items(items.drop_last()).len() + if last > 0 {
                1nat
            } else {
                0nat
            },
        );
    }
}

proof fn lemma_member_nodes_len(
    members: Seq<JsonMember>,
    parent_path: Seq<char>,
    parent: nat,
    depth: nat,
    first: nat,
    offset: nat,
)
    ensures
        member_nodes(members, parent_path, parent, depth, first, offset).len()
            == members_node_count(members),
    decreases members, 0int,
{
    if members.len() > 0 {
        lemma_member_value_decreases(members.last());
        let last = (members.len() - 1) as nat;
        let key = members.last().spec_key();
        lemma_member_nodes_len(members.drop_last(), parent_path, parent, depth, first, offset);
        lemma_json_nodes_len(
            members.last().spec_value(),
            object_child_pointer(parent_path, key),
            JsonLabelModel::Key(key),
            Some(parent),
            depth,
            first + members_node_count(members.drop_last()),
            offset + serialize_members(members.drop_last()).len() + (if last > 0 {
                1nat
            } else {
                0nat
            }) + quoted_json_string(key).len() + 1,
        );
    }
}

// ---------------------------------------------------------------------------
// Node records
// ---------------------------------------------------------------------------

/// How one node is reached from its parent
#[derive(Debug, PartialEq, Eq)]
pub(crate) enum JsonNodeLabel {
    Root,
    ObjectKey(String),
    ArrayIndex(usize),
}

impl View for JsonNodeLabel {
    type V = JsonLabelModel;

    closed spec fn view(&self) -> JsonLabelModel {
        match self {
            JsonNodeLabel::Root => JsonLabelModel::Root,
            JsonNodeLabel::ObjectKey(key) => JsonLabelModel::Key(key@),
            JsonNodeLabel::ArrayIndex(index) => JsonLabelModel::Index(*index as nat),
        }
    }
}

impl JsonNodeLabel {
    fn duplicate(&self) -> (copy: Self)
        ensures
            copy@ == self@,
    {
        match self {
            JsonNodeLabel::Root => JsonNodeLabel::Root,
            JsonNodeLabel::ObjectKey(key) => JsonNodeLabel::ObjectKey(key.clone()),
            JsonNodeLabel::ArrayIndex(index) => JsonNodeLabel::ArrayIndex(*index),
        }
    }
}

/// One indexed JSON value inside a document
#[derive(Debug)]
pub(crate) struct JsonDocumentNode {
    pub(crate) path: JsonPointer,
    pub(crate) kind: JsonKind,
    pub(crate) depth: u32,
    pub(crate) parent: Option<usize>,
    pub(crate) child_count: usize,
    pub(crate) subtree_end: usize,
    pub(crate) serialized_start: usize,
    pub(crate) serialized_end: usize,
    pub(crate) label: JsonNodeLabel,
    pub(crate) decoded_string: Option<String>,
}

impl View for JsonDocumentNode {
    type V = JsonNodeModel;

    closed spec fn view(&self) -> JsonNodeModel {
        JsonNodeModel {
            path: self.path@,
            kind: self.kind,
            depth: self.depth as nat,
            parent: match self.parent {
                Some(parent) => Some(parent as nat),
                None => None,
            },
            child_count: self.child_count as nat,
            subtree_end: self.subtree_end as nat,
            start: self.serialized_start as nat,
            end: self.serialized_end as nat,
            label: self.label@,
            decoded: match self.decoded_string {
                Some(text) => Some(text@),
                None => None,
            },
        }
    }
}

/// The model of a record holds its fields
pub(crate) proof fn lemma_record_fields(node: JsonDocumentNode)
    ensures
        node@.path == node.path@,
        node@.kind == node.kind,
        node@.child_count == node.child_count,
        node@.subtree_end == node.subtree_end,
        node@.parent == match node.parent {
            Some(parent) => Some(parent as nat),
            None => None::<nat>,
        },
        node@.depth == node.depth as nat,
        node@.decoded == match node.decoded_string {
            Some(text) => Some(text@),
            None => None::<Seq<char>>,
        },
        node@.label == match node.label {
            JsonNodeLabel::Root => JsonLabelModel::Root,
            JsonNodeLabel::ObjectKey(key) => JsonLabelModel::Key(key@),
            JsonNodeLabel::ArrayIndex(index) => JsonLabelModel::Index(index as nat),
        },
{
}

/// The models of node records
pub(crate) open spec fn node_models(nodes: Seq<JsonDocumentNode>) -> Seq<JsonNodeModel> {
    nodes.map_values(|node: JsonDocumentNode| node@)
}

fn value_child_count(value: &JsonValue) -> (count: usize)
    ensures
        count == json_child_count(*value),
{
    proof {
        lemma_value_representation(*value);
    }
    match &*value.inner {
        JsonValueData::Array(values) => values.len(),
        JsonValueData::Object(members) => members.len(),
        _ => 0,
    }
}

fn value_decoded_string(value: &JsonValue) -> (decoded: Option<String>)
    ensures
        decoded matches Some(text) ==> value.spec_string() == Some(text@),
        decoded is None ==> value.spec_string() is None,
{
    proof {
        lemma_value_representation(*value);
    }
    match &*value.inner {
        JsonValueData::Text(text) => Some(text.clone()),
        _ => None,
    }
}

/// Appends the serialization and the preorder node records of one value
#[verifier::rlimit(60)]
fn build_document_node(
    value: &JsonValue,
    label: JsonNodeLabel,
    parent: Option<usize>,
    depth: u32,
    path: JsonPointer,
    output: &mut String,
    written: &mut usize,
    nodes: &mut Vec<JsonDocumentNode>,
)
    requires
        *old(written) == old(output)@.len(),
    ensures
        final(output)@ == old(output)@ + json_serialization(*value),
        *final(written) == final(output)@.len(),
        node_models(final(nodes)@) == node_models(old(nodes)@) + json_nodes(
            *value,
            path@,
            label@,
            match parent {
                Some(p) => Some(p as nat),
                None => None,
            },
            depth as nat,
            old(nodes)@.len(),
            *old(written) as nat,
        ),
    decreases *value,
{
    proof {
        lemma_value_representation(*value);
    }
    let ghost spec_parent: Option<nat> = match parent {
        Some(p) => Some(p as nat),
        None => None,
    };
    let ghost start_output = output@;
    let ghost start_nodes = node_models(nodes@);
    let index = nodes.len();
    let start = *written;
    let kind = value.kind();
    let child_count = value_child_count(value);
    let placeholder = JsonDocumentNode {
        path: path.duplicate(),
        kind,
        depth,
        parent,
        child_count,
        subtree_end: index,
        serialized_start: start,
        serialized_end: start,
        label: label.duplicate(),
        decoded_string: value_decoded_string(value),
    };
    let ghost placeholder_model = placeholder@;
    nodes.push(placeholder);
    proof {
        assert(node_models(nodes@) =~= start_nodes + seq![placeholder_model]);
    }
    let next_depth = depth.saturating_add(1);
    let path_text = path.as_str();
    assert(is_json_pointer(path@));
    match &*value.inner {
        JsonValueData::Null => {
            push_char(output, written, 'n');
            push_char(output, written, 'u');
            push_char(output, written, 'l');
            push_char(output, written, 'l');
            proof {
                reveal_strlit("null");
                assert(output@ =~= start_output + "null"@);
            }
        },
        JsonValueData::Boolean(flag) => {
            if *flag {
                push_char(output, written, 't');
                push_char(output, written, 'r');
                push_char(output, written, 'u');
                push_char(output, written, 'e');
                proof {
                    reveal_strlit("true");
                    assert(output@ =~= start_output + "true"@);
                }
            } else {
                push_char(output, written, 'f');
                push_char(output, written, 'a');
                push_char(output, written, 'l');
                push_char(output, written, 's');
                push_char(output, written, 'e');
                proof {
                    reveal_strlit("false");
                    assert(output@ =~= start_output + "false"@);
                }
            }
        },
        JsonValueData::Number(number) => {
            proof {
                lemma_number_representation(*number);
            }
            push_json_token(output, written, number.as_str());
        },
        JsonValueData::Text(text) => {
            push_json_string(output, written, text.as_str());
        },
        JsonValueData::Array(values) => {
            push_char(output, written, '[');
            let ghost items = values@;
            let mut child: usize = 0;
            while child < values.len()
                invariant
                    0 <= child <= values@.len(),
                    items == values@,
                    items == value.spec_items(),
                    value.spec_kind() == JsonKind::Array,
                    index == start_nodes.len(),
                    *written == output@.len(),
                    start == start_output.len(),
                    is_json_pointer(path@),
                    output@ == start_output + seq!['['] + serialize_items(items.take(child as int)),
                    node_models(nodes@) == start_nodes + seq![placeholder_model] + item_nodes(
                        items.take(child as int),
                        path@,
                        index as nat,
                        next_depth as nat,
                        index as nat + 1,
                        start as nat + 1,
                    ),
                    next_depth as nat == child_depth(depth as nat),
                decreases values@.len() - child,
            {
                proof {
                    lemma_items_decrease(*value);
                    assert(items.take(child + 1).drop_last() =~= items.take(child as int));
                    assert(items.take(child + 1).last() == items[child as int]);
                    lemma_item_nodes_len(
                        items.take(child as int),
                        path@,
                        index as nat,
                        next_depth as nat,
                        index as nat + 1,
                        start as nat + 1,
                    );
                }
                let ghost before_output = output@;
                if child > 0 {
                    push_char(output, written, ',');
                }
                let child_path = array_child_path(&path, child);
                build_document_node(
                    &values[child],
                    JsonNodeLabel::ArrayIndex(child),
                    Some(index),
                    next_depth,
                    child_path,
                    output,
                    written,
                    nodes,
                );
                proof {
                    if child > 0 {
                        assert(output@ =~= start_output + seq!['['] + serialize_items(
                            items.take(child + 1),
                        ));
                    } else {
                        assert(items.take(1)[0] == items[0]);
                        assert(output@ =~= start_output + seq!['['] + serialize_items(
                            items.take(child + 1),
                        ));
                    }
                    assert(node_models(nodes@) =~= start_nodes + seq![placeholder_model]
                        + item_nodes(
                        items.take(child + 1),
                        path@,
                        index as nat,
                        next_depth as nat,
                        index as nat + 1,
                        start as nat + 1,
                    ));
                }
                child = child + 1;
            }
            proof {
                assert(items.take(items.len() as int) =~= items);
            }
            push_char(output, written, ']');
            proof {
                assert(output@ =~= start_output + json_serialization(*value));
            }
        },
        JsonValueData::Object(members) => {
            push_char(output, written, '{');
            let ghost entries = members@;
            let mut child: usize = 0;
            while child < members.len()
                invariant
                    0 <= child <= members@.len(),
                    entries == members@,
                    entries == value.spec_members(),
                    value.spec_kind() == JsonKind::Object,
                    index == start_nodes.len(),
                    *written == output@.len(),
                    start == start_output.len(),
                    is_json_pointer(path@),
                    output@ == start_output + seq!['{'] + serialize_members(
                        entries.take(child as int),
                    ),
                    node_models(nodes@) == start_nodes + seq![placeholder_model] + member_nodes(
                        entries.take(child as int),
                        path@,
                        index as nat,
                        next_depth as nat,
                        index as nat + 1,
                        start as nat + 1,
                    ),
                    next_depth as nat == child_depth(depth as nat),
                decreases members@.len() - child,
            {
                proof {
                    lemma_members_decrease(*value);
                    lemma_member_representation(entries[child as int]);
                    assert(entries.take(child + 1).drop_last() =~= entries.take(child as int));
                    assert(entries.take(child + 1).last() == entries[child as int]);
                    lemma_member_nodes_len(
                        entries.take(child as int),
                        path@,
                        index as nat,
                        next_depth as nat,
                        index as nat + 1,
                        start as nat + 1,
                    );
                }
                let ghost before_output = output@;
                if child > 0 {
                    push_char(output, written, ',');
                }
                let member = &members[child];
                push_json_string(output, written, member.key.as_str());
                push_char(output, written, ':');
                let child_path = object_child_path(&path, member.key.as_str());
                build_document_node(
                    &member.value,
                    JsonNodeLabel::ObjectKey(member.key.clone()),
                    Some(index),
                    next_depth,
                    child_path,
                    output,
                    written,
                    nodes,
                );
                proof {
                    let entry = entries[child as int];
                    assert(serialize_member(entry) == quoted_json_string(entry.spec_key()) + seq![
                        ':',
                    ] + json_serialization(entry.spec_value()));
                    if child == 0 {
                        assert(entries.take(1)[0] == entries[0]);
                        assert(output@ =~= before_output + serialize_member(entry));
                    } else {
                        assert(output@ =~= before_output + seq![','] + serialize_member(entry));
                    }
                    assert(output@ =~= start_output + seq!['{'] + serialize_members(
                        entries.take(child + 1),
                    ));
                    assert(node_models(nodes@) =~= start_nodes + seq![placeholder_model]
                        + member_nodes(
                        entries.take(child + 1),
                        path@,
                        index as nat,
                        next_depth as nat,
                        index as nat + 1,
                        start as nat + 1,
                    ));
                }
                child = child + 1;
            }
            proof {
                assert(entries.take(entries.len() as int) =~= entries);
            }
            push_char(output, written, '}');
            proof {
                assert(output@ =~= start_output + json_serialization(*value));
            }
        },
    }
    proof {
        lemma_json_nodes_len(*value, path@, label@, spec_parent, depth as nat, index as nat, start as nat);
    }
    let end = *written;
    let subtree_end = nodes.len();
    let record = JsonDocumentNode {
        path,
        kind,
        depth,
        parent,
        child_count,
        subtree_end,
        serialized_start: start,
        serialized_end: end,
        label,
        decoded_string: value_decoded_string(value),
    };
    let ghost before_set = nodes@;
    nodes.set(index, record);
    proof {
        assert(node_models(nodes@) =~= node_models(before_set).update(index as int, record@));
        assert(node_models(nodes@) =~= start_nodes + json_nodes(
            *value,
            path@,
            label@,
            spec_parent,
            depth as nat,
            index as nat,
            start as nat,
        ));
    }
}

fn push_json_token(output: &mut String, written: &mut usize, token: &str)
    requires
        *old(written) == old(output)@.len(),
    ensures
        final(output)@ == old(output)@ + token@,
        *final(written) == final(output)@.len(),
{
    broadcast use vstd::string::group_string_axioms;

    let ghost start = output@;
    let ghost chars = token@;
    for character in iter: token.chars()
        invariant
            iter.seq() == chars,
            chars == token@,
            0 <= iter.index() <= chars.len(),
            output@ == start + chars.take(iter.index()),
            *written == output@.len(),
    {
        let ghost index = iter.index();
        push_char(output, written, character);
        proof {
            assert(output@ =~= start + chars.take(index + 1));
        }
    }
    assert(chars.take(chars.len() as int) =~= chars);
}

/// Every record of a value lies inside the serialization of the value
proof fn lemma_json_nodes_within(
    value: JsonValue,
    path: Seq<char>,
    label: JsonLabelModel,
    parent: Option<nat>,
    depth: nat,
    index: nat,
    offset: nat,
)
    ensures
        forall|k: int|
            0 <= k < json_nodes(value, path, label, parent, depth, index, offset).len() ==> {
                let node = #[trigger] json_nodes(value, path, label, parent, depth, index, offset)[k];
                offset <= node.start <= node.end <= offset + json_serialization(value).len()
            },
    decreases value, 1int,
{
    let nodes = json_nodes(value, path, label, parent, depth, index, offset);
    match value.spec_kind() {
        JsonKind::Array => {
            lemma_items_decrease(value);
            let items = value.spec_items();
            let children = item_nodes(items, path, index, child_depth(depth), index + 1, offset + 1);
            lemma_item_nodes_within(items, path, index, child_depth(depth), index + 1, offset + 1);
            assert(json_serialization(value) == seq!['['] + serialize_items(items) + seq![']']);
            assert forall|k: int| 0 < k < nodes.len() implies nodes[k] == children[k - 1] by {}
        },
        JsonKind::Object => {
            lemma_members_decrease(value);
            let members = value.spec_members();
            let children = member_nodes(
                members,
                path,
                index,
                child_depth(depth),
                index + 1,
                offset + 1,
            );
            lemma_member_nodes_within(members, path, index, child_depth(depth), index + 1, offset + 1);
            assert(json_serialization(value) == seq!['{'] + serialize_members(members) + seq!['}']);
            assert forall|k: int| 0 < k < nodes.len() implies nodes[k] == children[k - 1] by {}
        },
        _ => {},
    }
}

proof fn lemma_item_nodes_within(
    items: Seq<JsonValue>,
    parent_path: Seq<char>,
    parent: nat,
    depth: nat,
    first: nat,
    offset: nat,
)
    ensures
        forall|k: int|
            0 <= k < item_nodes(items, parent_path, parent, depth, first, offset).len() ==> {
                let node = #[trigger] item_nodes(items, parent_path, parent, depth, first, offset)[k];
                offset <= node.start <= node.end <= offset + serialize_items(items).len()
            },
    decreases items, 0int,
{
    if items.len() > 0 {
        let last = (items.len() - 1) as nat;
        let front = item_nodes(items.drop_last(), parent_path, parent, depth, first, offset);
        let start = offset + serialize_items(items.drop_last()).len() + if last > 0 {
            1nat
        } else {
            0nat
        };
        let back = json_nodes(
            items.last(),
            array_child_pointer(parent_path, last),
            JsonLabelModel::Index(last),
            Some(parent),
            depth,
            first + items_node_count(items.drop_last()),
            start,
        );
        lemma_item_nodes_within(items.drop_last(), parent_path, parent, depth, first, offset);
        lemma_json_nodes_within(
            items.last(),
            array_child_pointer(parent_path, last),
            JsonLabelModel::Index(last),
            Some(parent),
            depth,
            first + items_node_count(items.drop_last()),
            start,
        );
        if items.len() == 1 {
            assert(items.drop_last() =~= Seq::<JsonValue>::empty());
            assert(items.last() == items[0]);
        }
        let all = item_nodes(items, parent_path, parent, depth, first, offset);
        assert forall|k: int| 0 <= k < all.len() implies {
            let node = #[trigger] all[k];
            offset <= node.start <= node.end <= offset + serialize_items(items).len()
        } by {
            if k < front.len() {
                assert(all[k] == front[k]);
            } else {
                assert(all[k] == back[k - front.len()]);
            }
        }
    }
}

proof fn lemma_member_nodes_within(
    members: Seq<JsonMember>,
    parent_path: Seq<char>,
    parent: nat,
    depth: nat,
    first: nat,
    offset: nat,
)
    ensures
        forall|k: int|
            0 <= k < member_nodes(members, parent_path, parent, depth, first, offset).len() ==> {
                let node = #[trigger] member_nodes(
                    members,
                    parent_path,
                    parent,
                    depth,
                    first,
                    offset,
                )[k];
                offset <= node.start <= node.end <= offset + serialize_members(members).len()
            },
    decreases members, 0int,
{
    if members.len() > 0 {
        lemma_member_value_decreases(members.last());
        let last = (members.len() - 1) as nat;
        let entry = members.last();
        let key = entry.spec_key();
        let front = member_nodes(members.drop_last(), parent_path, parent, depth, first, offset);
        let start = offset + serialize_members(members.drop_last()).len() + (if last > 0 {
            1nat
        } else {
            0nat
        }) + quoted_json_string(key).len() + 1;
        let back = json_nodes(
            entry.spec_value(),
            object_child_pointer(parent_path, key),
            JsonLabelModel::Key(key),
            Some(parent),
            depth,
            first + members_node_count(members.drop_last()),
            start,
        );
        lemma_member_nodes_within(members.drop_last(), parent_path, parent, depth, first, offset);
        lemma_json_nodes_within(
            entry.spec_value(),
            object_child_pointer(parent_path, key),
            JsonLabelModel::Key(key),
            Some(parent),
            depth,
            first + members_node_count(members.drop_last()),
            start,
        );
        assert(serialize_member(entry) == quoted_json_string(key) + seq![':'] + json_serialization(
            entry.spec_value(),
        ));
        if members.len() == 1 {
            assert(members.drop_last() =~= Seq::<JsonMember>::empty());
            assert(members.last() == members[0]);
        }
        let all = member_nodes(members, parent_path, parent, depth, first, offset);
        assert forall|k: int| 0 <= k < all.len() implies {
            let node = #[trigger] all[k];
            offset <= node.start <= node.end <= offset + serialize_members(members).len()
        } by {
            if k < front.len() {
                assert(all[k] == front[k]);
            } else {
                assert(all[k] == back[k - front.len()]);
            }
        }
    }
}

/// The records of a value are in preorder: each subtree ends after its first record and
/// within the value, and each parent precedes its children
proof fn lemma_json_nodes_shape(
    value: JsonValue,
    path: Seq<char>,
    label: JsonLabelModel,
    parent: Option<nat>,
    depth: nat,
    index: nat,
    offset: nat,
)
    ensures
        ({
            let nodes = json_nodes(value, path, label, parent, depth, index, offset);
            &&& nodes.len() == json_node_count(value)
            &&& nodes[0].parent == parent
            &&& forall|k: int|
                0 <= k < nodes.len() ==> index + k < (#[trigger] nodes[k]).subtree_end <= index
                    + nodes.len()
            &&& forall|k: int|
                0 <= k < nodes.len() && (#[trigger] nodes[k]).child_count > 0 ==> index + k + 1
                    < nodes[k].subtree_end
            &&& forall|k: int|
                0 < k < nodes.len() ==> ((#[trigger] nodes[k]).parent matches Some(p) && index <= p
                    < index + k)
        }),
    decreases value, 1int,
{
    lemma_json_nodes_len(value, path, label, parent, depth, index, offset);
    let nodes = json_nodes(value, path, label, parent, depth, index, offset);
    match value.spec_kind() {
        JsonKind::Array => {
            lemma_items_decrease(value);
            let items = value.spec_items();
            let children = item_nodes(items, path, index, child_depth(depth), index + 1, offset + 1);
            lemma_item_nodes_shape(items, path, index, child_depth(depth), index + 1, offset + 1);
            assert forall|k: int| 0 < k < nodes.len() implies nodes[k] == children[k - 1] by {}
        },
        JsonKind::Object => {
            lemma_members_decrease(value);
            let members = value.spec_members();
            let children = member_nodes(
                members,
                path,
                index,
                child_depth(depth),
                index + 1,
                offset + 1,
            );
            lemma_member_nodes_shape(members, path, index, child_depth(depth), index + 1, offset + 1);
            assert forall|k: int| 0 < k < nodes.len() implies nodes[k] == children[k - 1] by {}
        },
        _ => {},
    }
}

proof fn lemma_item_nodes_shape(
    items: Seq<JsonValue>,
    parent_path: Seq<char>,
    parent: nat,
    depth: nat,
    first: nat,
    offset: nat,
)
    ensures
        ({
            let nodes = item_nodes(items, parent_path, parent, depth, first, offset);
            &&& nodes.len() == items_node_count(items)
            &&& items.len() > 0 ==> nodes.len() > 0
            &&& forall|k: int|
                0 <= k < nodes.len() ==> first + k < (#[trigger] nodes[k]).subtree_end <= first
                    + nodes.len()
            &&& forall|k: int|
                0 <= k < nodes.len() && (#[trigger] nodes[k]).child_count > 0 ==> first + k + 1
                    < nodes[k].subtree_end
            &&& forall|k: int|
                0 <= k < nodes.len() ==> ((#[trigger] nodes[k]).parent matches Some(p) && (p == parent
                    || first <= p < first + k))
        }),
    decreases items, 0int,
{
    lemma_item_nodes_len(items, parent_path, parent, depth, first, offset);
    if items.len() > 0 {
        let last = (items.len() - 1) as nat;
        let front = item_nodes(items.drop_last(), parent_path, parent, depth, first, offset);
        let start = first + items_node_count(items.drop_last());
        let back = json_nodes(
            items.last(),
            array_child_pointer(parent_path, last),
            JsonLabelModel::Index(last),
            Some(parent),
            depth,
            start,
            offset + serialize_items(items.drop_last()).len() + if last > 0 {
                1nat
            } else {
                0nat
            },
        );
        lemma_item_nodes_shape(items.drop_last(), parent_path, parent, depth, first, offset);
        lemma_json_nodes_shape(
            items.last(),
            array_child_pointer(parent_path, last),
            JsonLabelModel::Index(last),
            Some(parent),
            depth,
            start,
            offset + serialize_items(items.drop_last()).len() + if last > 0 {
                1nat
            } else {
                0nat
            },
        );
        let all = item_nodes(items, parent_path, parent, depth, first, offset);
        assert forall|k: int| 0 <= k < all.len() implies all[k] == if k < front.len() {
            front[k]
        } else {
            back[k - front.len()]
        } by {}
    }
}

proof fn lemma_member_nodes_shape(
    members: Seq<JsonMember>,
    parent_path: Seq<char>,
    parent: nat,
    depth: nat,
    first: nat,
    offset: nat,
)
    ensures
        ({
            let nodes = member_nodes(members, parent_path, parent, depth, first, offset);
            &&& nodes.len() == members_node_count(members)
            &&& members.len() > 0 ==> nodes.len() > 0
            &&& forall|k: int|
                0 <= k < nodes.len() ==> first + k < (#[trigger] nodes[k]).subtree_end <= first
                    + nodes.len()
            &&& forall|k: int|
                0 <= k < nodes.len() && (#[trigger] nodes[k]).child_count > 0 ==> first + k + 1
                    < nodes[k].subtree_end
            &&& forall|k: int|
                0 <= k < nodes.len() ==> ((#[trigger] nodes[k]).parent matches Some(p) && (p == parent
                    || first <= p < first + k))
        }),
    decreases members, 0int,
{
    lemma_member_nodes_len(members, parent_path, parent, depth, first, offset);
    if members.len() > 0 {
        lemma_member_value_decreases(members.last());
        let last = (members.len() - 1) as nat;
        let entry = members.last();
        let key = entry.spec_key();
        let front = member_nodes(members.drop_last(), parent_path, parent, depth, first, offset);
        let start = first + members_node_count(members.drop_last());
        let position = offset + serialize_members(members.drop_last()).len() + (if last > 0 {
            1nat
        } else {
            0nat
        }) + quoted_json_string(key).len() + 1;
        let back = json_nodes(
            entry.spec_value(),
            object_child_pointer(parent_path, key),
            JsonLabelModel::Key(key),
            Some(parent),
            depth,
            start,
            position,
        );
        lemma_member_nodes_shape(members.drop_last(), parent_path, parent, depth, first, offset);
        lemma_json_nodes_shape(
            entry.spec_value(),
            object_child_pointer(parent_path, key),
            JsonLabelModel::Key(key),
            Some(parent),
            depth,
            start,
            position,
        );
        let all = member_nodes(members, parent_path, parent, depth, first, offset);
        assert forall|k: int| 0 <= k < all.len() implies all[k] == if k < front.len() {
            front[k]
        } else {
            back[k - front.len()]
        } by {}
    }
}

/// The records of a document are in preorder: the root has no parent, every other record's
/// parent precedes it, and every subtree ends after its first record and within the document
pub proof fn lemma_document_nodes_shape(root: JsonValue)
    ensures
        ({
            let nodes = document_nodes(root);
            &&& nodes.len() >= 1
            &&& nodes[0].parent is None
            &&& forall|k: int| 0 <= k < nodes.len() ==> k < (#[trigger] nodes[k]).subtree_end <= nodes.len()
            &&& forall|k: int|
                0 <= k < nodes.len() && (#[trigger] nodes[k]).child_count > 0 ==> k + 1 < nodes[k].subtree_end
            &&& forall|k: int|
                0 < k < nodes.len() ==> ((#[trigger] nodes[k]).parent matches Some(p) && p < k)
        }),
{
    lemma_json_nodes_shape(root, Seq::empty(), JsonLabelModel::Root, None, 0, 0, 0);
}



/// The reference token that reaches a record from its parent
pub open spec fn label_token(label: JsonLabelModel) -> Seq<char> {
    match label {
        JsonLabelModel::Root => Seq::empty(),
        JsonLabelModel::Key(key) => escape_pointer_token(key),
        JsonLabelModel::Index(index) => decimal_chars(index),
    }
}

/// The path of the child reached by `label` from the record at `parent`
pub open spec fn child_path(parent: Seq<char>, label: JsonLabelModel) -> Seq<char> {
    parent + seq!['/'] + label_token(label)
}

/// Record `k` of `nodes` is a direct child at `depth` of the record `parent` at
/// `parent_path`, or one level below an earlier record of `nodes`
pub open spec fn record_depth_follows(
    nodes: Seq<JsonNodeModel>,
    parent: nat,
    parent_path: Seq<char>,
    depth: nat,
    first: nat,
    k: int,
) -> bool {
    nodes[k].parent matches Some(p) && ((p == parent && nodes[k].depth == depth && nodes[k].path
        == child_path(parent_path, nodes[k].label)) || (first <= p < first + k && nodes[k].depth
        == child_depth(nodes[p - first].depth) && nodes[k].path == child_path(
        nodes[p - first].path,
        nodes[k].label,
    )))
}

/// Every record is a direct child of `parent` or one level below an earlier record of `nodes`
pub open spec fn depths_follow_parents(
    nodes: Seq<JsonNodeModel>,
    parent: nat,
    parent_path: Seq<char>,
    depth: nat,
    first: nat,
) -> bool {
    forall|k: int|
        0 <= k < nodes.len() ==> #[trigger] record_depth_follows(
            nodes,
            parent,
            parent_path,
            depth,
            first,
            k,
        )
}

/// Record `k` of a subtree starting at preorder index `index` is one level below an earlier
/// record of the subtree, and its path continues that record's path
pub open spec fn record_in_subtree_follows(nodes: Seq<JsonNodeModel>, index: nat, k: int) -> bool {
    nodes[k].parent matches Some(p) && index <= p < index + k && nodes[k].depth == child_depth(
        nodes[p - index].depth,
    ) && nodes[k].path == child_path(nodes[p - index].path, nodes[k].label)
}

/// Every record after the first is one level below an earlier record of `nodes`
pub open spec fn subtree_depths_follow_parents(nodes: Seq<JsonNodeModel>, index: nat) -> bool {
    forall|k: int| 0 < k < nodes.len() ==> #[trigger] record_in_subtree_follows(nodes, index, k)
}

/// Appending the records of one more child keeps depths following parents
proof fn lemma_depths_append(
    front: Seq<JsonNodeModel>,
    back: Seq<JsonNodeModel>,
    parent: nat,
    parent_path: Seq<char>,
    depth: nat,
    first: nat,
)
    requires
        depths_follow_parents(front, parent, parent_path, depth, first),
        back.len() > 0,
        back[0].parent == Some(parent),
        back[0].depth == depth,
        back[0].path == child_path(parent_path, back[0].label),
        subtree_depths_follow_parents(back, first + front.len()),
    ensures
        depths_follow_parents(front + back, parent, parent_path, depth, first),
{
    let all = front + back;
    let start = first + front.len();
    assert forall|k: int| 0 <= k < all.len() implies #[trigger] record_depth_follows(
        all,
        parent,
        parent_path,
        depth,
        first,
        k,
    ) by {
        if k < front.len() {
            assert(record_depth_follows(front, parent, parent_path, depth, first, k));
            assert(all[k] == front[k]);
            let p = all[k].parent->0;
            if p != parent {
                assert(all[p - first] == front[p - first]);
            }
        } else {
            let j = k - front.len();
            assert(all[k] == back[j]);
            if j > 0 {
                assert(record_in_subtree_follows(back, start, j));
                let p = back[j].parent->0;
                assert(all[p - first] == back[p - start]);
            }
        }
    }
}

/// Putting a parent record before the records of its children keeps depths following parents
proof fn lemma_depths_prepend(head: JsonNodeModel, children: Seq<JsonNodeModel>, index: nat, depth: nat)
    requires
        head.depth == depth,
        depths_follow_parents(children, index, head.path, child_depth(depth), index + 1),
    ensures
        subtree_depths_follow_parents(seq![head] + children, index),
{
    let nodes = seq![head] + children;
    assert forall|k: int| 0 < k < nodes.len() implies #[trigger] record_in_subtree_follows(
        nodes,
        index,
        k,
    ) by {
        assert(record_depth_follows(children, index, head.path, child_depth(depth), index + 1, k - 1));
        assert(nodes[k] == children[k - 1]);
        let p = nodes[k].parent->0;
        if p != index {
            assert(nodes[p - index] == children[p - index - 1]);
        }
    }
}

/// Each record's depth is its parent's depth plus one, saturating at the largest `u32`
proof fn lemma_json_nodes_depth(
    value: JsonValue,
    path: Seq<char>,
    label: JsonLabelModel,
    parent: Option<nat>,
    depth: nat,
    index: nat,
    offset: nat,
)
    ensures
        ({
            let nodes = json_nodes(value, path, label, parent, depth, index, offset);
            &&& nodes.len() > 0
            &&& nodes[0].depth == depth
            &&& nodes[0].path == path
            &&& nodes[0].label == label
            &&& subtree_depths_follow_parents(nodes, index)
        }),
    decreases value, 1int,
{
    let nodes = json_nodes(value, path, label, parent, depth, index, offset);
    let head = nodes[0];
    match value.spec_kind() {
        JsonKind::Array => {
            lemma_items_decrease(value);
            let items = value.spec_items();
            let children = item_nodes(items, path, index, child_depth(depth), index + 1, offset + 1);
            lemma_item_nodes_depth(items, path, index, child_depth(depth), index + 1, offset + 1);
            assert(nodes =~= seq![head] + children);
            lemma_depths_prepend(head, children, index, depth);
        },
        JsonKind::Object => {
            lemma_members_decrease(value);
            let members = value.spec_members();
            let children = member_nodes(
                members,
                path,
                index,
                child_depth(depth),
                index + 1,
                offset + 1,
            );
            lemma_member_nodes_depth(members, path, index, child_depth(depth), index + 1, offset + 1);
            assert(nodes =~= seq![head] + children);
            lemma_depths_prepend(head, children, index, depth);
        },
        _ => {
            assert(nodes.len() == 1);
        },
    }
}

proof fn lemma_item_nodes_depth(
    items: Seq<JsonValue>,
    parent_path: Seq<char>,
    parent: nat,
    depth: nat,
    first: nat,
    offset: nat,
)
    ensures
        depths_follow_parents(
            item_nodes(items, parent_path, parent, depth, first, offset),
            parent,
            parent_path,
            depth,
            first,
        ),
    decreases items, 0int,
{
    lemma_item_nodes_shape(items, parent_path, parent, depth, first, offset);
    if items.len() > 0 {
        let last = (items.len() - 1) as nat;
        let front = item_nodes(items.drop_last(), parent_path, parent, depth, first, offset);
        let start = first + items_node_count(items.drop_last());
        let position = offset + serialize_items(items.drop_last()).len() + if last > 0 {
            1nat
        } else {
            0nat
        };
        let back = json_nodes(
            items.last(),
            array_child_pointer(parent_path, last),
            JsonLabelModel::Index(last),
            Some(parent),
            depth,
            start,
            position,
        );
        lemma_item_nodes_depth(items.drop_last(), parent_path, parent, depth, first, offset);
        lemma_item_nodes_shape(items.drop_last(), parent_path, parent, depth, first, offset);
        lemma_json_nodes_depth(
            items.last(),
            array_child_pointer(parent_path, last),
            JsonLabelModel::Index(last),
            Some(parent),
            depth,
            start,
            position,
        );
        lemma_json_nodes_shape(
            items.last(),
            array_child_pointer(parent_path, last),
            JsonLabelModel::Index(last),
            Some(parent),
            depth,
            start,
            position,
        );
        assert(item_nodes(items, parent_path, parent, depth, first, offset) =~= front + back);
        lemma_depths_append(front, back, parent, parent_path, depth, first);
    }
}

proof fn lemma_member_nodes_depth(
    members: Seq<JsonMember>,
    parent_path: Seq<char>,
    parent: nat,
    depth: nat,
    first: nat,
    offset: nat,
)
    ensures
        depths_follow_parents(
            member_nodes(members, parent_path, parent, depth, first, offset),
            parent,
            parent_path,
            depth,
            first,
        ),
    decreases members, 0int,
{
    lemma_member_nodes_shape(members, parent_path, parent, depth, first, offset);
    if members.len() > 0 {
        lemma_member_value_decreases(members.last());
        let last = (members.len() - 1) as nat;
        let entry = members.last();
        let key = entry.spec_key();
        let front = member_nodes(members.drop_last(), parent_path, parent, depth, first, offset);
        let start = first + members_node_count(members.drop_last());
        let position = offset + serialize_members(members.drop_last()).len() + (if last > 0 {
            1nat
        } else {
            0nat
        }) + quoted_json_string(key).len() + 1;
        let back = json_nodes(
            entry.spec_value(),
            object_child_pointer(parent_path, key),
            JsonLabelModel::Key(key),
            Some(parent),
            depth,
            start,
            position,
        );
        lemma_member_nodes_depth(members.drop_last(), parent_path, parent, depth, first, offset);
        lemma_member_nodes_shape(members.drop_last(), parent_path, parent, depth, first, offset);
        lemma_json_nodes_depth(
            entry.spec_value(),
            object_child_pointer(parent_path, key),
            JsonLabelModel::Key(key),
            Some(parent),
            depth,
            start,
            position,
        );
        lemma_json_nodes_shape(
            entry.spec_value(),
            object_child_pointer(parent_path, key),
            JsonLabelModel::Key(key),
            Some(parent),
            depth,
            start,
            position,
        );
        assert(member_nodes(members, parent_path, parent, depth, first, offset) =~= front + back);
        lemma_depths_append(front, back, parent, parent_path, depth, first);
    }
}

/// The root record has depth zero and the empty path; every other record is one level deeper
/// than its parent record, saturating at the largest `u32`, and its path is its parent
/// record's path followed by `/` and the reference token of its key or index, which holds no
/// `/`: the parent's path is the record's path without its last token
pub proof fn lemma_document_node_parents(root: JsonValue)
    ensures
        ({
            let nodes = document_nodes(root);
            &&& nodes[0].depth == 0
            &&& nodes[0].path == Seq::<char>::empty()
            &&& forall|k: int|
                0 < k < nodes.len() ==> ((#[trigger] nodes[k]).parent matches Some(p) && p < k
                    && nodes[k].depth == child_depth(nodes[p as int].depth) && nodes[k].path
                    == child_path(nodes[p as int].path, nodes[k].label) && is_segment(
                    label_token(nodes[k].label),
                ))
        }),
{
    lemma_json_nodes_depth(root, Seq::empty(), JsonLabelModel::Root, None, 0, 0, 0);
    let nodes = document_nodes(root);
    assert forall|k: int| 0 < k < nodes.len() implies ((#[trigger] nodes[k]).parent matches Some(p)
        && p < k && nodes[k].depth == child_depth(nodes[p as int].depth) && nodes[k].path
        == child_path(nodes[p as int].path, nodes[k].label) && is_segment(
        label_token(nodes[k].label),
    )) by {
        assert(record_in_subtree_follows(nodes, 0, k));
        match nodes[k].label {
            JsonLabelModel::Key(key) => lemma_escape_token(key),
            JsonLabelModel::Index(index) => lemma_decimal_token(index),
            JsonLabelModel::Root => {},
        }
    }
}


/// No two records share a path
pub open spec fn paths_distinct(nodes: Seq<JsonNodeModel>) -> bool {
    forall|a: int, b: int|
        0 <= a < nodes.len() && 0 <= b < nodes.len() && a != b ==> (#[trigger] nodes[a]).path != (
        #[trigger] nodes[b]).path
}

/// Record `k` of the records of array elements under `parent_path` lies below it, under the
/// token of an element index below `count`
pub open spec fn item_record_under(nodes: Seq<JsonNodeModel>, parent_path: Seq<char>, count: nat, k: int) -> bool {
    is_below(nodes[k].path, parent_path) && 0 <= decimal_value(
        segment_at(nodes[k].path, parent_path.len() + 1int),
    ) < count
}

/// Some member of `members` has `key`
pub open spec fn has_member_key(members: Seq<JsonMember>, key: Seq<char>) -> bool {
    exists|j: int| 0 <= j < members.len() && #[trigger] members[j].spec_key() == key
}

/// Record `k` of the records of member values under `parent_path` lies below it, under the
/// token of one of the members' keys
pub open spec fn member_record_under(
    nodes: Seq<JsonNodeModel>,
    parent_path: Seq<char>,
    members: Seq<JsonMember>,
    k: int,
) -> bool {
    is_below(nodes[k].path, parent_path) && has_member_key(
        members,
        unescape_pointer_token(segment_at(nodes[k].path, parent_path.len() + 1int)),
    )
}

/// A value's records have distinct paths, all below the value's own but its first
proof fn lemma_json_nodes_paths(
    value: JsonValue,
    path: Seq<char>,
    label: JsonLabelModel,
    parent: Option<nat>,
    depth: nat,
    index: nat,
    offset: nat,
)
    requires
        keys_unique_throughout(value),
    ensures
        ({
            let nodes = json_nodes(value, path, label, parent, depth, index, offset);
            &&& forall|k: int| 0 < k < nodes.len() ==> is_below((#[trigger] nodes[k]).path, path)
            &&& paths_distinct(nodes)
        }),
    decreases value, 1int,
{
    lemma_json_nodes_depth(value, path, label, parent, depth, index, offset);
    let nodes = json_nodes(value, path, label, parent, depth, index, offset);
    let head = nodes[0];
    match value.spec_kind() {
        JsonKind::Array => {
            lemma_items_decrease(value);
            let items = value.spec_items();
            let children = item_nodes(items, path, index, child_depth(depth), index + 1, offset + 1);
            lemma_item_nodes_paths(items, path, index, child_depth(depth), index + 1, offset + 1);
            assert(nodes =~= seq![head] + children);
            assert forall|k: int| 0 < k < nodes.len() implies is_below((#[trigger] nodes[k]).path, path) by {
                assert(nodes[k] == children[k - 1]);
                assert(item_record_under(children, path, items.len(), k - 1));
            }
            assert forall|a: int, b: int|
                0 <= a < nodes.len() && 0 <= b < nodes.len() && a != b implies (#[trigger] nodes[a]).path
                != (#[trigger] nodes[b]).path by {
                if a > 0 && b > 0 {
                    assert(nodes[a] == children[a - 1]);
                    assert(nodes[b] == children[b - 1]);
                } else if a > 0 {
                    assert(nodes[a] == children[a - 1]);
                    assert(item_record_under(children, path, items.len(), a - 1));
                } else {
                    assert(nodes[b] == children[b - 1]);
                    assert(item_record_under(children, path, items.len(), b - 1));
                }
            }
        },
        JsonKind::Object => {
            lemma_members_decrease(value);
            let members = value.spec_members();
            let children = member_nodes(
                members,
                path,
                index,
                child_depth(depth),
                index + 1,
                offset + 1,
            );
            lemma_member_nodes_paths(members, path, index, child_depth(depth), index + 1, offset + 1);
            assert(nodes =~= seq![head] + children);
            assert forall|k: int| 0 < k < nodes.len() implies is_below((#[trigger] nodes[k]).path, path) by {
                assert(nodes[k] == children[k - 1]);
                assert(member_record_under(children, path, members, k - 1));
            }
            assert forall|a: int, b: int|
                0 <= a < nodes.len() && 0 <= b < nodes.len() && a != b implies (#[trigger] nodes[a]).path
                != (#[trigger] nodes[b]).path by {
                if a > 0 && b > 0 {
                    assert(nodes[a] == children[a - 1]);
                    assert(nodes[b] == children[b - 1]);
                } else if a > 0 {
                    assert(nodes[a] == children[a - 1]);
                    assert(member_record_under(children, path, members, a - 1));
                } else {
                    assert(nodes[b] == children[b - 1]);
                    assert(member_record_under(children, path, members, b - 1));
                }
            }
        },
        _ => {
            assert(nodes.len() == 1);
        },
    }
}

proof fn lemma_item_nodes_paths(
    items: Seq<JsonValue>,
    parent_path: Seq<char>,
    parent: nat,
    depth: nat,
    first: nat,
    offset: nat,
)
    requires
        items_keys_unique(items),
    ensures
        ({
            let nodes = item_nodes(items, parent_path, parent, depth, first, offset);
            &&& forall|k: int|
                0 <= k < nodes.len() ==> #[trigger] item_record_under(nodes, parent_path, items.len(), k)
            &&& paths_distinct(nodes)
        }),
    decreases items, 0int,
{
    if items.len() > 0 {
        let last = (items.len() - 1) as nat;
        let front = item_nodes(items.drop_last(), parent_path, parent, depth, first, offset);
        let start = first + items_node_count(items.drop_last());
        let position = offset + serialize_items(items.drop_last()).len() + if last > 0 {
            1nat
        } else {
            0nat
        };
        let token = decimal_chars(last);
        let pointer = array_child_pointer(parent_path, last);
        let back = json_nodes(
            items.last(),
            pointer,
            JsonLabelModel::Index(last),
            Some(parent),
            depth,
            start,
            position,
        );
        lemma_item_nodes_paths(items.drop_last(), parent_path, parent, depth, first, offset);
        lemma_json_nodes_paths(
            items.last(),
            pointer,
            JsonLabelModel::Index(last),
            Some(parent),
            depth,
            start,
            position,
        );
        lemma_json_nodes_depth(
            items.last(),
            pointer,
            JsonLabelModel::Index(last),
            Some(parent),
            depth,
            start,
            position,
        );
        lemma_decimal_token(last);
        let nodes = item_nodes(items, parent_path, parent, depth, first, offset);
        assert(nodes =~= front + back);
        assert forall|j: int| 0 <= j < back.len() implies is_below(back[j].path, parent_path)
            && #[trigger] segment_at(back[j].path, parent_path.len() + 1int) == token by {
            lemma_path_under_token(back[j].path, parent_path, token);
        }
        assert forall|k: int| 0 <= k < nodes.len() implies #[trigger] item_record_under(
            nodes,
            parent_path,
            items.len(),
            k,
        ) by {
            if k < front.len() {
                assert(nodes[k] == front[k]);
                assert(item_record_under(front, parent_path, last, k));
            } else {
                assert(nodes[k] == back[k - front.len()]);
                assert(segment_at(back[k - front.len()].path, parent_path.len() + 1int) == token);
            }
        }
        assert forall|a: int, b: int|
            0 <= a < nodes.len() && 0 <= b < nodes.len() && a != b implies (#[trigger] nodes[a]).path
            != (#[trigger] nodes[b]).path by {
            if a < front.len() && b < front.len() {
                assert(nodes[a] == front[a]);
                assert(nodes[b] == front[b]);
            } else if a >= front.len() && b >= front.len() {
                assert(nodes[a] == back[a - front.len()]);
                assert(nodes[b] == back[b - front.len()]);
            } else if a < front.len() {
                assert(nodes[a] == front[a]);
                assert(item_record_under(front, parent_path, last, a));
                assert(nodes[b] == back[b - front.len()]);
                assert(segment_at(back[b - front.len()].path, parent_path.len() + 1int) == token);
            } else {
                assert(nodes[b] == front[b]);
                assert(item_record_under(front, parent_path, last, b));
                assert(nodes[a] == back[a - front.len()]);
                assert(segment_at(back[a - front.len()].path, parent_path.len() + 1int) == token);
            }
        }
    }
}

/// The members before the last of members with unique keys have unique keys
proof fn lemma_unique_keys_drop_last(members: Seq<JsonMember>)
    requires
        has_unique_keys(members),
        members.len() > 0,
    ensures
        has_unique_keys(members.drop_last()),
{
    let front = members.drop_last();
    assert forall|index: int| 0 <= index < front.len() implies !repeats_earlier_key(front, index) by {
        if repeats_earlier_key(front, index) {
            let earlier = choose|earlier: int|
                0 <= earlier < index && #[trigger] front[earlier].spec_key() == front[index].spec_key();
            assert(members[earlier].spec_key() == members[index].spec_key());
            assert(repeats_earlier_key(members, index));
        }
    }
}

proof fn lemma_member_nodes_paths(
    members: Seq<JsonMember>,
    parent_path: Seq<char>,
    parent: nat,
    depth: nat,
    first: nat,
    offset: nat,
)
    requires
        has_unique_keys(members),
        members_keys_unique(members),
    ensures
        ({
            let nodes = member_nodes(members, parent_path, parent, depth, first, offset);
            &&& forall|k: int|
                0 <= k < nodes.len() ==> #[trigger] member_record_under(nodes, parent_path, members, k)
            &&& paths_distinct(nodes)
        }),
    decreases members, 0int,
{
    if members.len() > 0 {
        lemma_member_value_decreases(members.last());
        let last = (members.len() - 1) as nat;
        let entry = members.last();
        let key = entry.spec_key();
        let front_members = members.drop_last();
        let front = member_nodes(front_members, parent_path, parent, depth, first, offset);
        let start = first + members_node_count(front_members);
        let position = offset + serialize_members(front_members).len() + (if last > 0 {
            1nat
        } else {
            0nat
        }) + quoted_json_string(key).len() + 1;
        let token = escape_pointer_token(key);
        let pointer = object_child_pointer(parent_path, key);
        let back = json_nodes(
            entry.spec_value(),
            pointer,
            JsonLabelModel::Key(key),
            Some(parent),
            depth,
            start,
            position,
        );
        lemma_unique_keys_drop_last(members);
        lemma_member_nodes_paths(front_members, parent_path, parent, depth, first, offset);
        lemma_json_nodes_paths(
            entry.spec_value(),
            pointer,
            JsonLabelModel::Key(key),
            Some(parent),
            depth,
            start,
            position,
        );
        lemma_json_nodes_depth(
            entry.spec_value(),
            pointer,
            JsonLabelModel::Key(key),
            Some(parent),
            depth,
            start,
            position,
        );
        lemma_escape_token(key);
        let nodes = member_nodes(members, parent_path, parent, depth, first, offset);
        assert(nodes =~= front + back);
        assert(members[last as int].spec_key() == key);
        assert forall|j: int| 0 <= j < back.len() implies is_below(back[j].path, parent_path)
            && #[trigger] segment_at(back[j].path, parent_path.len() + 1int) == token by {
            lemma_path_under_token(back[j].path, parent_path, token);
        }
        assert forall|k: int| 0 <= k < nodes.len() implies #[trigger] member_record_under(
            nodes,
            parent_path,
            members,
            k,
        ) by {
            if k < front.len() {
                assert(nodes[k] == front[k]);
                assert(member_record_under(front, parent_path, front_members, k));
                let j = choose|j: int|
                    0 <= j < front_members.len() && #[trigger] front_members[j].spec_key()
                        == unescape_pointer_token(segment_at(front[k].path, parent_path.len() + 1int));
                assert(members[j].spec_key() == front_members[j].spec_key());
            } else {
                assert(nodes[k] == back[k - front.len()]);
                assert(segment_at(back[k - front.len()].path, parent_path.len() + 1int) == token);
            }
        }
        assert forall|a: int, b: int|
            0 <= a < nodes.len() && 0 <= b < nodes.len() && a != b implies (#[trigger] nodes[a]).path
            != (#[trigger] nodes[b]).path by {
            if a < front.len() && b < front.len() {
                assert(nodes[a] == front[a]);
                assert(nodes[b] == front[b]);
            } else if a >= front.len() && b >= front.len() {
                assert(nodes[a] == back[a - front.len()]);
                assert(nodes[b] == back[b - front.len()]);
            } else {
                let (x, y) = if a < front.len() {
                    (a, b)
                } else {
                    (b, a)
                };
                assert(nodes[x] == front[x]);
                assert(member_record_under(front, parent_path, front_members, x));
                assert(nodes[y] == back[y - front.len()]);
                assert(segment_at(back[y - front.len()].path, parent_path.len() + 1int) == token);
                if nodes[x].path == nodes[y].path {
                    let j = choose|j: int|
                        0 <= j < front_members.len() && #[trigger] front_members[j].spec_key()
                            == unescape_pointer_token(segment_at(front[x].path, parent_path.len() + 1int));
                    assert(members[j].spec_key() == members[last as int].spec_key());
                    assert(repeats_earlier_key(members, last as int));
                }
            }
        }
    }
}

/// In a document whose objects all have unique keys, no two records share a path
pub proof fn lemma_document_paths_distinct(root: JsonValue)
    requires
        keys_unique_throughout(root),
    ensures
        paths_distinct(document_nodes(root)),
{
    lemma_json_nodes_paths(root, Seq::empty(), JsonLabelModel::Root, None, 0, 0, 0);
}

/// Every value of a tree in preorder, the value itself first
pub open spec fn json_values(value: JsonValue) -> Seq<JsonValue>
    decreases value, 1int,
{
    match value.spec_kind() {
        JsonKind::Array => {
            proof {
                lemma_items_decrease(value);
            }
            seq![value] + item_values(value.spec_items())
        },
        JsonKind::Object => {
            proof {
                lemma_members_decrease(value);
            }
            seq![value] + member_values(value.spec_members())
        },
        _ => seq![value],
    }
}

/// Every value of ordered array elements in preorder
pub open spec fn item_values(items: Seq<JsonValue>) -> Seq<JsonValue>
    decreases items, 0int,
{
    if items.len() == 0 {
        Seq::empty()
    } else {
        item_values(items.drop_last()) + json_values(items.last())
    }
}

/// Every value of the values of ordered object members in preorder
pub open spec fn member_values(members: Seq<JsonMember>) -> Seq<JsonValue>
    decreases members, 0int,
{
    if members.len() == 0 {
        Seq::empty()
    } else {
        proof {
            lemma_member_value_decreases(members.last());
        }
        member_values(members.drop_last()) + json_values(members.last().spec_value())
    }
}

/// A slice of a slice of a text is a slice of the text
proof fn lemma_slice_inside(text: Seq<char>, start: int, whole: Seq<char>, from: int, to: int)
    requires
        0 <= start,
        start + whole.len() <= text.len(),
        text.subrange(start, start + whole.len()) == whole,
        0 <= from <= to <= whole.len(),
    ensures
        text.subrange(start + from, start + to) == whole.subrange(from, to),
{
    assert forall|i: int| 0 <= i < to - from implies text.subrange(start + from, start + to)[i]
        == whole.subrange(from, to)[i] by {
        assert(text.subrange(start, start + whole.len())[from + i] == whole[from + i]);
    }
    assert(text.subrange(start + from, start + to) =~= whole.subrange(from, to));
}

/// Every record of a value placed at `offset` of `text` covers the serialization of its value
pub open spec fn records_cover_values(
    nodes: Seq<JsonNodeModel>,
    values: Seq<JsonValue>,
    text: Seq<char>,
) -> bool {
    &&& nodes.len() == values.len()
    &&& forall|k: int|
        0 <= k < nodes.len() ==> {
            &&& (#[trigger] nodes[k]).start + json_serialization(values[k]).len() == nodes[k].end
            &&& nodes[k].end <= text.len()
            &&& text.subrange(nodes[k].start as int, nodes[k].end as int) == json_serialization(
                values[k],
            )
        }
}

/// Joining record and value sequences keeps records covering their values
proof fn lemma_cover_append(
    front: Seq<JsonNodeModel>,
    front_values: Seq<JsonValue>,
    back: Seq<JsonNodeModel>,
    back_values: Seq<JsonValue>,
    text: Seq<char>,
)
    requires
        records_cover_values(front, front_values, text),
        records_cover_values(back, back_values, text),
    ensures
        records_cover_values(front + back, front_values + back_values, text),
{
    let nodes = front + back;
    let values = front_values + back_values;
    assert forall|k: int| 0 <= k < nodes.len() implies {
        &&& (#[trigger] nodes[k]).start + json_serialization(values[k]).len() == nodes[k].end
        &&& nodes[k].end <= text.len()
        &&& text.subrange(nodes[k].start as int, nodes[k].end as int) == json_serialization(
            values[k],
        )
    } by {
        if k < front.len() {
            assert(nodes[k] == front[k] && values[k] == front_values[k]);
        } else {
            assert(nodes[k] == back[k - front.len()] && values[k] == back_values[k - front.len()]);
        }
    }
}

/// Records built for a value serialized at `offset` of `text` cover the serializations of the
/// values of the tree
proof fn lemma_json_nodes_text(
    value: JsonValue,
    path: Seq<char>,
    label: JsonLabelModel,
    parent: Option<nat>,
    depth: nat,
    index: nat,
    offset: nat,
    text: Seq<char>,
)
    requires
        offset + json_serialization(value).len() <= text.len(),
        text.subrange(offset as int, (offset + json_serialization(value).len()) as int) == json_serialization(
            value,
        ),
    ensures
        records_cover_values(
            json_nodes(value, path, label, parent, depth, index, offset),
            json_values(value),
            text,
        ),
    decreases value, 1int,
{
    let nodes = json_nodes(value, path, label, parent, depth, index, offset);
    let whole = json_serialization(value);
    let head = seq![nodes[0]];
    let head_values = seq![value];
    assert(records_cover_values(head, head_values, text)) by {
        assert(head[0] == nodes[0]);
    }
    match value.spec_kind() {
        JsonKind::Array => {
            lemma_items_decrease(value);
            let items = value.spec_items();
            let inner = serialize_items(items);
            assert(whole == seq!['['] + inner + seq![']']);
            lemma_slice_inside(text, offset as int, whole, 1, 1 + inner.len() as int);
            assert(whole.subrange(1, 1 + inner.len() as int) =~= inner);
            lemma_item_nodes_text(items, path, index, child_depth(depth), index + 1, offset + 1, text);
            let children = item_nodes(items, path, index, child_depth(depth), index + 1, offset + 1);
            assert(nodes =~= head + children);
            assert(json_values(value) =~= head_values + item_values(items));
            lemma_cover_append(head, head_values, children, item_values(items), text);
        },
        JsonKind::Object => {
            lemma_members_decrease(value);
            let members = value.spec_members();
            let inner = serialize_members(members);
            assert(whole == seq!['{'] + inner + seq!['}']);
            lemma_slice_inside(text, offset as int, whole, 1, 1 + inner.len() as int);
            assert(whole.subrange(1, 1 + inner.len() as int) =~= inner);
            lemma_member_nodes_text(
                members,
                path,
                index,
                child_depth(depth),
                index + 1,
                offset + 1,
                text,
            );
            let children = member_nodes(
                members,
                path,
                index,
                child_depth(depth),
                index + 1,
                offset + 1,
            );
            assert(nodes =~= head + children);
            assert(json_values(value) =~= head_values + member_values(members));
            lemma_cover_append(head, head_values, children, member_values(members), text);
        },
        _ => {
            assert(nodes =~= head);
            assert(json_values(value) =~= head_values);
        },
    }
}

proof fn lemma_item_nodes_text(
    items: Seq<JsonValue>,
    parent_path: Seq<char>,
    parent: nat,
    depth: nat,
    first: nat,
    offset: nat,
    text: Seq<char>,
)
    requires
        offset + serialize_items(items).len() <= text.len(),
        text.subrange(offset as int, (offset + serialize_items(items).len()) as int) == serialize_items(
            items,
        ),
    ensures
        records_cover_values(
            item_nodes(items, parent_path, parent, depth, first, offset),
            item_values(items),
            text,
        ),
    decreases items, 0int,
{
    if items.len() > 0 {
        let last = (items.len() - 1) as nat;
        let front_items = items.drop_last();
        let whole = serialize_items(items);
        let front_text = serialize_items(front_items);
        let separator: nat = if last > 0 {
            1nat
        } else {
            0nat
        };
        let start = first + items_node_count(front_items);
        let position = offset + front_text.len() + separator;
        if last > 0 {
            assert(whole == front_text + seq![','] + json_serialization(items.last()));
        } else {
            assert(front_items =~= Seq::<JsonValue>::empty());
            assert(front_text =~= Seq::<char>::empty());
            assert(whole == json_serialization(items[0]));
            assert(items.last() == items[0]);
        }
        lemma_slice_inside(text, offset as int, whole, 0, front_text.len() as int);
        assert(whole.subrange(0, front_text.len() as int) =~= front_text);
        lemma_slice_inside(text, offset as int, whole, (front_text.len() + separator) as int, whole.len() as int);
        assert(whole.subrange((front_text.len() + separator) as int, whole.len() as int) =~= json_serialization(
            items.last(),
        ));
        lemma_item_nodes_text(front_items, parent_path, parent, depth, first, offset, text);
        lemma_json_nodes_text(
            items.last(),
            array_child_pointer(parent_path, last),
            JsonLabelModel::Index(last),
            Some(parent),
            depth,
            start,
            position,
            text,
        );
        lemma_cover_append(
            item_nodes(front_items, parent_path, parent, depth, first, offset),
            item_values(front_items),
            json_nodes(
                items.last(),
                array_child_pointer(parent_path, last),
                JsonLabelModel::Index(last),
                Some(parent),
                depth,
                start,
                position,
            ),
            json_values(items.last()),
            text,
        );
    }
}

proof fn lemma_member_nodes_text(
    members: Seq<JsonMember>,
    parent_path: Seq<char>,
    parent: nat,
    depth: nat,
    first: nat,
    offset: nat,
    text: Seq<char>,
)
    requires
        offset + serialize_members(members).len() <= text.len(),
        text.subrange(offset as int, (offset + serialize_members(members).len()) as int)
            == serialize_members(members),
    ensures
        records_cover_values(
            member_nodes(members, parent_path, parent, depth, first, offset),
            member_values(members),
            text,
        ),
    decreases members, 0int,
{
    if members.len() > 0 {
        lemma_member_value_decreases(members.last());
        let last = (members.len() - 1) as nat;
        let entry = members.last();
        let key = entry.spec_key();
        let front_members = members.drop_last();
        let whole = serialize_members(members);
        let front_text = serialize_members(front_members);
        let separator: nat = if last > 0 {
            1nat
        } else {
            0nat
        };
        let start = first + members_node_count(front_members);
        let value_start = front_text.len() + separator + quoted_json_string(key).len() + 1;
        let position = offset + value_start;
        if last > 0 {
            assert(whole == front_text + seq![','] + serialize_member(entry));
        } else {
            assert(front_members =~= Seq::<JsonMember>::empty());
            assert(front_text =~= Seq::<char>::empty());
            assert(whole == serialize_member(members[0]));
            assert(entry == members[0]);
        }
        assert(serialize_member(entry) == quoted_json_string(key) + seq![':'] + json_serialization(
            entry.spec_value(),
        ));
        lemma_slice_inside(text, offset as int, whole, 0, front_text.len() as int);
        assert(whole.subrange(0, front_text.len() as int) =~= front_text);
        lemma_slice_inside(text, offset as int, whole, value_start as int, whole.len() as int);
        assert(whole.subrange(value_start as int, whole.len() as int) =~= json_serialization(
            entry.spec_value(),
        ));
        lemma_member_nodes_text(front_members, parent_path, parent, depth, first, offset, text);
        lemma_json_nodes_text(
            entry.spec_value(),
            object_child_pointer(parent_path, key),
            JsonLabelModel::Key(key),
            Some(parent),
            depth,
            start,
            position,
            text,
        );
        lemma_cover_append(
            member_nodes(front_members, parent_path, parent, depth, first, offset),
            member_values(front_members),
            json_nodes(
                entry.spec_value(),
                object_child_pointer(parent_path, key),
                JsonLabelModel::Key(key),
                Some(parent),
                depth,
                start,
                position,
            ),
            json_values(entry.spec_value()),
            text,
        );
    }
}

/// The records of a document follow its values in preorder, the root first, and the slice of
/// the document serialization that each record marks is the serialization of its value; so
/// an array's slice is `[`, its elements' serializations joined by commas, then `]`, and an
/// object's is `{`, each quoted key, a colon and its value's serialization joined by commas,
/// then `}`
pub proof fn lemma_document_node_serializations(root: JsonValue)
    ensures
        ({
            let nodes = document_nodes(root);
            let values = json_values(root);
            let text = json_serialization(root);
            &&& values[0] == root
            &&& records_cover_values(nodes, values, text)
        }),
{
    let text = json_serialization(root);
    assert(text.subrange(0, text.len() as int) =~= text);
    lemma_json_nodes_text(root, Seq::empty(), JsonLabelModel::Root, None, 0, 0, 0, text);
}

/// A value lists as many values as it has nodes
proof fn lemma_json_values_len(value: JsonValue)
    ensures
        json_values(value).len() == json_node_count(value),
    decreases value, 1int,
{
    match value.spec_kind() {
        JsonKind::Array => {
            lemma_items_decrease(value);
            lemma_item_values_len(value.spec_items());
        },
        JsonKind::Object => {
            lemma_members_decrease(value);
            lemma_member_values_len(value.spec_members());
        },
        _ => {},
    }
}

proof fn lemma_item_values_len(items: Seq<JsonValue>)
    ensures
        item_values(items).len() == items_node_count(items),
    decreases items, 0int,
{
    if items.len() > 0 {
        lemma_item_values_len(items.drop_last());
        lemma_json_values_len(items.last());
    }
}

proof fn lemma_member_values_len(members: Seq<JsonMember>)
    ensures
        member_values(members).len() == members_node_count(members),
    decreases members, 0int,
{
    if members.len() > 0 {
        lemma_member_value_decreases(members.last());
        lemma_member_values_len(members.drop_last());
        lemma_json_values_len(members.last().spec_value());
    }
}

/// `child` is the element of `items` at the index `label` names
pub open spec fn item_label_reaches(items: Seq<JsonValue>, label: JsonLabelModel, child: JsonValue) -> bool {
    label matches JsonLabelModel::Index(index) && index < items.len() && items[index as int] == child
}

/// `child` is the value of the member of `members` with the key `label` names
pub open spec fn member_label_reaches(members: Seq<JsonMember>, label: JsonLabelModel, child: JsonValue) -> bool {
    label matches JsonLabelModel::Key(key) && exists|j: int|
        0 <= j < members.len() && #[trigger] members[j].spec_key() == key && members[j].spec_value()
            == child
}

/// Reaching an element of `items` by its index
pub open spec fn reaches_items(items: Seq<JsonValue>) -> spec_fn(JsonLabelModel, JsonValue) -> bool {
    |label: JsonLabelModel, child: JsonValue| item_label_reaches(items, label, child)
}

/// Reaching the value of a member of `members` by its key
pub open spec fn reaches_members(members: Seq<JsonMember>) -> spec_fn(JsonLabelModel, JsonValue) -> bool {
    |label: JsonLabelModel, child: JsonValue| member_label_reaches(members, label, child)
}

/// The value `child` is reached by `label` from the value `parent`: the element at the index,
/// or the value of the member with the key
pub open spec fn label_reaches(parent: JsonValue, label: JsonLabelModel, child: JsonValue) -> bool {
    match parent.spec_kind() {
        JsonKind::Array => item_label_reaches(parent.spec_items(), label, child),
        JsonKind::Object => member_label_reaches(parent.spec_members(), label, child),
        _ => false,
    }
}

/// Record `k` is a direct child of the record `parent`, reached as `direct` allows, or a child
/// of an earlier record of `nodes`, reached by its label from that record's value
pub open spec fn record_value_follows(
    nodes: Seq<JsonNodeModel>,
    values: Seq<JsonValue>,
    parent: nat,
    direct: spec_fn(JsonLabelModel, JsonValue) -> bool,
    first: nat,
    k: int,
) -> bool {
    nodes[k].parent matches Some(p) && ((p == parent && direct(nodes[k].label, values[k])) || (first
        <= p < first + k && label_reaches(values[p - first], nodes[k].label, values[k])))
}

/// Record `k` of a subtree starting at preorder index `index` is reached by its label from the
/// value of an earlier record of the subtree
pub open spec fn record_value_in_subtree(
    nodes: Seq<JsonNodeModel>,
    values: Seq<JsonValue>,
    index: nat,
    k: int,
) -> bool {
    nodes[k].parent matches Some(p) && index <= p < index + k && label_reaches(
        values[p - index],
        nodes[k].label,
        values[k],
    )
}

/// Some record of `nodes` has parent `parent` and `label`
pub open spec fn has_child_record(nodes: Seq<JsonNodeModel>, parent: nat, label: JsonLabelModel) -> bool {
    exists|c: int|
        0 <= c < nodes.len() && (#[trigger] nodes[c]).parent == Some(parent) && nodes[c].label
            == label
}

/// Every element or member of the value of record `q` (at preorder index `first + q`) has a
/// record among `nodes` whose parent is record `q`
pub open spec fn children_present(nodes: Seq<JsonNodeModel>, values: Seq<JsonValue>, first: nat, q: int) -> bool {
    &&& forall|i: nat|
        i < values[q].spec_items().len() ==> #[trigger] has_child_record(
            nodes,
            (first + q) as nat,
            JsonLabelModel::Index(i),
        )
    &&& forall|j: int|
        0 <= j < values[q].spec_members().len() ==> #[trigger] has_child_record(
            nodes,
            (first + q) as nat,
            JsonLabelModel::Key(values[q].spec_members()[j].spec_key()),
        )
}

proof fn lemma_child_record_append(
    front: Seq<JsonNodeModel>,
    back: Seq<JsonNodeModel>,
    parent: nat,
    label: JsonLabelModel,
)
    ensures
        has_child_record(front, parent, label) ==> has_child_record(front + back, parent, label),
        has_child_record(back, parent, label) ==> has_child_record(front + back, parent, label),
{
    let all = front + back;
    if has_child_record(front, parent, label) {
        let c = choose|c: int|
            0 <= c < front.len() && (#[trigger] front[c]).parent == Some(parent) && front[c].label
                == label;
        assert(all[c] == front[c]);
    }
    if has_child_record(back, parent, label) {
        let c = choose|c: int|
            0 <= c < back.len() && (#[trigger] back[c]).parent == Some(parent) && back[c].label
                == label;
        assert(all[c + front.len()] == back[c]);
    }
}

proof fn lemma_present_in_front(
    front: Seq<JsonNodeModel>,
    back: Seq<JsonNodeModel>,
    front_values: Seq<JsonValue>,
    back_values: Seq<JsonValue>,
    first: nat,
    q: int,
)
    requires
        front.len() == front_values.len(),
        0 <= q < front.len(),
        children_present(front, front_values, first, q),
    ensures
        children_present(front + back, front_values + back_values, first, q),
{
    let values = front_values + back_values;
    assert(values[q] == front_values[q]);
    assert forall|i: nat| i < values[q].spec_items().len() implies #[trigger] has_child_record(
        front + back,
        (first + q) as nat,
        JsonLabelModel::Index(i),
    ) by {
        assert(has_child_record(front, (first + q) as nat, JsonLabelModel::Index(i)));
        lemma_child_record_append(front, back, (first + q) as nat, JsonLabelModel::Index(i));
    }
    assert forall|j: int| 0 <= j < values[q].spec_members().len() implies #[trigger] has_child_record(
        front + back,
        (first + q) as nat,
        JsonLabelModel::Key(values[q].spec_members()[j].spec_key()),
    ) by {
        let label = JsonLabelModel::Key(values[q].spec_members()[j].spec_key());
        assert(has_child_record(front, (first + q) as nat, label));
        lemma_child_record_append(front, back, (first + q) as nat, label);
    }
}

proof fn lemma_present_in_back(
    front: Seq<JsonNodeModel>,
    back: Seq<JsonNodeModel>,
    front_values: Seq<JsonValue>,
    back_values: Seq<JsonValue>,
    first: nat,
    q: int,
)
    requires
        front.len() == front_values.len(),
        0 <= q < back.len(),
        back.len() == back_values.len(),
        children_present(back, back_values, first + front.len(), q),
    ensures
        children_present(front + back, front_values + back_values, first, q + front.len()),
{
    let values = front_values + back_values;
    let k = q + front.len();
    assert(values[k] == back_values[q]);
    assert((first + front.len() + q) as nat == (first + k) as nat);
    assert forall|i: nat| i < values[k].spec_items().len() implies #[trigger] has_child_record(
        front + back,
        (first + k) as nat,
        JsonLabelModel::Index(i),
    ) by {
        assert(has_child_record(back, (first + front.len() + q) as nat, JsonLabelModel::Index(i)));
        lemma_child_record_append(front, back, (first + k) as nat, JsonLabelModel::Index(i));
    }
    assert forall|j: int| 0 <= j < values[k].spec_members().len() implies #[trigger] has_child_record(
        front + back,
        (first + k) as nat,
        JsonLabelModel::Key(values[k].spec_members()[j].spec_key()),
    ) by {
        let label = JsonLabelModel::Key(values[k].spec_members()[j].spec_key());
        assert(has_child_record(back, (first + front.len() + q) as nat, label));
        lemma_child_record_append(front, back, (first + k) as nat, label);
    }
}

/// Record `k` carries the kind and child count of its value
pub open spec fn record_holds_value(nodes: Seq<JsonNodeModel>, values: Seq<JsonValue>, k: int) -> bool {
    nodes[k].kind == values[k].spec_kind() && nodes[k].child_count == json_child_count(values[k])
}

/// Each record's value is reached from its parent record's value by its label, and every
/// element or member of a record's value has a record under it
proof fn lemma_json_nodes_values(
    value: JsonValue,
    path: Seq<char>,
    label: JsonLabelModel,
    parent: Option<nat>,
    depth: nat,
    index: nat,
    offset: nat,
)
    ensures
        ({
            let nodes = json_nodes(value, path, label, parent, depth, index, offset);
            let values = json_values(value);
            &&& nodes.len() == values.len()
            &&& values[0] == value
            &&& forall|k: int| 0 <= k < nodes.len() ==> #[trigger] record_holds_value(nodes, values, k)
            &&& forall|k: int| 0 < k < nodes.len() ==> #[trigger] record_value_in_subtree(nodes, values, index, k)
            &&& forall|q: int| 0 <= q < nodes.len() ==> #[trigger] children_present(nodes, values, index, q)
        }),
    decreases value, 1int,
{
    lemma_json_nodes_len(value, path, label, parent, depth, index, offset);
    lemma_json_values_len(value);
    lemma_json_nodes_depth(value, path, label, parent, depth, index, offset);
    let nodes = json_nodes(value, path, label, parent, depth, index, offset);
    let values = json_values(value);
    let head = nodes[0];
    match value.spec_kind() {
        JsonKind::Array => {
            lemma_items_decrease(value);
            let items = value.spec_items();
            let children = item_nodes(items, path, index, child_depth(depth), index + 1, offset + 1);
            let child_values = item_values(items);
            lemma_item_nodes_values(items, path, index, child_depth(depth), index + 1, offset + 1);
            assert(nodes =~= seq![head] + children);
            assert(values =~= seq![value] + child_values);
            assert forall|k: int| 0 <= k < nodes.len() implies #[trigger] record_holds_value(nodes, values, k) by {
                if k > 0 {
                    assert(nodes[k] == children[k - 1]);
                    assert(values[k] == child_values[k - 1]);
                    assert(record_holds_value(children, child_values, k - 1));
                }
            }
            assert forall|k: int| 0 < k < nodes.len() implies #[trigger] record_value_in_subtree(
                nodes,
                values,
                index,
                k,
            ) by {
                assert(nodes[k] == children[k - 1]);
                assert(values[k] == child_values[k - 1]);
                assert(record_value_follows(
                    children,
                    child_values,
                    index,
                    reaches_items(items),
                    index + 1,
                    k - 1,
                ));
                let p = nodes[k].parent->0;
                if p != index {
                    assert(values[p - index] == child_values[p - index - 1]);
                }
            }
            assert forall|q: int| 0 <= q < nodes.len() implies #[trigger] children_present(
                nodes,
                values,
                index,
                q,
            ) by {
                if q == 0 {
                    assert forall|i: nat| i < values[0].spec_items().len() implies #[trigger] has_child_record(
                        nodes,
                        (index + 0) as nat,
                        JsonLabelModel::Index(i),
                    ) by {
                        assert(has_child_record(children, index, JsonLabelModel::Index(i)));
                        lemma_child_record_append(seq![head], children, index, JsonLabelModel::Index(i));
                    }
                    lemma_value_representation(value);
                } else {
                    assert(children_present(children, child_values, index + 1, q - 1));
                    lemma_present_in_back(seq![head], children, seq![value], child_values, index, q - 1);
                }
            }
        },
        JsonKind::Object => {
            lemma_members_decrease(value);
            let members = value.spec_members();
            let children = member_nodes(
                members,
                path,
                index,
                child_depth(depth),
                index + 1,
                offset + 1,
            );
            let child_values = member_values(members);
            lemma_member_nodes_values(members, path, index, child_depth(depth), index + 1, offset + 1);
            assert(nodes =~= seq![head] + children);
            assert(values =~= seq![value] + child_values);
            assert forall|k: int| 0 <= k < nodes.len() implies #[trigger] record_holds_value(nodes, values, k) by {
                if k > 0 {
                    assert(nodes[k] == children[k - 1]);
                    assert(values[k] == child_values[k - 1]);
                    assert(record_holds_value(children, child_values, k - 1));
                }
            }
            assert forall|k: int| 0 < k < nodes.len() implies #[trigger] record_value_in_subtree(
                nodes,
                values,
                index,
                k,
            ) by {
                assert(nodes[k] == children[k - 1]);
                assert(values[k] == child_values[k - 1]);
                assert(record_value_follows(
                    children,
                    child_values,
                    index,
                    reaches_members(members),
                    index + 1,
                    k - 1,
                ));
                let p = nodes[k].parent->0;
                if p != index {
                    assert(values[p - index] == child_values[p - index - 1]);
                }
            }
            assert forall|q: int| 0 <= q < nodes.len() implies #[trigger] children_present(
                nodes,
                values,
                index,
                q,
            ) by {
                if q == 0 {
                    assert forall|j: int| 0 <= j < values[0].spec_members().len() implies #[trigger] has_child_record(
                        nodes,
                        (index + 0) as nat,
                        JsonLabelModel::Key(values[0].spec_members()[j].spec_key()),
                    ) by {
                        let key_label = JsonLabelModel::Key(members[j].spec_key());
                        assert(has_child_record(children, index, key_label));
                        lemma_child_record_append(seq![head], children, index, key_label);
                    }
                    lemma_value_representation(value);
                } else {
                    assert(children_present(children, child_values, index + 1, q - 1));
                    lemma_present_in_back(seq![head], children, seq![value], child_values, index, q - 1);
                }
            }
        },
        _ => {
            lemma_value_representation(value);
            assert(nodes.len() == 1);
            assert(children_present(nodes, values, index, 0));
            assert(record_holds_value(nodes, values, 0));
        },
    }
}

proof fn lemma_item_nodes_values(
    items: Seq<JsonValue>,
    parent_path: Seq<char>,
    parent: nat,
    depth: nat,
    first: nat,
    offset: nat,
)
    requires
        parent < first,
    ensures
        ({
            let nodes = item_nodes(items, parent_path, parent, depth, first, offset);
            let values = item_values(items);
            &&& nodes.len() == values.len()
            &&& forall|k: int| 0 <= k < nodes.len() ==> #[trigger] record_holds_value(nodes, values, k)
            &&& forall|k: int|
                0 <= k < nodes.len() ==> #[trigger] record_value_follows(
                    nodes,
                    values,
                    parent,
                    reaches_items(items),
                    first,
                    k,
                )
            &&& forall|q: int| 0 <= q < nodes.len() ==> #[trigger] children_present(nodes, values, first, q)
            &&& forall|i: nat| i < items.len() ==> #[trigger] has_child_record(nodes, parent, JsonLabelModel::Index(i))
        }),
    decreases items, 0int,
{
    lemma_item_nodes_len(items, parent_path, parent, depth, first, offset);
    lemma_item_values_len(items);
    if items.len() > 0 {
        let last = (items.len() - 1) as nat;
        let front_items = items.drop_last();
        let front = item_nodes(front_items, parent_path, parent, depth, first, offset);
        let front_values = item_values(front_items);
        let start = first + items_node_count(front_items);
        let position = offset + serialize_items(front_items).len() + if last > 0 {
            1nat
        } else {
            0nat
        };
        let pointer = array_child_pointer(parent_path, last);
        let back = json_nodes(
            items.last(),
            pointer,
            JsonLabelModel::Index(last),
            Some(parent),
            depth,
            start,
            position,
        );
        let back_values = json_values(items.last());
        lemma_item_nodes_values(front_items, parent_path, parent, depth, first, offset);
        lemma_item_nodes_len(front_items, parent_path, parent, depth, first, offset);
        lemma_json_nodes_values(
            items.last(),
            pointer,
            JsonLabelModel::Index(last),
            Some(parent),
            depth,
            start,
            position,
        );
        lemma_json_nodes_depth(
            items.last(),
            pointer,
            JsonLabelModel::Index(last),
            Some(parent),
            depth,
            start,
            position,
        );
        lemma_json_nodes_shape(
            items.last(),
            pointer,
            JsonLabelModel::Index(last),
            Some(parent),
            depth,
            start,
            position,
        );
        let nodes = item_nodes(items, parent_path, parent, depth, first, offset);
        let values = item_values(items);
        assert(nodes =~= front + back);
        assert(values =~= front_values + back_values);
        assert forall|k: int| 0 <= k < nodes.len() implies #[trigger] record_holds_value(nodes, values, k) by {
            if k < front.len() {
                assert(nodes[k] == front[k]);
                assert(values[k] == front_values[k]);
                assert(record_holds_value(front, front_values, k));
            } else {
                assert(nodes[k] == back[k - front.len()]);
                assert(values[k] == back_values[k - front.len()]);
                assert(record_holds_value(back, back_values, k - front.len()));
            }
        }
        assert forall|k: int| 0 <= k < nodes.len() implies #[trigger] record_value_follows(
            nodes,
            values,
            parent,
            reaches_items(items),
            first,
            k,
        ) by {
            if k < front.len() {
                assert(nodes[k] == front[k]);
                assert(values[k] == front_values[k]);
                assert(record_value_follows(
                    front,
                    front_values,
                    parent,
                    reaches_items(front_items),
                    first,
                    k,
                ));
                let p = nodes[k].parent->0;
                if p == parent {
                    assert(reaches_items(front_items)(nodes[k].label, values[k]));
                    assert(item_label_reaches(front_items, nodes[k].label, values[k]));
                    let i = nodes[k].label->Index_0;
                    assert(front_items[i as int] == items[i as int]);
                } else {
                    assert(values[p - first] == front_values[p - first]);
                }
            } else {
                let j = k - front.len();
                assert(nodes[k] == back[j]);
                assert(values[k] == back_values[j]);
                if j > 0 {
                    assert(record_value_in_subtree(back, back_values, start, j));
                    let p = back[j].parent->0;
                    assert(values[p - first] == back_values[p - start]);
                }
            }
        }
        assert forall|q: int| 0 <= q < nodes.len() implies #[trigger] children_present(
            nodes,
            values,
            first,
            q,
        ) by {
            if q < front.len() {
                assert(children_present(front, front_values, first, q));
                lemma_present_in_front(front, back, front_values, back_values, first, q);
            } else {
                assert(children_present(back, back_values, start, q - front.len()));
                lemma_present_in_back(front, back, front_values, back_values, first, q - front.len());
            }
        }
        assert forall|i: nat| i < items.len() implies #[trigger] has_child_record(
            nodes,
            parent,
            JsonLabelModel::Index(i),
        ) by {
            if i < last {
                assert(has_child_record(front, parent, JsonLabelModel::Index(i)));
            } else {
                assert(back[0].parent == Some(parent));
                assert(has_child_record(back, parent, JsonLabelModel::Index(i)));
            }
            lemma_child_record_append(front, back, parent, JsonLabelModel::Index(i));
        }
    }
}

proof fn lemma_member_nodes_values(
    members: Seq<JsonMember>,
    parent_path: Seq<char>,
    parent: nat,
    depth: nat,
    first: nat,
    offset: nat,
)
    requires
        parent < first,
    ensures
        ({
            let nodes = member_nodes(members, parent_path, parent, depth, first, offset);
            let values = member_values(members);
            &&& nodes.len() == values.len()
            &&& forall|k: int| 0 <= k < nodes.len() ==> #[trigger] record_holds_value(nodes, values, k)
            &&& forall|k: int|
                0 <= k < nodes.len() ==> #[trigger] record_value_follows(
                    nodes,
                    values,
                    parent,
                    reaches_members(members),
                    first,
                    k,
                )
            &&& forall|q: int| 0 <= q < nodes.len() ==> #[trigger] children_present(nodes, values, first, q)
            &&& forall|j: int|
                0 <= j < members.len() ==> #[trigger] has_child_record(
                    nodes,
                    parent,
                    JsonLabelModel::Key(members[j].spec_key()),
                )
        }),
    decreases members, 0int,
{
    lemma_member_nodes_len(members, parent_path, parent, depth, first, offset);
    lemma_member_values_len(members);
    if members.len() > 0 {
        lemma_member_value_decreases(members.last());
        let last = (members.len() - 1) as nat;
        let entry = members.last();
        let key = entry.spec_key();
        let front_members = members.drop_last();
        let front = member_nodes(front_members, parent_path, parent, depth, first, offset);
        let front_values = member_values(front_members);
        let start = first + members_node_count(front_members);
        let position = offset + serialize_members(front_members).len() + (if last > 0 {
            1nat
        } else {
            0nat
        }) + quoted_json_string(key).len() + 1;
        let pointer = object_child_pointer(parent_path, key);
        let back = json_nodes(
            entry.spec_value(),
            pointer,
            JsonLabelModel::Key(key),
            Some(parent),
            depth,
            start,
            position,
        );
        let back_values = json_values(entry.spec_value());
        lemma_member_nodes_values(front_members, parent_path, parent, depth, first, offset);
        lemma_member_nodes_len(front_members, parent_path, parent, depth, first, offset);
        lemma_json_nodes_values(
            entry.spec_value(),
            pointer,
            JsonLabelModel::Key(key),
            Some(parent),
            depth,
            start,
            position,
        );
        lemma_json_nodes_depth(
            entry.spec_value(),
            pointer,
            JsonLabelModel::Key(key),
            Some(parent),
            depth,
            start,
            position,
        );
        lemma_json_nodes_shape(
            entry.spec_value(),
            pointer,
            JsonLabelModel::Key(key),
            Some(parent),
            depth,
            start,
            position,
        );
        let nodes = member_nodes(members, parent_path, parent, depth, first, offset);
        let values = member_values(members);
        assert(nodes =~= front + back);
        assert(values =~= front_values + back_values);
        assert forall|k: int| 0 <= k < nodes.len() implies #[trigger] record_holds_value(nodes, values, k) by {
            if k < front.len() {
                assert(nodes[k] == front[k]);
                assert(values[k] == front_values[k]);
                assert(record_holds_value(front, front_values, k));
            } else {
                assert(nodes[k] == back[k - front.len()]);
                assert(values[k] == back_values[k - front.len()]);
                assert(record_holds_value(back, back_values, k - front.len()));
            }
        }
        assert(members[last as int] == entry);
        assert forall|k: int| 0 <= k < nodes.len() implies #[trigger] record_value_follows(
            nodes,
            values,
            parent,
            reaches_members(members),
            first,
            k,
        ) by {
            if k < front.len() {
                assert(nodes[k] == front[k]);
                assert(values[k] == front_values[k]);
                assert(record_value_follows(
                    front,
                    front_values,
                    parent,
                    reaches_members(front_members),
                    first,
                    k,
                ));
                let p = nodes[k].parent->0;
                if p == parent {
                    assert(reaches_members(front_members)(nodes[k].label, values[k]));
                    assert(member_label_reaches(front_members, nodes[k].label, values[k]));
                    let wanted = nodes[k].label->Key_0;
                    let j = choose|j: int|
                        0 <= j < front_members.len() && #[trigger] front_members[j].spec_key() == wanted
                            && front_members[j].spec_value() == values[k];
                    assert(members[j] == front_members[j]);
                } else {
                    assert(values[p - first] == front_values[p - first]);
                }
            } else {
                let j = k - front.len();
                assert(nodes[k] == back[j]);
                assert(values[k] == back_values[j]);
                if j > 0 {
                    assert(record_value_in_subtree(back, back_values, start, j));
                    let p = back[j].parent->0;
                    assert(values[p - first] == back_values[p - start]);
                } else {
                    assert(members[last as int].spec_key() == key);
                }
            }
        }
        assert forall|q: int| 0 <= q < nodes.len() implies #[trigger] children_present(
            nodes,
            values,
            first,
            q,
        ) by {
            if q < front.len() {
                assert(children_present(front, front_values, first, q));
                lemma_present_in_front(front, back, front_values, back_values, first, q);
            } else {
                assert(children_present(back, back_values, start, q - front.len()));
                lemma_present_in_back(front, back, front_values, back_values, first, q - front.len());
            }
        }
        assert forall|j: int| 0 <= j < members.len() implies #[trigger] has_child_record(
            nodes,
            parent,
            JsonLabelModel::Key(members[j].spec_key()),
        ) by {
            let key_label = JsonLabelModel::Key(members[j].spec_key());
            if j < last {
                assert(front_members[j] == members[j]);
                assert(has_child_record(front, parent, key_label));
            } else {
                assert(back[0].parent == Some(parent));
                assert(has_child_record(back, parent, key_label));
            }
            lemma_child_record_append(front, back, parent, key_label);
        }
    }
}

/// The root record holds the root value; each later record holds the value its label reaches
/// from its parent record's value (the element at its index or the value of the member with
/// its key); and every element or member of a record's value has a record under that record.
/// So, with each record covering its value's serialization, an array's or object's record
/// spans the serializations of exactly its child records, comma-joined in brackets or braces
pub proof fn lemma_document_node_children(root: JsonValue)
    ensures
        ({
            let nodes = document_nodes(root);
            let values = json_values(root);
            &&& nodes.len() == values.len()
            &&& values[0] == root
            &&& forall|c: int|
                0 < c < nodes.len() ==> ((#[trigger] nodes[c]).parent matches Some(p) && p < c
                    && label_reaches(values[p as int], nodes[c].label, values[c]))
            &&& forall|p: int| 0 <= p < nodes.len() ==> #[trigger] children_present(nodes, values, 0, p)
        }),
{
    lemma_json_nodes_values(root, Seq::empty(), JsonLabelModel::Root, None, 0, 0, 0);
    let nodes = document_nodes(root);
    let values = json_values(root);
    assert forall|c: int| 0 < c < nodes.len() implies ((#[trigger] nodes[c]).parent matches Some(p)
        && p < c && label_reaches(values[p as int], nodes[c].label, values[c])) by {
        assert(record_value_in_subtree(nodes, values, 0, c));
    }
}

/// Parts joined by commas
pub open spec fn comma_join(parts: Seq<Seq<char>>) -> Seq<char>
    decreases parts.len(),
{
    if parts.len() == 0 {
        Seq::empty()
    } else if parts.len() == 1 {
        parts[0]
    } else {
        comma_join(parts.drop_last()) + seq![','] + parts.last()
    }
}

/// The serializations of ordered values
pub open spec fn item_serializations(items: Seq<JsonValue>) -> Seq<Seq<char>> {
    items.map_values(|item: JsonValue| json_serialization(item))
}

/// The serializations of ordered members
pub open spec fn member_serializations(members: Seq<JsonMember>) -> Seq<Seq<char>> {
    members.map_values(|member: JsonMember| serialize_member(member))
}

proof fn lemma_serialize_items_join(items: Seq<JsonValue>)
    ensures
        serialize_items(items) == comma_join(item_serializations(items)),
    decreases items.len(),
{
    if items.len() > 1 {
        lemma_serialize_items_join(items.drop_last());
        assert(item_serializations(items.drop_last()) =~= item_serializations(items).drop_last());
    }
}

proof fn lemma_serialize_members_join(members: Seq<JsonMember>)
    ensures
        serialize_members(members) == comma_join(member_serializations(members)),
    decreases members.len(),
{
    if members.len() > 1 {
        lemma_serialize_members_join(members.drop_last());
        assert(member_serializations(members.drop_last()) =~= member_serializations(members).drop_last());
    }
}

/// Every value of a value's preorder has unique keys throughout when the value has
proof fn lemma_values_keys_unique(value: JsonValue)
    requires
        keys_unique_throughout(value),
    ensures
        forall|k: int| 0 <= k < json_values(value).len() ==> keys_unique_throughout(#[trigger] json_values(value)[k]),
    decreases value, 1int,
{
    let values = json_values(value);
    match value.spec_kind() {
        JsonKind::Array => {
            lemma_items_decrease(value);
            let rest = item_values(value.spec_items());
            lemma_item_values_keys_unique(value.spec_items());
            assert(values =~= seq![value] + rest);
            assert forall|k: int| 0 <= k < values.len() implies keys_unique_throughout(#[trigger] values[k]) by {
                if k > 0 {
                    assert(values[k] == rest[k - 1]);
                }
            }
        },
        JsonKind::Object => {
            lemma_members_decrease(value);
            let rest = member_values(value.spec_members());
            lemma_member_values_keys_unique(value.spec_members());
            assert(values =~= seq![value] + rest);
            assert forall|k: int| 0 <= k < values.len() implies keys_unique_throughout(#[trigger] values[k]) by {
                if k > 0 {
                    assert(values[k] == rest[k - 1]);
                }
            }
        },
        _ => {},
    }
}

proof fn lemma_item_values_keys_unique(items: Seq<JsonValue>)
    requires
        items_keys_unique(items),
    ensures
        forall|k: int| 0 <= k < item_values(items).len() ==> keys_unique_throughout(#[trigger] item_values(items)[k]),
    decreases items, 0int,
{
    if items.len() > 0 {
        let front = item_values(items.drop_last());
        let back = json_values(items.last());
        lemma_item_values_keys_unique(items.drop_last());
        lemma_values_keys_unique(items.last());
        let all = item_values(items);
        assert(all =~= front + back);
        assert forall|k: int| 0 <= k < all.len() implies keys_unique_throughout(#[trigger] all[k]) by {
            if k < front.len() {
                assert(all[k] == front[k]);
            } else {
                assert(all[k] == back[k - front.len()]);
            }
        }
    }
}

proof fn lemma_member_values_keys_unique(members: Seq<JsonMember>)
    requires
        members_keys_unique(members),
    ensures
        forall|k: int|
            0 <= k < member_values(members).len() ==> keys_unique_throughout(#[trigger] member_values(members)[k]),
    decreases members, 0int,
{
    if members.len() > 0 {
        lemma_member_value_decreases(members.last());
        let front = member_values(members.drop_last());
        let back = json_values(members.last().spec_value());
        lemma_member_values_keys_unique(members.drop_last());
        lemma_values_keys_unique(members.last().spec_value());
        let all = member_values(members);
        assert(all =~= front + back);
        assert forall|k: int| 0 <= k < all.len() implies keys_unique_throughout(#[trigger] all[k]) by {
            if k < front.len() {
                assert(all[k] == front[k]);
            } else {
                assert(all[k] == back[k - front.len()]);
            }
        }
    }
}

/// The text a record spans
pub open spec fn record_text(nodes: Seq<JsonNodeModel>, text: Seq<char>, k: int) -> Seq<char> {
    text.subrange(nodes[k].start as int, nodes[k].end as int)
}

/// The record under record `parent` reached by `label`
pub open spec fn child_record(nodes: Seq<JsonNodeModel>, parent: nat, label: JsonLabelModel) -> int {
    choose|c: int|
        0 <= c < nodes.len() && (#[trigger] nodes[c]).parent == Some(parent) && nodes[c].label
            == label
}

/// The texts of the child records of an array record, in element order
pub open spec fn item_record_texts(nodes: Seq<JsonNodeModel>, text: Seq<char>, parent: nat, count: nat) -> Seq<Seq<char>> {
    Seq::new(count, |i: int| record_text(nodes, text, child_record(nodes, parent, JsonLabelModel::Index(i as nat))))
}

/// The texts of the child records of an object record, each behind its quoted key and a
/// colon, in member order
pub open spec fn member_record_texts(
    nodes: Seq<JsonNodeModel>,
    text: Seq<char>,
    parent: nat,
    members: Seq<JsonMember>,
) -> Seq<Seq<char>> {
    Seq::new(
        members.len(),
        |j: int|
            quoted_json_string(members[j].spec_key()) + seq![':'] + record_text(
                nodes,
                text,
                child_record(nodes, parent, JsonLabelModel::Key(members[j].spec_key())),
            ),
    )
}

/// In a document whose objects have unique keys, the serialization an array's record spans is
/// its child records' serializations, in element order, comma-joined inside brackets; an
/// object's is its child records' serializations, each behind its quoted key and a colon, in
/// member order, comma-joined inside braces; and the root record spans the whole document
pub proof fn lemma_document_node_joins(root: JsonValue)
    requires
        keys_unique_throughout(root),
    ensures
        ({
            let nodes = document_nodes(root);
            let values = json_values(root);
            let text = json_serialization(root);
            &&& record_text(nodes, text, 0) == text
            &&& forall|p: int|
                0 <= p < nodes.len() && (#[trigger] nodes[p]).kind == JsonKind::Array ==> record_text(
                    nodes,
                    text,
                    p,
                ) == seq!['['] + comma_join(
                    item_record_texts(nodes, text, p as nat, nodes[p].child_count),
                ) + seq![']']
            &&& forall|p: int|
                0 <= p < nodes.len() && (#[trigger] nodes[p]).kind == JsonKind::Object ==> record_text(
                    nodes,
                    text,
                    p,
                ) == seq!['{'] + comma_join(
                    member_record_texts(nodes, text, p as nat, values[p].spec_members()),
                ) + seq!['}']
        }),
{
    let nodes = document_nodes(root);
    let values = json_values(root);
    let text = json_serialization(root);
    lemma_document_node_serializations(root);
    lemma_document_node_children(root);
    lemma_values_keys_unique(root);
    lemma_json_nodes_within(root, Seq::empty(), JsonLabelModel::Root, None, 0, 0, 0);
    assert(nodes[0].start == 0);
    assert(record_text(nodes, text, 0) =~= text);
    assert forall|p: int|
        0 <= p < nodes.len() && (#[trigger] nodes[p]).kind == JsonKind::Array implies record_text(
        nodes,
        text,
        p,
    ) == seq!['['] + comma_join(item_record_texts(nodes, text, p as nat, nodes[p].child_count))
        + seq![']'] by {
        lemma_json_nodes_values(root, Seq::empty(), JsonLabelModel::Root, None, 0, 0, 0);
        assert(record_holds_value(nodes, values, p));
        let value = values[p];
        let items = value.spec_items();
        assert(children_present(nodes, values, 0, p));
        lemma_serialize_items_join(items);
        let texts = item_record_texts(nodes, text, p as nat, nodes[p].child_count);
        assert forall|i: int| 0 <= i < items.len() implies texts[i] == item_serializations(items)[i] by {
            assert(has_child_record(nodes, (0 + p) as nat, JsonLabelModel::Index(i as nat)));
            let c = child_record(nodes, p as nat, JsonLabelModel::Index(i as nat));
            assert(nodes[c].parent == Some(p as nat));
            assert(nodes[c].label == JsonLabelModel::Index(i as nat));
            assert(c > 0) by {
                if c == 0 {
                    lemma_document_nodes_shape(root);
                }
            }
            assert((nodes[c]).parent matches Some(q) && q < c && label_reaches(values[q as int], nodes[c].label, values[c]));
        }
        assert(texts =~= item_serializations(items));
    }
    assert forall|p: int|
        0 <= p < nodes.len() && (#[trigger] nodes[p]).kind == JsonKind::Object implies record_text(
        nodes,
        text,
        p,
    ) == seq!['{'] + comma_join(member_record_texts(nodes, text, p as nat, values[p].spec_members()))
        + seq!['}'] by {
        lemma_json_nodes_values(root, Seq::empty(), JsonLabelModel::Root, None, 0, 0, 0);
        assert(record_holds_value(nodes, values, p));
        let value = values[p];
        let members = value.spec_members();
        assert(children_present(nodes, values, 0, p));
        lemma_serialize_members_join(members);
        assert(keys_unique_throughout(values[p]));
        let texts = member_record_texts(nodes, text, p as nat, members);
        assert forall|j: int| 0 <= j < members.len() implies texts[j] == member_serializations(members)[j] by {
            let key = members[j].spec_key();
            assert(has_child_record(nodes, (0 + p) as nat, JsonLabelModel::Key(key)));
            let c = child_record(nodes, p as nat, JsonLabelModel::Key(key));
            assert(nodes[c].parent == Some(p as nat));
            assert(nodes[c].label == JsonLabelModel::Key(key));
            assert(c > 0) by {
                if c == 0 {
                    lemma_document_nodes_shape(root);
                }
            }
            assert((nodes[c]).parent matches Some(q) && q < c && label_reaches(values[q as int], nodes[c].label, values[c]));
            let other = choose|other: int|
                0 <= other < members.len() && #[trigger] members[other].spec_key() == key
                    && members[other].spec_value() == values[c];
            if other != j {
                if other < j {
                    assert(repeats_earlier_key(members, j));
                } else {
                    assert(members[j].spec_key() == members[other].spec_key());
                    assert(repeats_earlier_key(members, other));
                }
            }
        }
        assert(texts =~= member_serializations(members));
    }
}

// ---------------------------------------------------------------------------
// Documents
// ---------------------------------------------------------------------------

#[derive(Debug)]
struct JsonDocumentData {
    serialized: String,
    serialized_chars: usize,
    nodes: Vec<JsonDocumentNode>,
    root: JsonValue,
}

impl JsonDocumentData {
    #[verifier::type_invariant]
    spec fn consistent(self) -> bool {
        &&& self.serialized@ == json_serialization(self.root)
        &&& self.serialized_chars == self.serialized@.len()
        &&& node_models(self.nodes@) == document_nodes(self.root)
        &&& keys_unique_throughout(self.root)
    }
}

/// Immutable indexed JSON document with deterministic compact serialization; clones
/// share storage
#[derive(Debug)]
pub struct JsonDocument {
    inner: Arc<JsonDocumentData>,
}

impl JsonDocument {
    /// The indexed root value
    pub closed spec fn spec_root(self) -> JsonValue {
        self.inner.root
    }

    /// The preorder records of the document
    pub open spec fn spec_nodes(self) -> Seq<JsonNodeModel> {
        document_nodes(self.spec_root())
    }

    /// Builds a document after validating all configured resource limits
    pub fn with_limits(root: JsonValue, limits: JsonDocumentLimits) -> (result: Result<
        Self,
        JsonDocumentError,
    >)
        ensures
            match check_json_document(root, limits) {
                Ok(_) => result matches Ok(document) && document.spec_root() == root,
                Err(error) => result matches Err(e) && e == error,
            },
            keys_unique_throughout(root),
    {
        proof {
            use_type_invariant(&root);
        }
        match validate_document(&root, limits) {
            Err(error) => {
                return Err(error);
            },
            Ok(()) => {},
        }
        let mut serialized = String::new();
        let mut written: usize = 0;
        let mut nodes: Vec<JsonDocumentNode> = Vec::new();
        proof {
            assert(node_models(nodes@) =~= Seq::<JsonNodeModel>::empty());
        }
        build_document_node(
            &root,
            JsonNodeLabel::Root,
            None,
            0,
            JsonPointer::root(),
            &mut serialized,
            &mut written,
            &mut nodes,
        );
        proof {
            assert(serialized@ =~= json_serialization(root));
            assert(node_models(nodes@) =~= document_nodes(root));
        }
        let data = JsonDocumentData {
            serialized,
            serialized_chars: written,
            nodes,
            root,
        };
        Ok(JsonDocument { inner: Arc::new(data) })
    }

    /// Builds a document using bounded default limits
    pub fn new(root: JsonValue) -> (result: Result<Self, JsonDocumentError>)
        ensures
            match check_json_document(root, JsonDocumentLimits::spec_default()) {
                Ok(_) => result matches Ok(document) && document.spec_root() == root,
                Err(error) => result matches Err(e) && e == error,
            },
            keys_unique_throughout(root),
    {
        Self::with_limits(root, JsonDocumentLimits::default())
    }

    /// Returns the complete deterministic compact JSON serialization
    pub fn serialized(&self) -> (serialized: &str)
        ensures
            serialized@ == json_serialization(self.spec_root()),
    {
        proof {
            use_type_invariant(&*self.inner);
        }
        self.inner.serialized.as_str()
    }

    /// Returns the number of indexed JSON values
    pub fn len(&self) -> (count: usize)
        ensures
            count == self.spec_nodes().len(),
            count == json_node_count(self.spec_root()),
    {
        proof {
            use_type_invariant(&*self.inner);
            lemma_json_nodes_len(self.spec_root(), Seq::empty(), JsonLabelModel::Root, None, 0, 0, 0);
        }
        self.inner.nodes.len()
    }

    /// Reports whether this document contains no indexed value; a valid document always
    /// contains its root
    pub fn is_empty(&self) -> (empty: bool)
        ensures
            empty == (self.spec_nodes().len() == 0),
            !empty,
    {
        proof {
            use_type_invariant(&*self.inner);
            lemma_json_nodes_len(self.spec_root(), Seq::empty(), JsonLabelModel::Root, None, 0, 0, 0);
        }
        self.inner.nodes.len() == 0
    }

    /// Returns the root JSON value's record
    pub fn root(&self) -> (node: JsonNode<'_>)
        ensures
            node.spec_document() == *self,
            node.spec_index() == 0,
    {
        proof {
            use_type_invariant(&*self.inner);
            lemma_json_nodes_len(self.spec_root(), Seq::empty(), JsonLabelModel::Root, None, 0, 0, 0);
        }
        JsonNode { document: self, index: 0 }
    }

    /// Finds the record whose path is `pointer`; no two records share a path
    pub fn index_of(&self, pointer: &JsonPointer) -> (index: Option<usize>)
        ensures
            index matches Some(i) ==> i < self.spec_nodes().len() && self.spec_nodes()[i as int].path
                == pointer@ && forall|k: int| 0 <= k < i ==> self.spec_nodes()[k].path != pointer@,
            index is None ==> forall|k: int|
                0 <= k < self.spec_nodes().len() ==> self.spec_nodes()[k].path != pointer@,
            forall|k: int|
                0 <= k < self.spec_nodes().len() && self.spec_nodes()[k].path == pointer@ ==> (index
                    matches Some(i) && i == k),
    {
        proof {
            use_type_invariant(&*self.inner);
            lemma_document_paths_distinct(self.spec_root());
        }
        let nodes = &self.inner.nodes;
        let ghost models = node_models(nodes@);
        let mut index: usize = 0;
        while index < nodes.len()
            invariant
                0 <= index <= nodes@.len(),
                models == node_models(nodes@),
                models == self.spec_nodes(),
                paths_distinct(models),
                forall|k: int| 0 <= k < index ==> models[k].path != pointer@,
            decreases nodes@.len() - index,
        {
            assert(models[index as int] == nodes@[index as int]@);
            if nodes[index].path.same_path(pointer) {
                proof {
                    assert forall|k: int|
                        0 <= k < models.len() && models[k].path == pointer@ implies k == index by {
                        if k != index {
                            assert(models[k].path != models[index as int].path);
                        }
                    }
                }
                return Some(index);
            }
            index = index + 1;
        }
        None
    }

    /// Looks up one value by complete JSON Pointer: the record whose path is `pointer`
    pub fn get(&self, pointer: &JsonPointer) -> (node: Option<JsonNode<'_>>)
        ensures
            node matches Some(n) ==> n.spec_document() == *self && self.spec_nodes()[n.spec_index()
                as int].path == pointer@ && forall|k: int|
                0 <= k < n.spec_index() ==> self.spec_nodes()[k].path != pointer@,
            node is None ==> forall|k: int|
                0 <= k < self.spec_nodes().len() ==> self.spec_nodes()[k].path != pointer@,
            forall|k: int|
                0 <= k < self.spec_nodes().len() && self.spec_nodes()[k].path == pointer@ ==> (node
                    matches Some(n) && n.spec_index() == k),
    {
        match self.index_of(pointer) {
            Some(index) => Some(JsonNode { document: self, index }),
            None => None,
        }
    }

    /// Returns the record at a preorder index
    pub fn node_at(&self, index: usize) -> (node: JsonNode<'_>)
        requires
            index < self.spec_nodes().len(),
        ensures
            node.spec_document() == *self,
            node.spec_index() == index,
    {
        JsonNode { document: self, index }
    }

    /// Iterates every value in deterministic preorder
    pub fn nodes(&self) -> (nodes: JsonNodes<'_>)
        ensures
            nodes.spec_document() == *self,
            nodes.spec_next() == 0,
    {
        JsonNodes { document: self, next: 0 }
    }

    pub(crate) fn record(&self, index: usize) -> (record: &JsonDocumentNode)
        requires
            index < self.spec_nodes().len(),
        ensures
            record@ == self.spec_nodes()[index as int],
    {
        proof {
            use_type_invariant(&*self.inner);
        }
        &self.inner.nodes[index]
    }

    /// Reports whether two documents share one storage allocation
    pub fn shares_storage(&self, other: &Self) -> (shared: bool)
        ensures
            shared ==> self.spec_root() == other.spec_root(),
    {
        same_allocation(&self.inner, &other.inner)
    }
}

impl Clone for JsonDocument {
    fn clone(&self) -> (copy: Self)
        ensures
            copy == *self,
    {
        JsonDocument { inner: share(&self.inner) }
    }
}

/// Borrowed read-only view of one indexed JSON value
#[derive(Clone, Copy)]
pub struct JsonNode<'document> {
    document: &'document JsonDocument,
    index: usize,
}

impl<'document> JsonNode<'document> {
    #[verifier::type_invariant]
    spec fn in_document(self) -> bool {
        self.index < self.document.spec_nodes().len()
    }

    /// The document holding the value
    pub closed spec fn spec_document(self) -> JsonDocument {
        *self.document
    }

    /// The preorder index of the value
    pub closed spec fn spec_index(self) -> nat {
        self.index as nat
    }

    /// The record of the value
    pub open spec fn spec_model(self) -> JsonNodeModel {
        self.spec_document().spec_nodes()[self.spec_index() as int]
    }

    fn record(self) -> (record: &'document JsonDocumentNode)
        ensures
            record@ == self.spec_model(),
    {
        proof {
            use_type_invariant(self);
        }
        self.document.record(self.index)
    }

    /// Returns the value category
    pub fn kind(self) -> (kind: JsonKind)
        ensures
            kind == self.spec_model().kind,
    {
        self.record().kind
    }

    /// Returns the stable complete JSON Pointer
    pub fn path(self) -> (path: &'document JsonPointer)
        ensures
            path@ == self.spec_model().path,
    {
        &self.record().path
    }

    /// Returns the zero-based value depth
    pub fn depth(self) -> (depth: u32)
        ensures
            depth == self.spec_model().depth,
    {
        self.record().depth
    }

    /// Returns the direct child count
    pub fn child_count(self) -> (count: usize)
        ensures
            count == self.spec_model().child_count,
    {
        self.record().child_count
    }

    /// Returns this member's object key, if present
    pub fn key(self) -> (key: Option<&'document str>)
        ensures
            key matches Some(k) ==> self.spec_model().label == JsonLabelModel::Key(k@),
            key is None ==> !(self.spec_model().label is Key),
    {
        match &self.record().label {
            JsonNodeLabel::ObjectKey(key) => Some(key.as_str()),
            _ => None,
        }
    }

    /// Returns this element's array index, if present
    pub fn array_index(self) -> (index: Option<usize>)
        ensures
            index matches Some(i) ==> self.spec_model().label == JsonLabelModel::Index(i as nat),
            index is None ==> !(self.spec_model().label is Index),
    {
        match &self.record().label {
            JsonNodeLabel::ArrayIndex(index) => Some(*index),
            _ => None,
        }
    }

    /// Returns the complete compact JSON serialization of this value
    pub fn serialized(self) -> (serialized: &'document str)
        ensures
            serialized@ == json_serialization(self.spec_document().spec_root()).subrange(
                self.spec_model().start as int,
                self.spec_model().end as int,
            ),
    {
        proof {
            use_type_invariant(self);
            use_type_invariant(&*self.document.inner);
            let root = self.spec_document().spec_root();
            lemma_json_nodes_within(root, Seq::empty(), JsonLabelModel::Root, None, 0, 0, 0);
            assert(document_nodes(root)[self.index as int] == self.spec_model());
        }
        let record = self.record();
        let text = self.document.inner.serialized.as_str();
        text.substring_char(record.serialized_start, record.serialized_end)
    }
}

/// Preorder cursor over one immutable JSON document
pub struct JsonNodes<'document> {
    document: &'document JsonDocument,
    next: usize,
}

impl<'document> JsonNodes<'document> {
    /// The document being walked
    pub closed spec fn spec_document(self) -> JsonDocument {
        *self.document
    }

    /// The preorder index of the next value
    pub closed spec fn spec_next(self) -> nat {
        self.next as nat
    }

    /// Returns the next value in preorder, or nothing once every value was returned
    pub fn next(&mut self) -> (node: Option<JsonNode<'document>>)
        ensures
            final(self).spec_document() == old(self).spec_document(),
            old(self).spec_next() < old(self).spec_document().spec_nodes().len() ==> (node matches Some(
                n,
            ) && n.spec_document() == old(self).spec_document() && n.spec_index() == old(
                self,
            ).spec_next() && final(self).spec_next() == old(self).spec_next() + 1),
            old(self).spec_next() >= old(self).spec_document().spec_nodes().len() ==> (node is None
                && final(self).spec_next() == old(self).spec_next()),
    {
        if self.next >= self.document.len() {
            return None;
        }
        let node = self.document.node_at(self.next);
        self.next = self.next + 1;
        Some(node)
    }

    /// Returns how many values are still to come
    pub fn len(&self) -> (remaining: usize)
        ensures
            remaining == if self.spec_next() < self.spec_document().spec_nodes().len() {
                self.spec_document().spec_nodes().len() - self.spec_next()
            } else {
                0
            },
    {
        let total = self.document.len();
        if self.next < total {
            total - self.next
        } else {
            0
        }
    }
}

} // verus!
