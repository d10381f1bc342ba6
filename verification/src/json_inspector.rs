use std::sync::Arc;

use vstd::prelude::*;

use crate::event::{InputEvent, KeyAction, KeyCode, Modifiers};
use crate::json::{JsonKind, JsonPointer};
use crate::json_document::{escape_json_chars, json_serialization, push_escaped_char};
use crate::json_nodes::{
    JsonDocument, JsonLabelModel, JsonNodeLabel, JsonNodeModel,
    lemma_document_nodes_shape, lemma_record_fields,
};
use crate::text::{decimal_text, push_decimal_u64, spaces};
use crate::list::text_bytes;
use crate::text::{same_allocation, share};

verus! {

broadcast use vstd::string::group_string_axioms;

// ---------------------------------------------------------------------------
// Lexical order of pointers
// ---------------------------------------------------------------------------

/// `first` sorts before `second` byte by byte, a proper prefix sorting first
pub open spec fn bytes_precede(first: Seq<u8>, second: Seq<u8>) -> bool {
    exists|k: int|
        0 <= k <= first.len() && k <= second.len() && first.take(k) == second.take(k) && ((k
            < first.len() && k < second.len() && first[k] < second[k]) || (k == first.len() && k
            < second.len()))
}

/// Pointer text `first` sorts before `second`
pub open spec fn path_precedes(first: Seq<char>, second: Seq<char>) -> bool {
    bytes_precede(text_bytes(first), text_bytes(second))
}

/// Pointers strictly increasing in lexical order, so none occurs twice
pub open spec fn is_sorted_paths(paths: Seq<Seq<char>>) -> bool {
    forall|first: int, second: int|
        0 <= first < second < paths.len() ==> path_precedes(
            #[trigger] paths[first],
            #[trigger] paths[second],
        )
}

/// Different byte strings are ordered one way or the other
proof fn lemma_bytes_total(first: Seq<u8>, second: Seq<u8>)
    requires
        first != second,
    ensures
        bytes_precede(first, second) || bytes_precede(second, first),
{
    let shorter = if first.len() < second.len() {
        first.len() as int
    } else {
        second.len() as int
    };
    if forall|i: int| 0 <= i < shorter ==> first[i] == second[i] {
        assert(first.take(shorter) =~= second.take(shorter));
        if first.len() == second.len() {
            assert(first =~= second);
        }
    } else {
        assert(exists|i: int| 0 <= i < shorter && first[i] != second[i]);
        let witness = choose|i: int| 0 <= i < shorter && first[i] != second[i];
        lemma_first_difference(first, second, witness);
        let k = choose|i: int| 0 <= i <= witness && first[i] != second[i] && forall|j: int|
            0 <= j < i ==> first[j] == second[j];
        assert(first.take(k) =~= second.take(k));
    }
}

/// Below a known difference there is a first one
proof fn lemma_first_difference(first: Seq<u8>, second: Seq<u8>, bound: int)
    requires
        0 <= bound < first.len(),
        bound < second.len(),
        first[bound] != second[bound],
    ensures
        exists|i: int| 0 <= i <= bound && first[i] != second[i] && forall|j: int|
            0 <= j < i ==> first[j] == second[j],
    decreases bound,
{
    if exists|j: int| 0 <= j < bound && first[j] != second[j] {
        let j = choose|j: int| 0 <= j < bound && first[j] != second[j];
        lemma_first_difference(first, second, j);
    } else {
        assert(forall|j: int| 0 <= j < bound ==> first[j] == second[j]);
    }
}

/// The order is transitive
proof fn lemma_bytes_transitive(first: Seq<u8>, second: Seq<u8>, third: Seq<u8>)
    requires
        bytes_precede(first, second),
        bytes_precede(second, third),
    ensures
        bytes_precede(first, third),
{
    let a = choose|k: int|
        0 <= k <= first.len() && k <= second.len() && first.take(k) == second.take(k) && ((k
            < first.len() && k < second.len() && first[k] < second[k]) || (k == first.len() && k
            < second.len()));
    let b = choose|k: int|
        0 <= k <= second.len() && k <= third.len() && second.take(k) == third.take(k) && ((k
            < second.len() && k < third.len() && second[k] < third[k]) || (k == second.len() && k
            < third.len()));
    let k = if a < b {
        a
    } else {
        b
    };
    assert(forall|i: int| 0 <= i < a ==> first[i] == #[trigger] second[i]) by {
        assert forall|i: int| 0 <= i < a implies first[i] == #[trigger] second[i] by {
            assert(first.take(a)[i] == second.take(a)[i]);
        }
    }
    assert(forall|i: int| 0 <= i < b ==> second[i] == #[trigger] third[i]) by {
        assert forall|i: int| 0 <= i < b implies second[i] == #[trigger] third[i] by {
            assert(second.take(b)[i] == third.take(b)[i]);
        }
    }
    assert(first.take(k) =~= third.take(k));
}

/// The order is irreflexive
proof fn lemma_bytes_irreflexive(bytes: Seq<u8>)
    ensures
        !bytes_precede(bytes, bytes),
{
}

fn path_before(first: &JsonPointer, second: &JsonPointer) -> (before: bool)
    ensures
        before == path_precedes(first@, second@),
{
    let a = first.as_str().as_bytes();
    let b = second.as_str().as_bytes();
    let ghost x = text_bytes(first@);
    let ghost y = text_bytes(second@);
    let mut index: usize = 0;
    while index < a.len() && index < b.len()
        invariant
            a@ == x,
            b@ == y,
            x == text_bytes(first@),
            y == text_bytes(second@),
            0 <= index <= a@.len(),
            index <= b@.len(),
            forall|j: int| 0 <= j < index ==> a@[j] == b@[j],
        decreases a@.len() - index,
    {
        if a[index] != b[index] {
            let ghost k = index as int;
            assert(x.take(k) =~= y.take(k));
            if a[index] < b[index] {
                assert(0 <= k <= x.len() && k <= y.len() && x.take(k) == y.take(k) && ((k < x.len()
                    && k < y.len() && x[k] < y[k]) || (k == x.len() && k < y.len())));
                return true;
            } else {
                assert(0 <= k <= y.len() && k <= x.len() && y.take(k) == x.take(k) && ((k < y.len()
                    && k < x.len() && y[k] < x[k]) || (k == y.len() && k < x.len())));
                proof {
                    lemma_bytes_antisymmetric(y, x);
                }
                return false;
            }
        }
        index = index + 1;
    }
    let ghost k = index as int;
    assert(x.take(k) =~= y.take(k));
    if index == a.len() && index < b.len() {
        assert(0 <= k <= x.len() && k <= y.len() && x.take(k) == y.take(k) && ((k < x.len() && k
            < y.len() && x[k] < y[k]) || (k == x.len() && k < y.len())));
        true
    } else {
        proof {
            if index == a.len() && index == b.len() {
                assert(x =~= y);
                lemma_bytes_irreflexive(x);
            } else {
                assert(0 <= k <= y.len() && k <= x.len() && y.take(k) == x.take(k) && ((k < y.len()
                    && k < x.len() && y[k] < x[k]) || (k == y.len() && k < x.len())));
                lemma_bytes_antisymmetric(y, x);
            }
        }
        false
    }
}

/// At most one of two byte strings sorts before the other
proof fn lemma_bytes_antisymmetric(first: Seq<u8>, second: Seq<u8>)
    requires
        bytes_precede(first, second),
    ensures
        !bytes_precede(second, first),
{
    if bytes_precede(second, first) {
        lemma_bytes_transitive(first, second, first);
        lemma_bytes_irreflexive(first);
    }
}

/// Pointer views that are equal have equal bytes and conversely
proof fn lemma_text_bytes_injective(first: Seq<char>, second: Seq<char>)
    requires
        text_bytes(first) == text_bytes(second),
    ensures
        first == second,
{
    vstd::utf8::encode_utf8_decode_utf8(first);
    vstd::utf8::encode_utf8_decode_utf8(second);
}

// ---------------------------------------------------------------------------
// State
// ---------------------------------------------------------------------------

/// Application-owned selection and expanded branch identities; clones share the expansion
#[derive(Debug)]
pub struct JsonInspectorState {
    selected: JsonPointer,
    expanded: Arc<Vec<JsonPointer>>,
}

/// The texts of pointers
pub open spec fn pointer_paths(pointers: Seq<JsonPointer>) -> Seq<Seq<char>> {
    pointers.map_values(|pointer: JsonPointer| pointer@)
}

impl View for JsonInspectorState {
    type V = (Seq<char>, Seq<Seq<char>>);

    closed spec fn view(&self) -> (Seq<char>, Seq<Seq<char>>) {
        (self.selected@, pointer_paths((*self.expanded)@))
    }
}

fn duplicate_pointers(pointers: &Vec<JsonPointer>) -> (copy: Vec<JsonPointer>)
    ensures
        pointer_paths(copy@) == pointer_paths(pointers@),
{
    let mut copy: Vec<JsonPointer> = Vec::new();
    let mut index: usize = 0;
    while index < pointers.len()
        invariant
            0 <= index <= pointers@.len(),
            copy@.len() == index,
            forall|k: int| 0 <= k < index ==> (#[trigger] copy@[k])@ == pointers@[k]@,
        decreases pointers@.len() - index,
    {
        copy.push(pointers[index].duplicate());
        index = index + 1;
    }
    assert(pointer_paths(copy@) =~= pointer_paths(pointers@));
    copy
}

fn contains_pointer(pointers: &Vec<JsonPointer>, pointer: &JsonPointer) -> (found: bool)
    ensures
        found == pointer_paths(pointers@).contains(pointer@),
{
    let ghost paths = pointer_paths(pointers@);
    let mut index: usize = 0;
    while index < pointers.len()
        invariant
            0 <= index <= pointers@.len(),
            paths == pointer_paths(pointers@),
            forall|k: int| 0 <= k < index ==> paths[k] != pointer@,
        decreases pointers@.len() - index,
    {
        if pointers[index].same_path(pointer) {
            assert(paths[index as int] == pointer@);
            return true;
        }
        index = index + 1;
    }
    false
}

/// Appending a pointer appends its text
proof fn lemma_paths_push(pointers: Seq<JsonPointer>, pointer: JsonPointer)
    ensures
        pointer_paths(pointers.push(pointer)) == pointer_paths(pointers).push(pointer@),
{
    assert(pointer_paths(pointers.push(pointer)) =~= pointer_paths(pointers).push(pointer@));
}

fn push_pointer(result: &mut Vec<JsonPointer>, pointer: &JsonPointer)
    ensures
        pointer_paths(final(result)@) == pointer_paths(old(result)@).push(pointer@),
{
    let copy = pointer.duplicate();
    let ghost before = result@;
    result.push(copy);
    proof {
        lemma_paths_push(before, copy);
    }
}

fn inserted_sorted(pointers: &Vec<JsonPointer>, pointer: &JsonPointer) -> (result: Vec<JsonPointer>)
    requires
        is_sorted_paths(pointer_paths(pointers@)),
    ensures
        is_sorted_paths(pointer_paths(result@)),
        pointer_paths(result@).to_set() == pointer_paths(pointers@).to_set().insert(pointer@),
{
    let ghost paths = pointer_paths(pointers@);
    let mut result: Vec<JsonPointer> = Vec::new();
    proof {
        assert(pointer_paths(result@) =~= paths.take(0));
    }
    let mut index: usize = 0;
    while index < pointers.len() && path_before(&pointers[index], pointer)
        invariant
            0 <= index <= pointers@.len(),
            paths == pointer_paths(pointers@),
            is_sorted_paths(paths),
            pointer_paths(result@) == paths.take(index as int),
            forall|k: int| 0 <= k < index ==> path_precedes(#[trigger] paths[k], pointer@),
        decreases pointers@.len() - index,
    {
        assert(paths[index as int] == pointers@[index as int]@);
        push_pointer(&mut result, &pointers[index]);
        proof {
            assert(paths.take(index as int).push(paths[index as int]) =~= paths.take(index + 1));
        }
        index = index + 1;
    }
    let at = index;
    let present = index < pointers.len() && pointers[index].same_path(pointer);
    if !present {
        push_pointer(&mut result, pointer);
    }
    let ghost middle = pointer_paths(result@);
    while index < pointers.len()
        invariant
            at <= index <= pointers@.len(),
            paths == pointer_paths(pointers@),
            pointer_paths(result@) == middle + paths.subrange(at as int, index as int),
        decreases pointers@.len() - index,
    {
        assert(paths[index as int] == pointers@[index as int]@);
        push_pointer(&mut result, &pointers[index]);
        proof {
            assert(middle + paths.subrange(at as int, index as int) + seq![paths[index as int]]
                =~= middle + paths.subrange(at as int, index + 1));
            assert(pointer_paths(result@) =~= middle + paths.subrange(at as int, index + 1));
        }
        index = index + 1;
    }
    proof {
        let output = pointer_paths(result@);
        let start = at as int;
        if present {
            assert(paths[start] == pointer@);
            assert(output =~= paths);
            assert(paths.contains(pointer@));
            assert(output.to_set() =~= paths.to_set().insert(pointer@));
        } else {
            assert(output =~= paths.take(start) + seq![pointer@] + paths.subrange(
                start,
                paths.len() as int,
            ));
            assert forall|j: int| start <= j < paths.len() implies path_precedes(
                pointer@,
                #[trigger] paths[j],
            ) by {
                let next = paths[start];
                assert(next != pointer@);
                if text_bytes(next) == text_bytes(pointer@) {
                    lemma_text_bytes_injective(next, pointer@);
                }
                lemma_bytes_total(text_bytes(next), text_bytes(pointer@));
                if j > start {
                    lemma_bytes_transitive(
                        text_bytes(pointer@),
                        text_bytes(next),
                        text_bytes(paths[j]),
                    );
                }
            }
            assert forall|first: int, second: int|
                0 <= first < second < output.len() implies path_precedes(
                #[trigger] output[first],
                #[trigger] output[second],
            ) by {
                if second < start {
                    assert(output[first] == paths[first] && output[second] == paths[second]);
                } else if second == start {
                    assert(output[first] == paths[first]);
                } else if first == start {
                    assert(output[second] == paths[second - 1]);
                } else if first < start {
                    assert(output[first] == paths[first] && output[second] == paths[second - 1]);
                    lemma_bytes_transitive(
                        text_bytes(paths[first]),
                        text_bytes(pointer@),
                        text_bytes(paths[second - 1]),
                    );
                } else {
                    assert(output[first] == paths[first - 1] && output[second] == paths[second - 1]);
                }
            }
            assert forall|item: Seq<char>| output.contains(item) <==> paths.to_set().insert(
                pointer@,
            ).contains(item) by {
                if output.contains(item) {
                    let i = choose|i: int| 0 <= i < output.len() && output[i] == item;
                    if i < start {
                        assert(paths[i] == item);
                    } else if i > start {
                        assert(paths[i - 1] == item);
                    }
                }
                if paths.contains(item) {
                    let i = choose|i: int| 0 <= i < paths.len() && paths[i] == item;
                    if i < start {
                        assert(output[i] == item);
                    } else {
                        assert(output[i + 1] == item);
                    }
                }
                if item == pointer@ {
                    assert(output[start] == item);
                }
            }
            assert(output.to_set() =~= paths.to_set().insert(pointer@));
        }
    }
    result
}

/// The pointers of `paths` other than `removed`, in order
pub open spec fn without_path(paths: Seq<Seq<char>>, removed: Seq<char>) -> Seq<Seq<char>>
    decreases paths.len(),
{
    if paths.len() == 0 {
        Seq::empty()
    } else if paths.last() == removed {
        without_path(paths.drop_last(), removed)
    } else {
        without_path(paths.drop_last(), removed).push(paths.last())
    }
}

/// Dropping a pointer keeps every other pointer and keeps the order
proof fn lemma_without_path(paths: Seq<Seq<char>>, removed: Seq<char>)
    ensures
        without_path(paths, removed).to_set() == paths.to_set().remove(removed),
        forall|item: Seq<char>| #[trigger] without_path(paths, removed).contains(item) ==> paths.contains(item),
        is_sorted_paths(paths) ==> is_sorted_paths(without_path(paths, removed)),
    decreases paths.len(),
{
    if paths.len() == 0 {
        assert(paths.to_set() =~= Set::<Seq<char>>::empty());
        assert(without_path(paths, removed).to_set() =~= Set::<Seq<char>>::empty());
    } else {
        let front = paths.drop_last();
        let last = paths.last();
        lemma_without_path(front, removed);
        assert(paths =~= front.push(last));
        front.lemma_push_to_set_commute(last);
        let rest = without_path(front, removed);
        if last != removed {
            rest.lemma_push_to_set_commute(last);
        }
        assert(without_path(paths, removed).to_set() =~= paths.to_set().remove(removed));
        assert forall|item: Seq<char>| #[trigger] without_path(paths, removed).contains(item) implies paths.contains(item) by {
            if rest.contains(item) {
                assert(front.contains(item));
                let i = choose|i: int| 0 <= i < front.len() && front[i] == item;
                assert(paths[i] == item);
            } else {
                assert(item == last);
                assert(paths[paths.len() - 1] == item);
            }
        }
        if is_sorted_paths(paths) && last != removed {
            assert(is_sorted_paths(front));
            let output = rest.push(last);
            assert forall|first: int, second: int|
                0 <= first < second < output.len() implies path_precedes(
                #[trigger] output[first],
                #[trigger] output[second],
            ) by {
                if second == rest.len() {
                    assert(rest.contains(output[first]));
                    assert(front.contains(output[first]));
                    let i = choose|i: int| 0 <= i < front.len() && front[i] == output[first];
                    assert(paths[i] == output[first]);
                    assert(path_precedes(paths[i], paths[paths.len() - 1]));
                } else {
                    assert(output[first] == rest[first] && output[second] == rest[second]);
                }
            }
        } else if is_sorted_paths(paths) {
            assert(is_sorted_paths(front));
        }
    }
}

fn removed_pointer(pointers: &Vec<JsonPointer>, pointer: &JsonPointer) -> (result: Vec<JsonPointer>)
    requires
        is_sorted_paths(pointer_paths(pointers@)),
    ensures
        is_sorted_paths(pointer_paths(result@)),
        pointer_paths(result@).to_set() == pointer_paths(pointers@).to_set().remove(pointer@),
{
    let ghost paths = pointer_paths(pointers@);
    let mut result: Vec<JsonPointer> = Vec::new();
    proof {
        assert(pointer_paths(result@) =~= without_path(paths.take(0), pointer@));
    }
    let mut index: usize = 0;
    while index < pointers.len()
        invariant
            0 <= index <= pointers@.len(),
            paths == pointer_paths(pointers@),
            pointer_paths(result@) == without_path(paths.take(index as int), pointer@),
        decreases pointers@.len() - index,
    {
        assert(paths[index as int] == pointers@[index as int]@);
        assert(paths.take(index + 1).drop_last() =~= paths.take(index as int));
        if !pointers[index].same_path(pointer) {
            push_pointer(&mut result, &pointers[index]);
        }
        index = index + 1;
    }
    proof {
        assert(paths.take(paths.len() as int) =~= paths);
        lemma_without_path(paths, pointer@);
    }
    result
}

impl JsonInspectorState {
    #[verifier::type_invariant]
    spec fn sorted(self) -> bool {
        is_sorted_paths(self@.1)
    }

    /// Creates state from one selected pointer and expanded pointers, kept ordered and unique
    pub fn new(selected: JsonPointer, expanded: Vec<JsonPointer>) -> (state: Self)
        ensures
            state@.0 == selected@,
            is_sorted_paths(state@.1),
            state@.1.to_set() == pointer_paths(expanded@).to_set(),
    {
        let mut sorted: Vec<JsonPointer> = Vec::new();
        proof {
            assert(pointer_paths(sorted@) =~= Seq::<Seq<char>>::empty());
            assert(pointer_paths(expanded@).take(0) =~= Seq::<Seq<char>>::empty());
        }
        let mut index: usize = 0;
        while index < expanded.len()
            invariant
                0 <= index <= expanded@.len(),
                is_sorted_paths(pointer_paths(sorted@)),
                pointer_paths(sorted@).to_set() == pointer_paths(expanded@).take(
                    index as int,
                ).to_set(),
            decreases expanded@.len() - index,
        {
            sorted = inserted_sorted(&sorted, &expanded[index]);
            proof {
                let all = pointer_paths(expanded@);
                assert(all[index as int] == expanded@[index as int]@);
                assert(all.take(index + 1) =~= all.take(index as int).push(all[index as int]));
                all.take(index as int).lemma_push_to_set_commute(all[index as int]);
            }
            index = index + 1;
        }
        proof {
            let all = pointer_paths(expanded@);
            assert(all.take(all.len() as int) =~= all);
        }
        JsonInspectorState { selected, expanded: Arc::new(sorted) }
    }

    /// Returns the selected complete JSON Pointer
    pub fn selected(&self) -> (selected: &JsonPointer)
        ensures
            selected@ == self@.0,
    {
        &self.selected
    }

    /// Returns the expanded pointers in lexical order
    pub fn expanded(&self) -> (expanded: &[JsonPointer])
        ensures
            pointer_paths(expanded@) == self@.1,
            is_sorted_paths(self@.1),
    {
        proof {
            use_type_invariant(self);
        }
        self.expanded.as_slice()
    }

    /// Reports whether one pointer is expanded
    pub fn is_expanded(&self, pointer: &JsonPointer) -> (expanded: bool)
        ensures
            expanded == self@.1.contains(pointer@),
    {
        contains_pointer(&self.expanded, pointer)
    }

    /// Returns state with a replacement selected pointer
    pub fn with_selected(self, selected: JsonPointer) -> (state: Self)
        ensures
            state@ == (selected@, self@.1),
    {
        proof {
            use_type_invariant(&self);
        }
        JsonInspectorState { selected, expanded: self.expanded }
    }

    /// Returns state with one pointer inserted into or removed from the expansion
    pub fn with_expanded(self, pointer: JsonPointer, expanded: bool) -> (state: Self)
        ensures
            state@.0 == self@.0,
            is_sorted_paths(state@.1),
            state@.1.to_set() == if expanded {
                self@.1.to_set().insert(pointer@)
            } else {
                self@.1.to_set().remove(pointer@)
            },
    {
        proof {
            use_type_invariant(&self);
        }
        let values = if expanded {
            inserted_sorted(&self.expanded, &pointer)
        } else {
            removed_pointer(&self.expanded, &pointer)
        };
        JsonInspectorState { selected: self.selected, expanded: Arc::new(values) }
    }

    /// Reports whether two states share one expansion allocation
    pub fn shares_expansion(&self, other: &Self) -> (shared: bool)
        ensures
            shared ==> self@.1 == other@.1,
    {
        same_allocation(&self.expanded, &other.expanded)
    }

    /// Returns an equal state sharing the expansion
    pub fn duplicate(&self) -> (copy: Self)
        ensures
            copy@ == self@,
    {
        proof {
            use_type_invariant(self);
        }
        JsonInspectorState { selected: self.selected.duplicate(), expanded: share(&self.expanded) }
    }
}

impl Clone for JsonInspectorState {
    fn clone(&self) -> (copy: Self)
        ensures
            copy@ == self@,
    {
        self.duplicate()
    }
}

impl Default for JsonInspectorState {
    fn default() -> (state: Self)
        ensures
            state@.0 == Seq::<char>::empty(),
            state@.1 == seq![Seq::<char>::empty()],
    {
        let root = JsonPointer::root();
        let mut expanded: Vec<JsonPointer> = Vec::new();
        expanded.push(JsonPointer::root());
        let state = JsonInspectorState { selected: root, expanded: Arc::new(expanded) };
        assert(state@.1 =~= seq![Seq::<char>::empty()]);
        state
    }
}

// ---------------------------------------------------------------------------
// Visible rows
// ---------------------------------------------------------------------------

/// Keyboard commands understood by a JSON inspector
#[derive(Clone, Copy, Debug, PartialEq, Eq, Structural, Hash)]
pub enum JsonInspectorAction {
    /// Toggles the selected branch
    Activate,
    /// Selects the previous visible row
    Previous,
    /// Selects the next visible row
    Next,
    /// Selects the first row
    First,
    /// Selects the last visible row
    Last,
    /// Collapses the selected branch or selects its parent
    Collapse,
    /// Expands the selected branch or selects its first child
    Expand,
    /// Requests a copy of the selected value
    Copy,
}

/// A value with children that can be expanded
pub open spec fn is_branch_model(node: JsonNodeModel) -> bool {
    node.child_count > 0 && (node.kind == JsonKind::Array || node.kind == JsonKind::Object)
}

/// A branch whose pointer is expanded
pub open spec fn is_expanded_model(node: JsonNodeModel, expanded: Seq<Seq<char>>) -> bool {
    is_branch_model(node) && expanded.contains(node.path)
}

/// The next visible row after `index`: its first child when expanded, else the row after
/// its subtree
pub open spec fn spec_next_visible(
    nodes: Seq<JsonNodeModel>,
    expanded: Seq<Seq<char>>,
    index: int,
) -> Option<int> {
    let next = if is_expanded_model(nodes[index], expanded) {
        index + 1
    } else {
        nodes[index].subtree_end as int
    };
    if next < nodes.len() {
        Some(next)
    } else {
        None
    }
}

/// The outermost collapsed branch among the ancestors of `current`, else `normalized`
pub open spec fn collapsed_ancestor(
    nodes: Seq<JsonNodeModel>,
    expanded: Seq<Seq<char>>,
    current: int,
    normalized: int,
) -> int
    decreases current,
{
    match nodes[current].parent {
        None => normalized,
        Some(parent) => if parent < current {
            let p = parent as int;
            collapsed_ancestor(
                nodes,
                expanded,
                p,
                if is_branch_model(nodes[p]) && !expanded.contains(nodes[p].path) {
                    p
                } else {
                    normalized
                },
            )
        } else {
            normalized
        },
    }
}

/// The visible row standing for `index`: its outermost collapsed ancestor, else itself
pub open spec fn spec_normalize_visible(
    nodes: Seq<JsonNodeModel>,
    expanded: Seq<Seq<char>>,
    index: int,
) -> int {
    collapsed_ancestor(nodes, expanded, index, index)
}

/// The visible row before `index`, absent at the first row
pub open spec fn spec_previous_visible(
    nodes: Seq<JsonNodeModel>,
    expanded: Seq<Seq<char>>,
    index: int,
) -> Option<int> {
    if index <= 0 {
        None
    } else {
        Some(spec_normalize_visible(nodes, expanded, index - 1))
    }
}

/// The last visible row reached by walking forward from `current`
pub open spec fn last_visible_from(
    nodes: Seq<JsonNodeModel>,
    expanded: Seq<Seq<char>>,
    current: int,
) -> int
    decreases nodes.len() - current,
{
    match spec_next_visible(nodes, expanded, current) {
        Some(next) => if current < next {
            last_visible_from(nodes, expanded, next)
        } else {
            current
        },
        None => current,
    }
}

/// Every visible row from `current` on, in order
pub open spec fn visible_from(nodes: Seq<JsonNodeModel>, expanded: Seq<Seq<char>>, current: int) -> Seq<
    int,
>
    decreases nodes.len() - current,
{
    match spec_next_visible(nodes, expanded, current) {
        Some(next) => if current < next {
            seq![current] + visible_from(nodes, expanded, next)
        } else {
            seq![current]
        },
        None => seq![current],
    }
}

/// The row reached by stepping back up to `times` visible rows
pub open spec fn back_from(
    nodes: Seq<JsonNodeModel>,
    expanded: Seq<Seq<char>>,
    current: int,
    times: nat,
) -> int
    decreases times,
{
    if times == 0 {
        current
    } else {
        match spec_previous_visible(nodes, expanded, current) {
            None => current,
            Some(previous) => back_from(nodes, expanded, previous, (times - 1) as nat),
        }
    }
}

/// Up to `count` visible rows from `current` on
pub open spec fn forward_from(
    nodes: Seq<JsonNodeModel>,
    expanded: Seq<Seq<char>>,
    current: int,
    count: nat,
) -> Seq<int>
    decreases count,
{
    if count == 0 {
        Seq::empty()
    } else {
        match spec_next_visible(nodes, expanded, current) {
            Some(next) => seq![current] + forward_from(nodes, expanded, next, (count - 1) as nat),
            None => seq![current],
        }
    }
}

/// Prepends up to `missing` earlier visible rows to a window
pub open spec fn prepend_rows(
    nodes: Seq<JsonNodeModel>,
    expanded: Seq<Seq<char>>,
    window: Seq<int>,
    missing: nat,
) -> Seq<int>
    decreases missing,
{
    if missing == 0 || window.len() == 0 {
        window
    } else {
        match spec_previous_visible(nodes, expanded, window[0]) {
            None => window,
            Some(previous) => prepend_rows(
                nodes,
                expanded,
                seq![previous] + window,
                (missing - 1) as nat,
            ),
        }
    }
}

/// The visible rows shown in a viewport of `height` rows around `selected`, every visible row
/// when the height is zero
pub open spec fn spec_visible_window(
    nodes: Seq<JsonNodeModel>,
    expanded: Seq<Seq<char>>,
    selected: int,
    height: nat,
) -> Seq<int> {
    if height == 0 {
        visible_from(nodes, expanded, 0)
    } else {
        let start = back_from(nodes, expanded, selected, height / 2);
        let forward = forward_from(nodes, expanded, start, height);
        prepend_rows(nodes, expanded, forward, (height - forward.len()) as nat)
    }
}

/// The normalized row never lies after the row it stands for
proof fn lemma_collapsed_ancestor_bound(
    nodes: Seq<JsonNodeModel>,
    expanded: Seq<Seq<char>>,
    current: int,
    normalized: int,
)
    requires
        0 <= current <= normalized,
    ensures
        0 <= collapsed_ancestor(nodes, expanded, current, normalized) <= normalized,
    decreases current,
{
    if let Some(parent) = nodes[current].parent {
        if parent < current {
            let p = parent as int;
            lemma_collapsed_ancestor_bound(
                nodes,
                expanded,
                p,
                if is_branch_model(nodes[p]) && !expanded.contains(nodes[p].path) {
                    p
                } else {
                    normalized
                },
            );
        }
    }
}

/// The record of row `index` is a branch
pub fn is_branch(document: &JsonDocument, index: usize) -> (branch: bool)
    requires
        index < document.spec_nodes().len(),
    ensures
        branch == is_branch_model(document.spec_nodes()[index as int]),
{
    let record = document.record(index);
    proof {
        lemma_record_fields(*record);
    }
    record.child_count > 0 && match record.kind {
        JsonKind::Array | JsonKind::Object => true,
        _ => false,
    }
}

/// The record of row `index` is an expanded branch
pub fn is_expanded_branch(document: &JsonDocument, state: &JsonInspectorState, index: usize) -> (expanded: bool)
    requires
        index < document.spec_nodes().len(),
    ensures
        expanded == is_expanded_model(document.spec_nodes()[index as int], state@.1),
{
    let record = document.record(index);
    proof {
        lemma_record_fields(*record);
    }
    is_branch(document, index) && state.is_expanded(&record.path)
}

/// The next visible row after `index`
pub fn next_visible(document: &JsonDocument, state: &JsonInspectorState, index: usize) -> (next: Option<usize>)
    requires
        index < document.spec_nodes().len(),
    ensures
        next matches Some(n) ==> spec_next_visible(document.spec_nodes(), state@.1, index as int)
            == Some(n as int) && index < n,
        next is None ==> spec_next_visible(document.spec_nodes(), state@.1, index as int) is None,
{
    proof {
        lemma_document_nodes_shape(document.spec_root());
    }
    let count = document.len();
    let record = document.record(index);
    proof {
        lemma_record_fields(*record);
    }
    let next = if is_expanded_branch(document, state, index) {
        index + 1
    } else {
        record.subtree_end
    };
    if next < count {
        Some(next)
    } else {
        None
    }
}

/// The visible row standing for `index`: its outermost collapsed ancestor, else itself
pub fn normalize_visible_index(document: &JsonDocument, state: &JsonInspectorState, index: usize) -> (normalized: usize)
    requires
        index < document.spec_nodes().len(),
    ensures
        normalized == spec_normalize_visible(document.spec_nodes(), state@.1, index as int),
        normalized <= index,
{
    proof {
        lemma_document_nodes_shape(document.spec_root());
        lemma_collapsed_ancestor_bound(document.spec_nodes(), state@.1, index as int, index as int);
    }
    let ghost nodes = document.spec_nodes();
    let mut normalized = index;
    let mut current = index;
    let first = document.record(index);
    proof {
        lemma_record_fields(*first);
    }
    let mut parent = first.parent;
    while parent.is_some()
        invariant
            nodes == document.spec_nodes(),
            current < nodes.len(),
            normalized <= index,
            current <= normalized,
            nodes[current as int].parent == match parent {
                Some(p) => Some(p as nat),
                None => None::<nat>,
            },
            forall|k: int|
                0 < k < nodes.len() ==> ((#[trigger] nodes[k]).parent matches Some(p) && p < k),
            nodes[0].parent is None,
            collapsed_ancestor(nodes, state@.1, index as int, index as int) == collapsed_ancestor(
                nodes,
                state@.1,
                current as int,
                normalized as int,
            ),
        decreases current,
    {
        let p = parent.unwrap();
        assert(p < current);
        let record = document.record(p);
        proof {
            lemma_record_fields(*record);
        }
        if is_branch(document, p) && !state.is_expanded(&record.path) {
            normalized = p;
        }
        current = p;
        parent = record.parent;
    }
    normalized
}

/// The visible row before `index`, absent at the first row
pub fn previous_visible(document: &JsonDocument, state: &JsonInspectorState, index: usize) -> (previous: Option<usize>)
    requires
        index < document.spec_nodes().len(),
    ensures
        previous matches Some(p) ==> spec_previous_visible(document.spec_nodes(), state@.1, index as int)
            == Some(p as int) && p < index,
        previous is None ==> spec_previous_visible(document.spec_nodes(), state@.1, index as int) is None,
{
    if index == 0 {
        None
    } else {
        Some(normalize_visible_index(document, state, index - 1))
    }
}

/// The last visible row
pub fn last_visible(document: &JsonDocument, state: &JsonInspectorState) -> (last: usize)
    ensures
        last == last_visible_from(document.spec_nodes(), state@.1, 0),
        last < document.spec_nodes().len(),
{
    proof {
        lemma_document_nodes_shape(document.spec_root());
    }
    let mut index: usize = 0;
    loop
        invariant
            index < document.spec_nodes().len(),
            last_visible_from(document.spec_nodes(), state@.1, 0) == last_visible_from(
                document.spec_nodes(),
                state@.1,
                index as int,
            ),
        decreases document.spec_nodes().len() - index,
    {
        match next_visible(document, state, index) {
            Some(next) => {
                index = next;
            },
            None => {
                return index;
            },
        }
    }
}

/// The visible rows shown in a viewport of `height` rows around `selected`, every visible row
/// when the height is zero
pub fn visible_window(
    document: &JsonDocument,
    state: &JsonInspectorState,
    selected: usize,
    height: usize,
) -> (window: Vec<usize>)
    requires
        selected < document.spec_nodes().len(),
    ensures
        window@.map_values(|row: usize| row as int) == spec_visible_window(
            document.spec_nodes(),
            state@.1,
            selected as int,
            height as nat,
        ),
{
    let ghost nodes = document.spec_nodes();
    let ghost expanded = state@.1;
    if height == 0 {
        let mut visible: Vec<usize> = Vec::new();
        let mut current: usize = 0;
        proof {
            lemma_document_nodes_shape(document.spec_root());
        }
        loop
            invariant
                height == 0,
                current < nodes.len(),
                nodes == document.spec_nodes(),
                expanded == state@.1,
                visible@.map_values(|row: usize| row as int) + visible_from(
                    nodes,
                    expanded,
                    current as int,
                ) == visible_from(nodes, expanded, 0),
            decreases nodes.len() - current,
        {
            let ghost before = visible@;
            visible.push(current);
            proof {
                assert(visible@.map_values(|row: usize| row as int) =~= before.map_values(
                    |row: usize| row as int,
                ).push(current as int));
            }
            match next_visible(document, state, current) {
                Some(next) => {
                    proof {
                        assert(visible@.map_values(|row: usize| row as int) + visible_from(
                            nodes,
                            expanded,
                            next as int,
                        ) =~= before.map_values(|row: usize| row as int) + visible_from(
                            nodes,
                            expanded,
                            current as int,
                        ));
                    }
                    current = next;
                },
                None => {
                    proof {
                        assert(visible_from(nodes, expanded, current as int) =~= seq![current as int]);
                        assert(visible@.map_values(|row: usize| row as int) =~= before.map_values(
                            |row: usize| row as int,
                        ) + visible_from(nodes, expanded, current as int));
                        assert(visible@.map_values(|row: usize| row as int) =~= visible_from(
                            nodes,
                            expanded,
                            0,
                        ));
                    }
                    return visible;
                },
            }
        }
    }
    let mut start = selected;
    let mut step: usize = 0;
    while step < height / 2
        invariant
            start < nodes.len(),
            nodes == document.spec_nodes(),
            expanded == state@.1,
            step <= height / 2,
            back_from(nodes, expanded, selected as int, (height / 2) as nat) == back_from(
                nodes,
                expanded,
                start as int,
                (height / 2 - step) as nat,
            ),
        ensures
            start < nodes.len(),
            back_from(nodes, expanded, selected as int, (height / 2) as nat) == start as int,
        decreases height / 2 - step,
    {
        match previous_visible(document, state, start) {
            Some(previous) => {
                start = previous;
            },
            None => {
                break;
            },
        }
        step = step + 1;
    }
    let ghost begin = start as int;
    let mut visible: Vec<usize> = Vec::new();
    let mut current = start;
    while visible.len() < height
        invariant_except_break
            visible@.map_values(|row: usize| row as int) + forward_from(
                nodes,
                expanded,
                current as int,
                (height - visible@.len()) as nat,
            ) == forward_from(nodes, expanded, begin, height as nat),
        invariant
            current < nodes.len(),
            nodes == document.spec_nodes(),
            expanded == state@.1,
            visible@.len() <= height,
            forall|k: int| 0 <= k < visible@.len() ==> #[trigger] visible@[k] < nodes.len(),
        ensures
            visible@.map_values(|row: usize| row as int) == forward_from(
                nodes,
                expanded,
                begin,
                height as nat,
            ),
        decreases height - visible@.len(),
    {
        let ghost before = visible@;
        let ghost remaining = (height - visible@.len()) as nat;
        visible.push(current);
        proof {
            assert(visible@.map_values(|row: usize| row as int) =~= before.map_values(
                |row: usize| row as int,
            ).push(current as int));
        }
        match next_visible(document, state, current) {
            Some(next) => {
                proof {
                    assert(visible@.map_values(|row: usize| row as int) + forward_from(
                        nodes,
                        expanded,
                        next as int,
                        (remaining - 1) as nat,
                    ) =~= before.map_values(|row: usize| row as int) + forward_from(
                        nodes,
                        expanded,
                        current as int,
                        remaining,
                    ));
                    if remaining == 1 {
                        assert(forward_from(nodes, expanded, next as int, 0) =~= Seq::<int>::empty());
                        assert(visible@.map_values(|row: usize| row as int) =~= forward_from(
                            nodes,
                            expanded,
                            begin,
                            height as nat,
                        ));
                    }
                }
                current = next;
            },
            None => {
                proof {
                    assert(visible@.map_values(|row: usize| row as int) =~= before.map_values(
                        |row: usize| row as int,
                    ) + forward_from(nodes, expanded, current as int, remaining));
                }
                break;
            },
        }
    }
    let ghost forward = visible@.map_values(|row: usize| row as int);
    let ghost missing = (height - forward.len()) as nat;
    while visible.len() < height && visible.len() > 0
        invariant
            nodes == document.spec_nodes(),
            expanded == state@.1,
            visible@.len() <= height,
            forall|k: int| 0 <= k < visible@.len() ==> #[trigger] visible@[k] < nodes.len(),
            prepend_rows(nodes, expanded, forward, missing) == prepend_rows(
                nodes,
                expanded,
                visible@.map_values(|row: usize| row as int),
                (height - visible@.len()) as nat,
            ),
        ensures
            prepend_rows(nodes, expanded, forward, missing) == visible@.map_values(
                |row: usize| row as int,
            ),
        decreases height - visible@.len(),
    {
        let first = visible[0];
        match previous_visible(document, state, first) {
            Some(previous) => {
                let ghost before = visible@;
                visible.insert(0, previous);
                proof {
                    assert(visible@.map_values(|row: usize| row as int) =~= seq![previous as int]
                        + before.map_values(|row: usize| row as int));
                }
            },
            None => {
                break;
            },
        }
    }
    visible
}

// ---------------------------------------------------------------------------
// State transitions
// ---------------------------------------------------------------------------

/// The expansion with `path` added or dropped
pub open spec fn toggled_expansion(expanded: Set<Seq<char>>, path: Seq<char>, on: bool) -> Set<
    Seq<char>,
> {
    if on {
        expanded.insert(path)
    } else {
        expanded.remove(path)
    }
}

/// State with row `index` selected and the expansion kept
pub open spec fn spec_select_row(
    nodes: Seq<JsonNodeModel>,
    state: (Seq<char>, Seq<Seq<char>>),
    index: int,
) -> (Seq<char>, Set<Seq<char>>) {
    (nodes[index].path, state.1.to_set())
}

/// State selecting row `index` and, for a branch, toggling its expansion
pub open spec fn spec_state_for_pointer(
    nodes: Seq<JsonNodeModel>,
    state: (Seq<char>, Seq<Seq<char>>),
    index: int,
) -> (Seq<char>, Set<Seq<char>>) {
    let node = nodes[index];
    if is_branch_model(node) {
        (
            node.path,
            toggled_expansion(state.1.to_set(), node.path, !is_expanded_model(node, state.1)),
        )
    } else {
        (node.path, state.1.to_set())
    }
}

/// `i` is the first row whose pointer is `path`
pub open spec fn is_first_row_of(nodes: Seq<JsonNodeModel>, path: Seq<char>, i: int) -> bool {
    &&& 0 <= i < nodes.len()
    &&& nodes[i].path == path
    &&& forall|k: int| 0 <= k < i ==> nodes[k].path != path
}

/// The first row whose pointer is `path`, the root row when there is none
pub open spec fn row_of_path(nodes: Seq<JsonNodeModel>, path: Seq<char>) -> int {
    if exists|i: int| is_first_row_of(nodes, path, i) {
        choose|i: int| is_first_row_of(nodes, path, i)
    } else {
        0
    }
}

/// State whose selection is moved to a visible row
pub open spec fn spec_normalize_state(
    nodes: Seq<JsonNodeModel>,
    state: (Seq<char>, Seq<Seq<char>>),
) -> (Seq<char>, Set<Seq<char>>) {
    spec_select_row(
        nodes,
        state,
        spec_normalize_visible(nodes, state.1, row_of_path(nodes, state.0)),
    )
}

/// State after one keyboard command on row `selected`
pub open spec fn spec_state_for_action(
    nodes: Seq<JsonNodeModel>,
    state: (Seq<char>, Seq<Seq<char>>),
    selected: int,
    action: JsonInspectorAction,
) -> (Seq<char>, Set<Seq<char>>) {
    let node = nodes[selected];
    let unchanged = (state.0, state.1.to_set());
    let expanded = is_expanded_model(node, state.1);
    match action {
        JsonInspectorAction::Activate => if is_branch_model(node) {
            (state.0, toggled_expansion(state.1.to_set(), node.path, !expanded))
        } else {
            unchanged
        },
        JsonInspectorAction::Previous => match spec_previous_visible(nodes, state.1, selected) {
            Some(index) => spec_select_row(nodes, state, index),
            None => unchanged,
        },
        JsonInspectorAction::Next => match spec_next_visible(nodes, state.1, selected) {
            Some(index) => spec_select_row(nodes, state, index),
            None => unchanged,
        },
        JsonInspectorAction::First => spec_select_row(nodes, state, 0),
        JsonInspectorAction::Last => spec_select_row(
            nodes,
            state,
            last_visible_from(nodes, state.1, 0),
        ),
        JsonInspectorAction::Collapse => if expanded {
            (state.0, state.1.to_set().remove(node.path))
        } else {
            match node.parent {
                Some(parent) => spec_select_row(nodes, state, parent as int),
                None => unchanged,
            }
        },
        JsonInspectorAction::Expand => if is_branch_model(node) && !expanded {
            (state.0, state.1.to_set().insert(node.path))
        } else if expanded {
            spec_select_row(nodes, state, selected + 1)
        } else {
            unchanged
        },
        JsonInspectorAction::Copy => unchanged,
    }
}

/// State with row `index` selected
pub fn select_index(document: &JsonDocument, state: &JsonInspectorState, index: usize) -> (next: JsonInspectorState)
    requires
        index < document.spec_nodes().len(),
    ensures
        next@ == (document.spec_nodes()[index as int].path, state@.1),
{
    let record = document.record(index);
    proof {
        lemma_record_fields(*record);
    }
    state.duplicate().with_selected(record.path.duplicate())
}

/// State selecting row `index` and, for a branch, toggling its expansion
pub fn state_for_pointer(document: &JsonDocument, state: &JsonInspectorState, index: usize) -> (next: JsonInspectorState)
    requires
        index < document.spec_nodes().len(),
    ensures
        is_sorted_paths(next@.1),
        (next@.0, next@.1.to_set()) == spec_state_for_pointer(document.spec_nodes(), state@, index as int),
{
    let record = document.record(index);
    proof {
        lemma_record_fields(*record);
    }
    let mut next = state.duplicate().with_selected(record.path.duplicate());
    if is_branch(document, index) {
        let expanded = is_expanded_branch(document, state, index);
        next = next.with_expanded(record.path.duplicate(), !expanded);
    }
    next.expanded();
    next
}

/// State whose selection is moved to a visible row: an unknown pointer selects the root, and a
/// row hidden in a collapsed branch selects that branch
pub fn normalize_state(document: &JsonDocument, state: &JsonInspectorState) -> (next: JsonInspectorState)
    ensures
        next@.0 == spec_normalize_state(document.spec_nodes(), state@).0,
        next@.1 == state@.1,
{
    proof {
        lemma_document_nodes_shape(document.spec_root());
    }
    let ghost nodes = document.spec_nodes();
    let found = document.index_of(state.selected());
    let selected = match found {
        Some(index) => index,
        None => 0,
    };
    proof {
        match found {
            Some(index) => {
                assert(is_first_row_of(nodes, state@.0, index as int));
                let other = choose|i: int| is_first_row_of(nodes, state@.0, i);
                assert(is_first_row_of(nodes, state@.0, other));
                if other < index {
                    assert(nodes[other].path != state@.0);
                } else if other > index {
                    assert(nodes[index as int].path != state@.0);
                }
            },
            None => {
                assert(!exists|i: int| is_first_row_of(nodes, state@.0, i));
            },
        }
        assert(selected as int == row_of_path(nodes, state@.0));
    }
    let normalized = normalize_visible_index(document, state, selected);
    select_index(document, state, normalized)
}

/// State after one keyboard command on row `selected`
pub fn state_for_action(
    document: &JsonDocument,
    state: &JsonInspectorState,
    selected: usize,
    action: JsonInspectorAction,
) -> (next: JsonInspectorState)
    requires
        selected < document.spec_nodes().len(),
    ensures
        is_sorted_paths(next@.1),
        (next@.0, next@.1.to_set()) == spec_state_for_action(
            document.spec_nodes(),
            state@,
            selected as int,
            action,
        ),
{
    proof {
        lemma_document_nodes_shape(document.spec_root());
    }
    let ghost nodes = document.spec_nodes();
    state.expanded();
    let record = document.record(selected);
    proof {
        lemma_record_fields(*record);
    }
    let branch = is_branch(document, selected);
    let expanded = is_expanded_branch(document, state, selected);
    let next = match action {
        JsonInspectorAction::Activate => if branch {
            state.duplicate().with_expanded(record.path.duplicate(), !expanded)
        } else {
            state.duplicate()
        },
        JsonInspectorAction::Previous => match previous_visible(document, state, selected) {
            Some(index) => select_index(document, state, index),
            None => state.duplicate(),
        },
        JsonInspectorAction::Next => match next_visible(document, state, selected) {
            Some(index) => select_index(document, state, index),
            None => state.duplicate(),
        },
        JsonInspectorAction::First => select_index(document, state, 0),
        JsonInspectorAction::Last => {
            let last = last_visible(document, state);
            select_index(document, state, last)
        },
        JsonInspectorAction::Collapse => if expanded {
            state.duplicate().with_expanded(record.path.duplicate(), false)
        } else {
            match record.parent {
                Some(parent) => select_index(document, state, parent),
                None => state.duplicate(),
            }
        },
        JsonInspectorAction::Expand => if branch && !expanded {
            state.duplicate().with_expanded(record.path.duplicate(), true)
        } else if expanded {
            select_index(document, state, selected + 1)
        } else {
            state.duplicate()
        },
        JsonInspectorAction::Copy => state.duplicate(),
    };
    next.expanded();
    next
}

/// Activating the same branch twice restores the expansion, and activation never moves the
/// selection
pub proof fn lemma_activate_twice_restores(
    nodes: Seq<JsonNodeModel>,
    state: (Seq<char>, Seq<Seq<char>>),
    toggled: (Seq<char>, Seq<Seq<char>>),
    selected: int,
)
    requires
        0 <= selected < nodes.len(),
        (toggled.0, toggled.1.to_set()) == spec_state_for_action(
            nodes,
            state,
            selected,
            JsonInspectorAction::Activate,
        ),
    ensures
        toggled.0 == state.0,
        spec_state_for_action(nodes, toggled, selected, JsonInspectorAction::Activate) == (
            state.0,
            state.1.to_set(),
        ),
{
    let node = nodes[selected];
    let before = state.1.to_set();
    if is_branch_model(node) {
        assert(toggled.1.contains(node.path) <==> toggled.1.to_set().contains(node.path));
        assert(state.1.contains(node.path) <==> before.contains(node.path));
        if state.1.contains(node.path) {
            assert(before.remove(node.path).insert(node.path) =~= before);
        } else {
            assert(before.insert(node.path).remove(node.path) =~= before);
        }
    }
}

// ---------------------------------------------------------------------------
// Row text
// ---------------------------------------------------------------------------

/// The escaped content of a JSON string, without quotes
pub fn escape_json_string_content(value: &str) -> (escaped: String)
    ensures
        escaped@ == escape_json_chars(value@),
{
    let ghost chars = value@;
    let mut output = String::new();
    let mut written: usize = 0;
    for character in iter: value.chars()
        invariant
            iter.seq() == chars,
            chars == value@,
            0 <= iter.index() <= chars.len(),
            output@ == escape_json_chars(chars.take(iter.index())),
            written == output@.len(),
    {
        let ghost index = iter.index();
        proof {
            assert(chars.take(index + 1).drop_last() =~= chars.take(index));
            assert(chars.take(index + 1).last() == chars[index]);
        }
        push_escaped_char(&mut output, &mut written, character);
    }
    assert(chars.take(chars.len() as int) =~= chars);
    output
}

/// What a piece of row text shows, for styling
#[derive(Clone, Copy, Debug, PartialEq, Eq, Structural, Hash)]
pub enum JsonRowRole {
    /// Indentation, disclosure marks, quotes, brackets and separators
    Punctuation,
    /// An object key
    Key,
    /// An array index
    Index,
    /// The null literal
    Null,
    /// A boolean literal
    Boolean,
    /// A number token
    Number,
    /// String content
    String,
    /// The child count of a branch
    Summary,
}

/// One non-empty piece of row text and what it shows
#[derive(Debug, PartialEq, Eq)]
pub struct JsonRowSegment {
    role: JsonRowRole,
    text: String,
}

impl View for JsonRowSegment {
    type V = (JsonRowRole, Seq<char>);

    closed spec fn view(&self) -> (JsonRowRole, Seq<char>) {
        (self.role, self.text@)
    }
}

impl JsonRowSegment {
    /// Returns what the text shows
    pub fn role(&self) -> (role: JsonRowRole)
        ensures
            role == self@.0,
    {
        self.role
    }

    /// Returns the text
    pub fn text(&self) -> (text: &str)
        ensures
            text@ == self@.1,
    {
        self.text.as_str()
    }
}

/// The plain values of segments
pub open spec fn segment_models(segments: Seq<JsonRowSegment>) -> Seq<(JsonRowRole, Seq<char>)> {
    segments.map_values(|segment: JsonRowSegment| segment@)
}

/// Segments with empty text left out
pub open spec fn non_empty_segments(segments: Seq<(JsonRowRole, Seq<char>)>) -> Seq<
    (JsonRowRole, Seq<char>),
>
    decreases segments.len(),
{
    if segments.len() == 0 {
        Seq::empty()
    } else if segments.last().1.len() == 0 {
        non_empty_segments(segments.drop_last())
    } else {
        non_empty_segments(segments.drop_last()).push(segments.last())
    }
}

/// The characters of the first graphemes of a scalar: the whole value when it has at most
/// `maximum` graphemes (at least one), else the first `maximum` of them and a truncation flag
pub open spec fn spec_scalar_preview(value: Seq<char>, lengths: Seq<usize>, maximum: nat) -> (
    Seq<char>,
    bool,
) {
    let limit: nat = if maximum == 0 {
        1
    } else {
        maximum
    };
    if lengths.len() <= limit {
        (value, false)
    } else {
        (value.take(minimum_nat(grapheme_chars(lengths.take(limit as int)), value.len())), true)
    }
}

/// The smaller of two naturals
pub open spec fn minimum_nat(first: nat, second: nat) -> int {
    if first < second {
        first as int
    } else {
        second as int
    }
}

/// Total characters of graphemes with the given character counts
pub open spec fn grapheme_chars(lengths: Seq<usize>) -> nat
    decreases lengths.len(),
{
    if lengths.len() == 0 {
        0
    } else {
        grapheme_chars(lengths.drop_last()) + lengths.last() as nat
    }
}

/// The first `count` characters of a string
fn char_prefix(value: &str, count: usize) -> (prefix: String)
    ensures
        prefix@ == value@.take(minimum_nat(count as nat, value@.len())),
{
    let ghost chars = value@;
    let mut output = String::new();
    let mut taken: usize = 0;
    for character in iter: value.chars()
        invariant
            iter.seq() == chars,
            chars == value@,
            0 <= iter.index() <= chars.len(),
            taken == minimum_nat(iter.index() as nat, count as nat),
            output@ == chars.take(taken as int),
    {
        if taken < count {
            proof {
                assert(chars.take(taken + 1) =~= chars.take(taken as int).push(character));
            }
            output.push(character);
            taken = taken + 1;
        }
    }
    output
}

/// The preview of a scalar: its first graphemes, given the character count of each grapheme
fn scalar_preview(value: &str, lengths: &[usize], maximum: usize) -> (preview: (String, bool))
    ensures
        (preview.0@, preview.1) == spec_scalar_preview(value@, lengths@, maximum as nat),
{
    let limit = if maximum == 0 {
        1
    } else {
        maximum
    };
    if lengths.len() <= limit {
        return (value.to_owned(), false);
    }
    let ghost all = lengths@;
    let mut total: usize = 0;
    let mut index: usize = 0;
    while index < limit
        invariant
            0 <= index <= limit < lengths@.len(),
            all == lengths@,
            total == minimum_nat(grapheme_chars(all.take(index as int)), usize::MAX as nat),
        decreases limit - index,
    {
        proof {
            assert(all.take(index + 1).drop_last() =~= all.take(index as int));
        }
        total = total.saturating_add(lengths[index]);
        index = index + 1;
    }
    let prefix = char_prefix(value, total);
    let _byte_length = crate::text::str_byte_len(value);
    proof {
        crate::text::lemma_utf8_len_prefix(value@, value@.len() as int);
        assert(value@.take(value@.len() as int) =~= value@);
    }
    (prefix, true)
}

/// The key or index piece of a row
pub open spec fn label_segments(label: JsonLabelModel) -> Seq<(JsonRowRole, Seq<char>)> {
    match label {
        JsonLabelModel::Root => Seq::empty(),
        JsonLabelModel::Key(key) => seq![
            (JsonRowRole::Punctuation, seq!['"']),
            (JsonRowRole::Key, escape_json_chars(key)),
            (JsonRowRole::Punctuation, seq!['"', ':', ' ']),
        ],
        JsonLabelModel::Index(index) => seq![
            (JsonRowRole::Punctuation, seq!['[']),
            (JsonRowRole::Index, decimal_text(index)),
            (JsonRowRole::Punctuation, seq![']', ':', ' ']),
        ],
    }
}

/// The child count of a branch between its brackets, the count left out when zero
pub open spec fn summary_segments(opening: char, closing: char, count: nat) -> Seq<
    (JsonRowRole, Seq<char>),
> {
    seq![
        (JsonRowRole::Punctuation, seq![opening]),
        (JsonRowRole::Summary, if count > 0 {
            decimal_text(count)
        } else {
            Seq::empty()
        }),
        (JsonRowRole::Punctuation, seq![closing]),
    ]
}

/// The value piece of a row, scalars cut to their preview
pub open spec fn value_segments(
    node: JsonNodeModel,
    serialized: Seq<char>,
    preview: (Seq<char>, bool),
) -> Seq<(JsonRowRole, Seq<char>)> {
    let ellipsis = if preview.1 {
        seq!['…']
    } else {
        Seq::<char>::empty()
    };
    match node.kind {
        JsonKind::Null => seq![(JsonRowRole::Null, seq!['n', 'u', 'l', 'l'])],
        JsonKind::Boolean => seq![(JsonRowRole::Boolean, serialized)],
        JsonKind::Number => seq![(JsonRowRole::Number, preview.0), (JsonRowRole::Number, ellipsis)],
        JsonKind::String => seq![
            (JsonRowRole::Punctuation, seq!['"']),
            (JsonRowRole::String, escape_json_chars(preview.0)),
            (JsonRowRole::String, ellipsis),
            (JsonRowRole::Punctuation, seq!['"']),
        ],
        JsonKind::Array => summary_segments('[', ']', node.child_count),
        JsonKind::Object => summary_segments('{', '}', node.child_count),
    }
}

/// The disclosure mark of a row: open or closed for a branch, blank otherwise
pub open spec fn disclosure_text(branch: bool, expanded: bool) -> Seq<char> {
    if branch {
        if expanded {
            seq!['▼', ' ']
        } else {
            seq!['▶', ' ']
        }
    } else {
        seq![' ', ' ']
    }
}

/// The text of one inspector row as role-tagged pieces: indentation, the disclosure mark of a
/// branch, the key or index, then the value; pieces with no text are left out
pub open spec fn spec_row_segments(
    node: JsonNodeModel,
    serialized: Seq<char>,
    expanded: bool,
    preview: (Seq<char>, bool),
) -> Seq<(JsonRowRole, Seq<char>)> {
    non_empty_segments(
        seq![
            (JsonRowRole::Punctuation, spaces(2 * node.depth)),
            (JsonRowRole::Punctuation, disclosure_text(is_branch_model(node), expanded)),
        ] + label_segments(node.label) + value_segments(node, serialized, preview),
    )
}

/// The text a scalar row previews: the decoded content of a string, else the serialization
pub open spec fn previewed_text(node: JsonNodeModel, serialized: Seq<char>) -> Seq<char> {
    if node.kind == JsonKind::String {
        match node.decoded {
            Some(text) => text,
            None => Seq::empty(),
        }
    } else {
        serialized
    }
}

fn push_segment(
    segments: &mut Vec<JsonRowSegment>,
    Ghost(raw): Ghost<Seq<(JsonRowRole, Seq<char>)>>,
    role: JsonRowRole,
    text: String,
)
    requires
        segment_models(old(segments)@) == non_empty_segments(raw),
    ensures
        segment_models(final(segments)@) == non_empty_segments(raw.push((role, text@))),
{
    let ghost before = segment_models(segments@);
    proof {
        assert(raw.push((role, text@)).drop_last() =~= raw);
        crate::text::lemma_utf8_len_prefix(text@, text@.len() as int);
        assert(text@.take(text@.len() as int) =~= text@);
        if text@.len() == 0 {
            assert(text@ =~= Seq::<char>::empty());
            assert(crate::text::utf8_len(text@) == 0);
        }
    }
    if crate::text::str_byte_len(text.as_str()) > 0 {
        segments.push(JsonRowSegment { role, text });
        assert(segment_models(segments@) =~= before.push((role, text@)));
    }
}

fn literal(text: &str) -> (owned: String)
    ensures
        owned@ == text@,
{
    text.to_owned()
}

/// The text of one inspector row as role-tagged pieces, given the character count of each
/// grapheme of the previewed scalar (the decoded content of a string, else the serialization)
pub fn json_row_segments(
    document: &JsonDocument,
    state: &JsonInspectorState,
    index: usize,
    maximum_scalar_graphemes: usize,
    scalar_graphemes: &[usize],
) -> (segments: Vec<JsonRowSegment>)
    requires
        index < document.spec_nodes().len(),
    ensures
        ({
            let node = document.spec_nodes()[index as int];
            let serialized = json_serialization(document.spec_root()).subrange(
                node.start as int,
                node.end as int,
            );
            segment_models(segments@) == spec_row_segments(
                node,
                serialized,
                is_expanded_model(node, state@.1),
                spec_scalar_preview(
                    previewed_text(node, serialized),
                    scalar_graphemes@,
                    maximum_scalar_graphemes as nat,
                ),
            )
        }),
{
    let record = document.record(index);
    proof {
        lemma_record_fields(*record);
    }
    let node = document.node_at(index);
    let serialized = node.serialized();
    let expanded = is_expanded_branch(document, state, index);
    let ghost model = document.spec_nodes()[index as int];
    let mut segments: Vec<JsonRowSegment> = Vec::new();
    let ghost mut raw: Seq<(JsonRowRole, Seq<char>)> = Seq::empty();
    proof {
        assert(segment_models(segments@) =~= non_empty_segments(raw));
    }
    let mut indent = String::new();
    let mut level: u32 = 0;
    while level < record.depth
        invariant
            level <= record.depth,
            indent@ =~= spaces((2 * level) as nat),
        decreases record.depth - level,
    {
        crate::text::push_spaces(&mut indent, 2);
        assert(spaces((2 * level) as nat) + spaces(2) =~= spaces((2 * (level + 1)) as nat));
        level = level + 1;
    }
    assert(indent@ =~= spaces(2 * model.depth));
    let ghost indent_model = indent@;
    push_segment(&mut segments, Ghost(raw), JsonRowRole::Punctuation, indent);
    proof {
        raw = raw.push((JsonRowRole::Punctuation, indent_model));
    }
    let branch = is_branch(document, index);
    let disclosure = if branch {
        if expanded {
            literal("▼ ")
        } else {
            literal("▶ ")
        }
    } else {
        literal("  ")
    };
    proof {
        reveal_strlit("▼ ");
        reveal_strlit("▶ ");
        reveal_strlit("  ");
    }
    assert(disclosure@ =~= disclosure_text(is_branch_model(model), is_expanded_model(model, state@.1)));
    let ghost disclosure_model = disclosure@;
    push_segment(&mut segments, Ghost(raw), JsonRowRole::Punctuation, disclosure);
    proof {
        raw = raw.push((JsonRowRole::Punctuation, disclosure_model));
    }
    let ghost head = raw;
    match &record.label {
        JsonNodeLabel::Root => {},
        JsonNodeLabel::ObjectKey(key) => {
            let piece1 = literal("\"");
            proof {
                reveal_strlit("\"");
                assert(piece1@ =~= seq!['"']);
            }
            let ghost piece1_model = piece1@;
            push_segment(&mut segments, Ghost(raw), JsonRowRole::Punctuation, piece1);
            proof {
                raw = raw.push((JsonRowRole::Punctuation, piece1_model));
            }
            let escaped = escape_json_string_content(key.as_str());
            let ghost escaped_model = escaped@;
            push_segment(&mut segments, Ghost(raw), JsonRowRole::Key, escaped);
            proof {
                raw = raw.push((JsonRowRole::Key, escaped_model));
            }
            let piece2 = literal("\": ");
            proof {
                reveal_strlit("\": ");
                assert(piece2@ =~= seq!['"', ':', ' ']);
            }
            let ghost piece2_model = piece2@;
            push_segment(&mut segments, Ghost(raw), JsonRowRole::Punctuation, piece2);
            proof {
                raw = raw.push((JsonRowRole::Punctuation, piece2_model));
            }
        },
        JsonNodeLabel::ArrayIndex(position) => {
            let piece3 = literal("[");
            proof {
                reveal_strlit("[");
                assert(piece3@ =~= seq!['[']);
            }
            let ghost piece3_model = piece3@;
            push_segment(&mut segments, Ghost(raw), JsonRowRole::Punctuation, piece3);
            proof {
                raw = raw.push((JsonRowRole::Punctuation, piece3_model));
            }
            let mut digits = String::new();
            push_decimal_u64(&mut digits, *position as u64);
            let ghost digits_model = digits@;
            push_segment(&mut segments, Ghost(raw), JsonRowRole::Index, digits);
            proof {
                raw = raw.push((JsonRowRole::Index, digits_model));
            }
            let piece7 = literal("]: ");
            proof {
                reveal_strlit("]: ");
                assert(piece7@ =~= seq![']', ':', ' ']);
            }
            let ghost piece7_model = piece7@;
            push_segment(&mut segments, Ghost(raw), JsonRowRole::Punctuation, piece7);
            proof {
                raw = raw.push((JsonRowRole::Punctuation, piece7_model));
            }
        },
    }
    assert(raw =~= head + label_segments(model.label));
    let ghost labelled = raw;
    let previewed: &str = match record.kind {
        JsonKind::String => match &record.decoded_string {
            Some(text) => text.as_str(),
            None => "",
        },
        _ => serialized,
    };
    proof {
        reveal_strlit("");
    }
    let preview = scalar_preview(previewed, scalar_graphemes, maximum_scalar_graphemes);
    let ghost preview_model = (preview.0@, preview.1);
    let ellipsis = if preview.1 {
        literal("…")
    } else {
        String::new()
    };
    proof {
        reveal_strlit("…");
    }
    assert(ellipsis@ =~= if preview.1 {
        seq!['…']
    } else {
        Seq::<char>::empty()
    });
    let ghost ellipsis_model = ellipsis@;
    match record.kind {
        JsonKind::Null => {
            let piece4 = literal("null");
            proof {
                reveal_strlit("null");
                assert(piece4@ =~= seq!['n', 'u', 'l', 'l']);
            }
            let ghost piece4_model = piece4@;
            push_segment(&mut segments, Ghost(raw), JsonRowRole::Null, piece4);
            proof {
                raw = raw.push((JsonRowRole::Null, piece4_model));
            }
        },
        JsonKind::Boolean => {
            push_segment(&mut segments, Ghost(raw), JsonRowRole::Boolean, serialized.to_owned());
            proof {
                raw = raw.push((JsonRowRole::Boolean, serialized@));
            }
        },
        JsonKind::Number => {
            push_segment(&mut segments, Ghost(raw), JsonRowRole::Number, preview.0);
            proof {
                raw = raw.push((JsonRowRole::Number, preview_model.0));
            }
            push_segment(&mut segments, Ghost(raw), JsonRowRole::Number, ellipsis);
            proof {
                raw = raw.push((JsonRowRole::Number, ellipsis_model));
            }
        },
        JsonKind::String => {
            let piece5 = literal("\"");
            proof {
                reveal_strlit("\"");
                assert(piece5@ =~= seq!['"']);
            }
            let ghost piece5_model = piece5@;
            push_segment(&mut segments, Ghost(raw), JsonRowRole::Punctuation, piece5);
            proof {
                raw = raw.push((JsonRowRole::Punctuation, piece5_model));
            }
            let escaped = escape_json_string_content(preview.0.as_str());
            let ghost escaped_model = escaped@;
            push_segment(&mut segments, Ghost(raw), JsonRowRole::String, escaped);
            proof {
                raw = raw.push((JsonRowRole::String, escaped_model));
            }
            push_segment(&mut segments, Ghost(raw), JsonRowRole::String, ellipsis);
            proof {
                raw = raw.push((JsonRowRole::String, ellipsis_model));
            }
            let piece6 = literal("\"");
            proof {
                reveal_strlit("\"");
                assert(piece6@ =~= seq!['"']);
            }
            let ghost piece6_model = piece6@;
            push_segment(&mut segments, Ghost(raw), JsonRowRole::Punctuation, piece6);
            proof {
                raw = raw.push((JsonRowRole::Punctuation, piece6_model));
            }
        },
        JsonKind::Array | JsonKind::Object => {
            let object = match record.kind {
                JsonKind::Object => true,
                _ => false,
            };
            let opening = if object {
                '{'
            } else {
                '['
            };
            let closing = if object {
                '}'
            } else {
                ']'
            };
            let mut open = String::new();
            open.push(opening);
            assert(open@ =~= seq![opening]);
            let ghost open_model = open@;
            push_segment(&mut segments, Ghost(raw), JsonRowRole::Punctuation, open);
            proof {
                raw = raw.push((JsonRowRole::Punctuation, open_model));
            }
            let mut count = String::new();
            if record.child_count > 0 {
                push_decimal_u64(&mut count, record.child_count as u64);
            }
            assert(count@ =~= if model.child_count > 0 {
                decimal_text(model.child_count)
            } else {
                Seq::<char>::empty()
            });
            let ghost count_model = count@;
            push_segment(&mut segments, Ghost(raw), JsonRowRole::Summary, count);
            proof {
                raw = raw.push((JsonRowRole::Summary, count_model));
            }
            let mut close = String::new();
            close.push(closing);
            assert(close@ =~= seq![closing]);
            let ghost close_model = close@;
            push_segment(&mut segments, Ghost(raw), JsonRowRole::Punctuation, close);
            proof {
                raw = raw.push((JsonRowRole::Punctuation, close_model));
            }
        },
    }
    assert(raw =~= labelled + value_segments(model, serialized@, preview_model));
    proof {
        let serialized_model = json_serialization(document.spec_root()).subrange(
            model.start as int,
            model.end as int,
        );
        assert(serialized@ == serialized_model);
        assert(previewed@ == previewed_text(model, serialized_model));
        assert(head =~= seq![
            (JsonRowRole::Punctuation, spaces(2 * model.depth)),
            (JsonRowRole::Punctuation, disclosure_text(
                is_branch_model(model),
                is_expanded_model(model, state@.1),
            )),
        ]);
    }
    segments
}

/// A request that owns the complete serialization of the selected value
#[derive(Debug)]
pub struct JsonInspectorCopyRequest {
    source: String,
    path: JsonPointer,
    kind: JsonKind,
    text: String,
}

impl JsonInspectorCopyRequest {
    /// Returns the identity of the inspector that made the request
    pub fn source(&self) -> (source: &str)
        ensures
            source@ == self.spec_source(),
    {
        self.source.as_str()
    }

    /// Returns the pointer of the selected value
    pub fn path(&self) -> (path: &JsonPointer)
        ensures
            path@ == self.spec_path(),
    {
        &self.path
    }

    /// Returns the category of the selected value
    pub fn kind(&self) -> (kind: JsonKind)
        ensures
            kind == self.spec_kind(),
    {
        self.kind
    }

    /// Returns the complete compact serialization of the selected value
    pub fn text(&self) -> (text: &str)
        ensures
            text@ == self.spec_text(),
    {
        self.text.as_str()
    }

    /// The identity of the inspector that made the request
    pub closed spec fn spec_source(&self) -> Seq<char> {
        self.source@
    }

    /// The pointer of the selected value
    pub closed spec fn spec_path(&self) -> Seq<char> {
        self.path@
    }

    /// The category of the selected value
    pub closed spec fn spec_kind(&self) -> JsonKind {
        self.kind
    }

    /// The serialization of the selected value
    pub closed spec fn spec_text(&self) -> Seq<char> {
        self.text@
    }
}

/// A copy request for row `selected`: its pointer, category and complete serialization
pub fn json_copy_request(document: &JsonDocument, selected: usize, source: &str) -> (request:
    JsonInspectorCopyRequest)
    requires
        selected < document.spec_nodes().len(),
    ensures
        ({
            let node = document.spec_nodes()[selected as int];
            &&& request.spec_source() == source@
            &&& request.spec_path() == node.path
            &&& request.spec_kind() == node.kind
            &&& request.spec_text() == json_serialization(document.spec_root()).subrange(
                node.start as int,
                node.end as int,
            )
        }),
{
    let record = document.record(selected);
    proof {
        lemma_record_fields(*record);
    }
    let node = document.node_at(selected);
    JsonInspectorCopyRequest {
        source: source.to_owned(),
        path: record.path.duplicate(),
        kind: record.kind,
        text: node.serialized().to_owned(),
    }
}

/// A key repeat the inspector consumes so that only the first press acts: unmodified Enter
/// or Space, or Control-C while a copy handler is set
pub open spec fn spec_is_blocked_initial_only_repeat(event: InputEvent, has_copy_handler: bool) -> bool {
    match event {
        InputEvent::Key(key) => key.action == KeyAction::Repeat && ({
            let none = Modifiers { shift: false, control: false, alt: false, meta: false };
            let control = Modifiers { shift: false, control: true, alt: false, meta: false };
            ||| key.code == KeyCode::Enter && key.modifiers == none
            ||| key.code == KeyCode::Character(' ') && key.modifiers == none
            ||| has_copy_handler && key.code == KeyCode::Character('c') && key.modifiers == control
        }),
        _ => false,
    }
}

/// Reports whether the inspector consumes a key repeat without acting on it
pub fn is_blocked_initial_only_repeat(event: &InputEvent, has_copy_handler: bool) -> (blocked: bool)
    ensures
        blocked == spec_is_blocked_initial_only_repeat(*event, has_copy_handler),
{
    let key = match event {
        InputEvent::Key(key) => key,
        _ => return false,
    };
    if key.action != KeyAction::Repeat {
        return false;
    }
    let none = Modifiers::none();
    let control = Modifiers { shift: false, control: true, alt: false, meta: false };
    key.code == KeyCode::Enter && key.modifiers == none || key.code == KeyCode::Character(' ')
        && key.modifiers == none || has_copy_handler && key.code == KeyCode::Character('c')
        && key.modifiers == control
}

} // verus!

