use vstd::prelude::*;

use crate::navigation::{Navigation, navigate, spec_navigate};

verus! {

broadcast use vstd::string::group_string_axioms;

/// One application-defined list item with a stable identity
#[derive(Debug, PartialEq, Eq)]
pub struct ListItem {
    id: String,
    label: String,
}

impl View for ListItem {
    type V = (Seq<char>, Seq<char>);

    closed spec fn view(&self) -> (Seq<char>, Seq<char>) {
        (self.id@, self.label@)
    }
}

impl ListItem {
    /// Creates an item with an application-defined stable identity
    pub fn new(id: &str, label: &str) -> (item: Self)
        ensures
            item@ == (id@, label@),
    {
        ListItem { id: id.to_owned(), label: label.to_owned() }
    }

    /// Returns the item's stable identity
    pub fn id(&self) -> (id: &str)
        ensures
            id@ == self@.0,
    {
        self.id.as_str()
    }

    /// Returns the displayed label
    pub fn label(&self) -> (label: &str)
        ensures
            label@ == self@.1,
    {
        self.label.as_str()
    }
}

/// ASCII upper-case letters folded to lower case, other bytes unchanged
pub open spec fn ascii_folded(byte: u8) -> u8 {
    if 65 <= byte <= 90 {
        (byte + 32) as u8
    } else {
        byte
    }
}

/// `label` holds `query` at `start`, ignoring ASCII case
pub open spec fn matches_at(label: Seq<u8>, query: Seq<u8>, start: int) -> bool {
    &&& 0 <= start
    &&& start + query.len() <= label.len()
    &&& forall|k: int| 0 <= k < query.len() ==> ascii_folded(#[trigger] label[start + k])
        == ascii_folded(query[k])
}

/// `label` contains `query` ignoring ASCII case; the empty query matches every label
pub open spec fn label_matches(label: Seq<u8>, query: Seq<u8>) -> bool {
    query.len() == 0 || exists|start: int| matches_at(label, query, start)
}

/// The UTF-8 bytes of text
pub open spec fn text_bytes(text: Seq<char>) -> Seq<u8> {
    vstd::utf8::encode_utf8(text)
}

fn fold_byte(byte: u8) -> (folded: u8)
    ensures
        folded == ascii_folded(byte),
{
    if 65 <= byte && byte <= 90 {
        byte + 32
    } else {
        byte
    }
}

fn bytes_match_at(label: &[u8], query: &[u8], start: usize) -> (found: bool)
    requires
        start + query@.len() <= label@.len(),
    ensures
        found == matches_at(label@, query@, start as int),
{
    let label_len = label.len();
    let mut index: usize = 0;
    while index < query.len()
        invariant
            0 <= index <= query@.len(),
            label_len == label@.len(),
            start + query@.len() <= label@.len(),
            forall|k: int| 0 <= k < index ==> ascii_folded(#[trigger] label@[start + k])
                == ascii_folded(query@[k]),
        decreases query@.len() - index,
    {
        if fold_byte(label[start + index]) != fold_byte(query[index]) {
            return false;
        }
        index = index + 1;
    }
    true
}

/// Reports whether a label contains the query, ignoring ASCII case
pub fn label_contains(label: &str, query: &str) -> (found: bool)
    ensures
        found == label_matches(text_bytes(label@), text_bytes(query@)),
{
    let label_bytes = label.as_bytes();
    let query_bytes = query.as_bytes();
    let label_len = label_bytes.len();
    if query_bytes.len() == 0 {
        return true;
    }
    if query_bytes.len() > label_bytes.len() {
        assert forall|start: int| !matches_at(label_bytes@, query_bytes@, start) by {}
        return false;
    }
    let last = label_bytes.len() - query_bytes.len();
    let mut start: usize = 0;
    while start <= last
        invariant
            last + query_bytes@.len() == label_bytes@.len(),
            query_bytes@.len() > 0,
            last < usize::MAX,
            label_bytes@ == text_bytes(label@),
            query_bytes@ == text_bytes(query@),
            forall|s: int| 0 <= s < start ==> !matches_at(label_bytes@, query_bytes@, s),
        decreases last + 1 - start,
    {
        if bytes_match_at(label_bytes, query_bytes, start) {
            return true;
        }
        start = start + 1;
    }
    assert forall|s: int| !matches_at(label_bytes@, query_bytes@, s) by {
        if 0 <= s < start {
        }
    }
    false
}

/// Reports whether an item's label contains the filter query, ignoring ASCII case
pub fn list_item_matches(item: &ListItem, query: &str) -> (found: bool)
    ensures
        found == label_matches(text_bytes(item@.1), text_bytes(query@)),
{
    label_contains(item.label.as_str(), query)
}

/// Indices of the first `count` labels that match the query, in order
pub open spec fn matching_indices(labels: Seq<Seq<char>>, query: Seq<char>, count: int) -> Seq<
    usize,
>
    decreases count,
{
    if count <= 0 {
        Seq::empty()
    } else if label_matches(text_bytes(labels[count - 1]), text_bytes(query)) {
        matching_indices(labels, query, count - 1).push((count - 1) as usize)
    } else {
        matching_indices(labels, query, count - 1)
    }
}

/// The labels of items
pub open spec fn item_labels(items: Seq<ListItem>) -> Seq<Seq<char>> {
    items.map_values(|item: ListItem| item@.1)
}

/// Indices of the items whose labels contain the query, in item order
pub fn list_visible_indices(items: &[ListItem], query: &str) -> (indices: Vec<usize>)
    ensures
        indices@ == matching_indices(item_labels(items@), query@, items@.len() as int),
{
    let ghost labels = item_labels(items@);
    let mut indices: Vec<usize> = Vec::new();
    let mut index: usize = 0;
    while index < items.len()
        invariant
            0 <= index <= items@.len(),
            labels == item_labels(items@),
            indices@ == matching_indices(labels, query@, index as int),
        decreases items@.len() - index,
    {
        assert(labels[index as int] == items@[index as int]@.1);
        if list_item_matches(&items[index], query) {
            indices.push(index);
        }
        index = index + 1;
    }
    indices
}

/// Whether the filtered list shows any row: a zero-row window shows none, and a window
/// starting at `offset` shows one when more than `offset` items match
pub fn list_has_visible_items(
    items: &[ListItem],
    query: &str,
    window: Option<(usize, usize)>,
) -> (visible: bool)
    ensures
        visible == match window {
            Some((offset, limit)) => limit > 0 && matching_indices(
                item_labels(items@),
                query@,
                items@.len() as int,
            ).len() > offset,
            None => matching_indices(item_labels(items@), query@, items@.len() as int).len() > 0,
        },
{
    let offset = match window {
        Some((_, 0)) => {
            return false;
        },
        Some((offset, _)) => offset,
        None => 0,
    };
    let visible = list_visible_indices(items, query);
    visible.len() > offset
}

/// The `limit` entries of `indices` starting at `offset`, cut at the end
pub open spec fn spec_list_window(indices: Seq<usize>, offset: int, limit: int) -> Seq<usize> {
    let start = if offset < indices.len() {
        offset
    } else {
        indices.len() as int
    };
    let end = if start + limit < indices.len() {
        start + limit
    } else {
        indices.len() as int
    };
    indices.subrange(start, end)
}

/// Cuts the visible window out of filtered indices
pub fn list_window(indices: &[usize], offset: usize, limit: usize) -> (window: Vec<usize>)
    ensures
        window@ == spec_list_window(indices@, offset as int, limit as int),
{
    let start = if offset < indices.len() {
        offset
    } else {
        indices.len()
    };
    let end = if limit < indices.len() - start {
        start + limit
    } else {
        indices.len()
    };
    let mut window: Vec<usize> = Vec::new();
    let mut index = start;
    while index < end
        invariant
            start <= index <= end <= indices@.len(),
            window@ == indices@.subrange(start as int, index as int),
        decreases end - index,
    {
        window.push(indices[index]);
        index = index + 1;
        assert(window@ =~= indices@.subrange(start as int, index as int));
    }
    window
}

/// Maps an item selection onto a position in the visible indices
pub fn normalized_list_selection(visible: &[usize], selected: usize) -> (position: Option<usize>)
    ensures
        visible@.len() == 0 ==> position is None,
        visible@.len() > 0 ==> (position matches Some(p) && p < visible@.len()),
        position matches Some(p) ==> (visible@[p as int] <= selected && forall|later: int|
            p < later < visible@.len() ==> visible@[later] > selected) || (p == 0 && forall|k: int|
            0 <= k < visible@.len() ==> visible@[k] > selected),
{
    if visible.len() == 0 {
        return None;
    }
    let mut position = visible.len();
    while position > 0
        invariant
            0 <= position <= visible@.len(),
            forall|later: int| position <= later < visible@.len() ==> visible@[later] > selected,
        decreases position,
    {
        if visible[position - 1] <= selected {
            return Some(position - 1);
        }
        position = position - 1;
    }
    Some(0)
}

/// The position reached by a navigation step inside the visible rows, or the same
/// position when the step does not move
pub fn list_navigation_target(count: usize, position: usize, action: Navigation) -> (target: usize)
    ensures
        target == match spec_navigate(count as nat, position as nat, action) {
            Some(next) => next as int,
            None => position as int,
        },
{
    match navigate(count, position, action) {
        Some(next) => next,
        None => position,
    }
}

/// The rows a virtual viewport shows: from its vertical offset, as many as its height, cut at
/// the row count
pub open spec fn spec_virtual_row_range(offset: u32, height: u32, count: usize) -> (int, int) {
    let start: int = if offset < count {
        offset as int
    } else {
        count as int
    };
    let end: int = if start + height < count {
        start + height
    } else {
        count as int
    };
    (start, end)
}

/// Computes the rows a virtual viewport at `offset` with room for `height` rows shows out of
/// `count`
pub fn virtual_row_range(offset: u32, height: u32, count: usize) -> (range: (usize, usize))
    ensures
        (range.0 as int, range.1 as int) == spec_virtual_row_range(offset, height, count),
{
    let start = if (offset as u64) < (count as u64) {
        offset as usize
    } else {
        count
    };
    let end = if (height as u64) < ((count - start) as u64) {
        start + height as usize
    } else {
        count
    };
    (start, end)
}

/// The selected row that a virtual viewport keeps a focus target for outside its shown rows
/// `start..end`, so that keyboard actions still reach it
pub fn selection_outside_rows(selected: Option<usize>, start: usize, end: usize) -> (row: Option<usize>)
    ensures
        row == (match selected {
            Some(index) => if index < start || index >= end {
                Some(index)
            } else {
                None
            },
            None => None,
        }),
{
    match selected {
        Some(index) => if index < start || index >= end {
            Some(index)
        } else {
            None
        },
        None => None,
    }
}

/// A keyboard action on a vertical collection
#[derive(Clone, Copy, Debug, PartialEq, Eq, Structural)]
pub enum CollectionAction {
    /// Reports the current item
    Activate,
    /// Moves to the previous item
    Previous,
    /// Moves to the next item
    Next,
    /// Moves to the first item
    First,
    /// Moves to the last item
    Last,
}

/// The movement an action asks for, none for activation
pub open spec fn spec_collection_navigation(action: CollectionAction) -> Option<Navigation> {
    match action {
        CollectionAction::Activate => None,
        CollectionAction::Previous => Some(Navigation::Up),
        CollectionAction::Next => Some(Navigation::Down),
        CollectionAction::First => Some(Navigation::Home),
        CollectionAction::Last => Some(Navigation::End),
    }
}

impl CollectionAction {
    /// Returns the movement this action asks for, none for activation
    pub fn navigation(self) -> (navigation: Option<Navigation>)
        ensures
            navigation == spec_collection_navigation(self),
    {
        match self {
            CollectionAction::Activate => None,
            CollectionAction::Previous => Some(Navigation::Up),
            CollectionAction::Next => Some(Navigation::Down),
            CollectionAction::First => Some(Navigation::Home),
            CollectionAction::Last => Some(Navigation::End),
        }
    }
}

/// The position a collection reports after an action at `position` of `count` rows:
/// activation reports the current row, a movement reports the row it reaches when that is
/// another row; `None` when nothing is reported
pub fn collection_action_selection(action: CollectionAction, count: usize, position: usize) -> (reported: Option<usize>)
    requires
        position < count,
    ensures
        reported == (match spec_collection_navigation(action) {
            None => Some(position),
            Some(navigation) => {
                let next = spec_navigate(count as nat, position as nat, navigation).unwrap();
                if next == position {
                    None
                } else {
                    Some(next as usize)
                }
            },
        }),
{
    let navigation = match action.navigation() {
        None => return Some(position),
        Some(navigation) => navigation,
    };
    let next = list_navigation_target(count, position, navigation);
    if next == position {
        None
    } else {
        Some(next)
    }
}

} // verus!
