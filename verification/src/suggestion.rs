use std::sync::Arc;

use vstd::prelude::*;

use crate::text::{same_allocation, share};

verus! {

/// One stable candidate identity supplied to a suggestion popup
#[derive(Debug, PartialEq, Eq, Hash)]
pub struct SuggestionId {
    id: String,
}

impl View for SuggestionId {
    type V = Seq<char>;

    closed spec fn view(&self) -> Seq<char> {
        self.id@
    }
}

impl SuggestionId {
    /// Creates an opaque candidate identity
    pub fn new(value: &str) -> (id: Self)
        ensures
            id@ == value@,
    {
        SuggestionId { id: value.to_owned() }
    }

    /// Returns the application-defined identity
    pub fn as_str(&self) -> (value: &str)
        ensures
            value@ == self@,
    {
        self.id.as_str()
    }

    /// Returns an equal, separately owned identity
    pub fn duplicate(&self) -> (copy: Self)
        ensures
            copy@ == self@,
    {
        SuggestionId { id: self.id.clone() }
    }

    /// Reports whether two identities are equal
    pub fn same_id(&self, other: &SuggestionId) -> (same: bool)
        ensures
            same == (self@ == other@),
    {
        self.id == other.id
    }
}

impl Clone for SuggestionId {
    fn clone(&self) -> (copy: Self)
        ensures
            copy@ == self@,
    {
        self.duplicate()
    }
}

/// Error returned when a suggestion order contains the same stable ID twice
#[derive(Debug, PartialEq, Eq)]
pub struct DuplicateSuggestionId {
    id: SuggestionId,
}

impl DuplicateSuggestionId {
    /// The duplicated identity
    pub closed spec fn spec_id(self) -> Seq<char> {
        self.id@
    }

    /// Returns the duplicated candidate identity
    pub fn id(&self) -> (id: &SuggestionId)
        ensures
            id@ == self.spec_id(),
    {
        &self.id
    }
}

/// `ids[index]` repeats an earlier identity
pub open spec fn repeats_earlier(ids: Seq<Seq<char>>, index: int) -> bool {
    exists|earlier: int| 0 <= earlier < index && #[trigger] ids[earlier] == ids[index]
}

/// No identity occurs twice
pub open spec fn all_distinct(ids: Seq<Seq<char>>) -> bool {
    forall|first: int, second: int|
        0 <= first < second < ids.len() ==> #[trigger] ids[first] != #[trigger] ids[second]
}

/// `index` is the first identity repeating an earlier one
pub open spec fn is_first_repeat(ids: Seq<Seq<char>>, index: int) -> bool {
    &&& 0 <= index < ids.len()
    &&& repeats_earlier(ids, index)
    &&& forall|k: int| 0 <= k < index ==> !repeats_earlier(ids, k)
}

/// The identities of candidates
pub open spec fn candidate_ids(candidates: Seq<SuggestionId>) -> Seq<Seq<char>> {
    candidates.map_values(|candidate: SuggestionId| candidate@)
}

/// Immutable unique candidate order whose clones share storage
#[derive(Debug)]
pub struct SuggestionItems {
    inner: Arc<Vec<SuggestionId>>,
}

impl View for SuggestionItems {
    type V = Seq<Seq<char>>;

    closed spec fn view(&self) -> Seq<Seq<char>> {
        candidate_ids((*self.inner)@)
    }
}

impl SuggestionItems {
    #[verifier::type_invariant]
    spec fn unique(self) -> bool {
        all_distinct(self@)
    }

    /// Creates a validated immutable candidate order
    pub fn new(candidates: Vec<SuggestionId>) -> (result: Result<Self, DuplicateSuggestionId>)
        ensures
            all_distinct(candidate_ids(candidates@)) ==> (result matches Ok(items) && items@
                == candidate_ids(candidates@)),
            !all_distinct(candidate_ids(candidates@)) ==> (result matches Err(error) && exists|
                index: int,
            |
                is_first_repeat(candidate_ids(candidates@), index) && error.spec_id()
                    == candidates@[index]@),
    {
        let ghost ids = candidate_ids(candidates@);
        let mut index: usize = 0;
        while index < candidates.len()
            invariant
                0 <= index <= candidates@.len(),
                ids == candidate_ids(candidates@),
                forall|k: int| 0 <= k < index ==> !repeats_earlier(ids, k),
            decreases candidates@.len() - index,
        {
            let mut earlier: usize = 0;
            while earlier < index
                invariant
                    0 <= earlier <= index < candidates@.len(),
                    ids == candidate_ids(candidates@),
                    forall|k: int| 0 <= k < index ==> !repeats_earlier(ids, k),
                    forall|e: int| 0 <= e < earlier ==> ids[e] != ids[index as int],
                decreases index - earlier,
            {
                if candidates[earlier].same_id(&candidates[index]) {
                    assert(ids[earlier as int] == ids[index as int]);
                    assert(repeats_earlier(ids, index as int));
                    assert(is_first_repeat(ids, index as int));
                    assert(!all_distinct(ids));
                    return Err(DuplicateSuggestionId { id: candidates[index].duplicate() });
                }
                earlier = earlier + 1;
            }
            assert(!repeats_earlier(ids, index as int));
            index = index + 1;
        }
        assert forall|first: int, second: int|
            0 <= first < second < ids.len() implies #[trigger] ids[first] != #[trigger] ids[second] by {
            assert(!repeats_earlier(ids, second));
        }
        Ok(SuggestionItems { inner: Arc::new(candidates) })
    }

    /// Returns the number of candidates
    pub fn len(&self) -> (count: usize)
        ensures
            count == self@.len(),
    {
        self.inner.len()
    }

    /// Reports whether this candidate order is empty
    pub fn is_empty(&self) -> (empty: bool)
        ensures
            empty == (self@.len() == 0),
    {
        self.inner.len() == 0
    }

    /// Returns one candidate by current index
    pub fn get(&self, index: usize) -> (candidate: Option<&SuggestionId>)
        ensures
            index < self@.len() ==> (candidate matches Some(c) && c@ == self@[index as int]),
            index >= self@.len() ==> candidate is None,
    {
        if index < self.inner.len() {
            Some(&self.inner[index])
        } else {
            None
        }
    }

    /// Returns the immutable ordered candidates
    pub fn as_slice(&self) -> (candidates: &[SuggestionId])
        ensures
            candidate_ids(candidates@) == self@,
    {
        self.inner.as_slice()
    }

    /// Finds the index of a candidate identity
    pub fn position(&self, id: &SuggestionId) -> (index: Option<usize>)
        ensures
            index matches Some(i) ==> i < self@.len() && self@[i as int] == id@,
            index is None ==> forall|k: int| 0 <= k < self@.len() ==> self@[k] != id@,
    {
        let ghost ids = self@;
        let mut index: usize = 0;
        while index < self.inner.len()
            invariant
                0 <= index <= self.inner@.len(),
                ids == self@,
                ids == candidate_ids(self.inner@),
                forall|k: int| 0 <= k < index ==> ids[k] != id@,
            decreases self.inner@.len() - index,
        {
            if self.inner[index].same_id(id) {
                return Some(index);
            }
            index = index + 1;
        }
        None
    }

    /// Reports whether two candidate orders share one storage allocation
    pub fn shares_storage(&self, other: &Self) -> (shared: bool)
        ensures
            shared ==> self@ == other@,
    {
        same_allocation(&self.inner, &other.inner)
    }

    /// Creates an empty candidate order
    pub fn empty() -> (items: Self)
        ensures
            items@.len() == 0,
    {
        SuggestionItems { inner: Arc::new(Vec::new()) }
    }
}

impl Clone for SuggestionItems {
    fn clone(&self) -> (copy: Self)
        ensures
            copy@ == self@,
    {
        proof {
            use_type_invariant(self);
        }
        SuggestionItems { inner: share(&self.inner) }
    }
}

impl Default for SuggestionItems {
    fn default() -> (items: Self)
        ensures
            items@.len() == 0,
    {
        SuggestionItems::empty()
    }
}

/// Application-owned asynchronous display state for a suggestion popup
#[derive(Clone, Copy, Debug, PartialEq, Eq, Structural, Hash)]
pub enum SuggestionPopupStatus {
    /// Candidate data is current for the application request
    Ready,
    /// A newer application request is still running
    Loading,
}

/// Context passed to an application suggestion row builder
#[derive(Debug, PartialEq, Eq)]
pub struct SuggestionRowContext {
    index: usize,
    id: SuggestionId,
    selected: bool,
}

impl View for SuggestionRowContext {
    type V = (nat, Seq<char>, bool);

    closed spec fn view(&self) -> (nat, Seq<char>, bool) {
        (self.index as nat, self.id@, self.selected)
    }
}

impl SuggestionRowContext {
    /// Creates the context of one candidate row
    pub fn new(index: usize, id: SuggestionId, selected: bool) -> (context: Self)
        ensures
            context@ == (index as nat, id@, selected),
    {
        SuggestionRowContext { index, id, selected }
    }

    /// Returns the candidate index in application order
    pub fn index(&self) -> (index: usize)
        ensures
            index == self@.0,
    {
        self.index
    }

    /// Returns the stable application candidate identity
    pub fn id(&self) -> (id: &SuggestionId)
        ensures
            id@ == self@.1,
    {
        &self.id
    }

    /// Reports whether this candidate is the normalized selection
    pub fn is_selected(&self) -> (selected: bool)
        ensures
            selected == self@.2,
    {
        self.selected
    }
}

/// The selected candidate position: the selected identity's index when present, else the
/// first candidate; absent without candidates
pub fn normalized_suggestion_selection(
    candidates: &SuggestionItems,
    selected: Option<&SuggestionId>,
) -> (position: Option<usize>)
    ensures
        candidates@.len() == 0 ==> position is None,
        candidates@.len() > 0 ==> match selected {
            Some(id) => if candidates@.contains(id@) {
                position matches Some(p) && p < candidates@.len() && candidates@[p as int] == id@
            } else {
                position == Some(0usize)
            },
            None => position == Some(0usize),
        },
{
    if candidates.is_empty() {
        return None;
    }
    match selected {
        Some(id) => match candidates.position(id) {
            Some(index) => Some(index),
            None => {
                assert(!candidates@.contains(id@));
                Some(0)
            },
        },
        None => Some(0),
    }
}

/// The visible candidate rows: at least one and at most `count` rows, placed so the
/// selection is the last visible row when it cannot be shown earlier
pub open spec fn spec_suggestion_window(count: nat, selected: nat, rows: nat) -> (nat, nat) {
    let wanted = if rows < 1 {
        1
    } else {
        rows
    };
    let limit = if wanted < count {
        wanted
    } else {
        count
    };
    let back = if selected + 1 > limit {
        (selected + 1 - limit) as nat
    } else {
        0
    };
    let start = if back < count - limit {
        back
    } else {
        (count - limit) as nat
    };
    (start, start + limit)
}

/// Chooses the visible candidate rows
pub fn suggestion_window(count: usize, selected: usize, rows: usize) -> (window: (usize, usize))
    ensures
        (window.0 as nat, window.1 as nat) == spec_suggestion_window(
            count as nat,
            selected as nat,
            rows as nat,
        ),
        window.0 <= window.1 <= count,
{
    let wanted = if rows < 1 {
        1
    } else {
        rows
    };
    let limit = if wanted < count {
        wanted
    } else {
        count
    };
    let back = selected.saturating_add(1).saturating_sub(limit);
    let start = if back < count - limit {
        back
    } else {
        count - limit
    };
    (start, start + limit)
}

} // verus!
