use vstd::prelude::*;

use crate::text_area::{TextAreaModel, TextAreaState, at_end_model};

verus! {

/// One stable application-defined composer history entry identity
#[derive(Debug, PartialEq, Eq, Hash)]
pub struct ComposerHistoryEntryId {
    id: String,
}

impl View for ComposerHistoryEntryId {
    type V = Seq<char>;

    closed spec fn view(&self) -> Seq<char> {
        self.id@
    }
}

impl ComposerHistoryEntryId {
    /// Creates an opaque history entry identity
    pub fn new(value: &str) -> (id: Self)
        ensures
            id@ == value@,
    {
        ComposerHistoryEntryId { id: value.to_owned() }
    }

    /// Returns the application-defined identity
    pub fn as_str(&self) -> (value: &str)
        ensures
            value@ == self@,
    {
        self.id.as_str()
    }

    /// Returns an equal, separately owned identity
    pub fn duplicate(&self) -> (copy: Self)
        ensures
            copy@ == self@,
    {
        ComposerHistoryEntryId { id: self.id.clone() }
    }

    /// Reports whether two identities are equal
    pub fn same_id(&self, other: &ComposerHistoryEntryId) -> (same: bool)
        ensures
            same == (self@ == other@),
    {
        self.id == other.id
    }
}

impl Clone for ComposerHistoryEntryId {
    fn clone(&self) -> (copy: Self)
        ensures
            copy@ == self@,
    {
        self.duplicate()
    }
}

/// One immutable composer history entry
#[derive(Debug, PartialEq, Eq)]
pub struct ComposerHistoryEntry {
    id: ComposerHistoryEntryId,
    value: String,
}

impl View for ComposerHistoryEntry {
    type V = (Seq<char>, Seq<char>);

    closed spec fn view(&self) -> (Seq<char>, Seq<char>) {
        (self.id@, self.value@)
    }
}

impl ComposerHistoryEntry {
    /// Creates an entry from a stable identity and recalled text
    pub fn new(id: &str, value: &str) -> (entry: Self)
        ensures
            entry@ == (id@, value@),
    {
        ComposerHistoryEntry { id: ComposerHistoryEntryId::new(id), value: value.to_owned() }
    }

    /// Returns the stable application-defined identity
    pub fn id(&self) -> (id: &ComposerHistoryEntryId)
        ensures
            id@ == self@.0,
    {
        &self.id
    }

    /// Returns the recalled text
    pub fn value(&self) -> (value: &str)
        ensures
            value@ == self@.1,
    {
        self.value.as_str()
    }
}

impl Clone for ComposerHistoryEntry {
    fn clone(&self) -> (copy: Self)
        ensures
            copy@ == self@,
    {
        ComposerHistoryEntry { id: self.id.duplicate(), value: self.value.clone() }
    }
}

/// Error returned when composer history contains the same stable ID twice
#[derive(Debug, PartialEq, Eq)]
pub struct DuplicateComposerHistoryEntryId {
    id: ComposerHistoryEntryId,
}

impl DuplicateComposerHistoryEntryId {
    /// The duplicated identity
    pub closed spec fn spec_id(self) -> Seq<char> {
        self.id@
    }

    /// Returns the duplicated entry identity
    pub fn id(&self) -> (id: &ComposerHistoryEntryId)
        ensures
            id@ == self.spec_id(),
    {
        &self.id
    }
}

/// Identity and text of every entry, oldest first
pub type HistoryModel = Seq<(Seq<char>, Seq<char>)>;

/// `entries[index]` repeats the identity of an earlier entry
pub open spec fn repeats_earlier_id(entries: HistoryModel, index: int) -> bool {
    exists|earlier: int| 0 <= earlier < index && #[trigger] entries[earlier].0 == entries[index].0
}

/// No entry repeats the identity of another
pub open spec fn has_unique_ids(entries: HistoryModel) -> bool {
    forall|first: int, second: int|
        0 <= first < second < entries.len() ==> #[trigger] entries[first].0 != #[trigger] entries[second].0
}

/// `index` is the first entry that repeats an earlier identity
pub open spec fn is_first_repeated_id(entries: HistoryModel, index: int) -> bool {
    &&& 0 <= index < entries.len()
    &&& repeats_earlier_id(entries, index)
    &&& forall|k: int| 0 <= k < index ==> !repeats_earlier_id(entries, k)
}

/// The index of the entry with identity `id`, if any
pub open spec fn history_position(entries: HistoryModel, id: Seq<char>) -> Option<int> {
    if exists|index: int| 0 <= index < entries.len() && entries[index].0 == id {
        Some(choose|index: int| 0 <= index < entries.len() && entries[index].0 == id)
    } else {
        None
    }
}

/// Immutable oldest-to-newest composer history with unique stable entry IDs
#[derive(Debug, PartialEq, Eq)]
pub struct ComposerHistory {
    entries: Vec<ComposerHistoryEntry>,
}

impl View for ComposerHistory {
    type V = HistoryModel;

    closed spec fn view(&self) -> HistoryModel {
        self.entries@.map_values(|entry: ComposerHistoryEntry| entry@)
    }
}

impl ComposerHistory {
    #[verifier::type_invariant]
    spec fn ids_are_unique(self) -> bool {
        has_unique_ids(self@)
    }

    /// Creates validated history whose stable entry IDs are unique
    pub fn new(entries: Vec<ComposerHistoryEntry>) -> (result: Result<Self, DuplicateComposerHistoryEntryId>)
        ensures
            has_unique_ids(entries@.map_values(|entry: ComposerHistoryEntry| entry@)) ==> (
            result matches Ok(history) && history@ == entries@.map_values(
                |entry: ComposerHistoryEntry| entry@,
            )),
            !has_unique_ids(entries@.map_values(|entry: ComposerHistoryEntry| entry@)) ==> (
            result matches Err(error) && exists|index: int|
                is_first_repeated_id(
                    entries@.map_values(|entry: ComposerHistoryEntry| entry@),
                    index,
                ) && error.spec_id() == entries@[index]@.0),
    {
        let ghost model = entries@.map_values(|entry: ComposerHistoryEntry| entry@);
        let mut index: usize = 0;
        while index < entries.len()
            invariant
                0 <= index <= entries@.len(),
                model == entries@.map_values(|entry: ComposerHistoryEntry| entry@),
                forall|k: int| 0 <= k < index ==> !repeats_earlier_id(model, k),
            decreases entries@.len() - index,
        {
            let mut earlier: usize = 0;
            while earlier < index
                invariant
                    0 <= earlier <= index < entries@.len(),
                    model == entries@.map_values(|entry: ComposerHistoryEntry| entry@),
                    forall|k: int| 0 <= k < index ==> !repeats_earlier_id(model, k),
                    forall|e: int| 0 <= e < earlier ==> model[e].0 != model[index as int].0,
                decreases index - earlier,
            {
                if entries[earlier].id.same_id(&entries[index].id) {
                    assert(model[earlier as int].0 == model[index as int].0);
                    assert(repeats_earlier_id(model, index as int));
                    assert(is_first_repeated_id(model, index as int));
                    assert(!has_unique_ids(model));
                    return Err(DuplicateComposerHistoryEntryId { id: entries[index].id.duplicate() });
                }
                earlier = earlier + 1;
            }
            assert(!repeats_earlier_id(model, index as int));
            index = index + 1;
        }
        assert forall|first: int, second: int|
            0 <= first < second < model.len() implies #[trigger] model[first].0
                != #[trigger] model[second].0 by {
            assert(!repeats_earlier_id(model, second));
        }
        Ok(ComposerHistory { entries })
    }

    /// Returns the number of history entries; every history has unique identities
    pub fn len(&self) -> (count: usize)
        ensures
            count == self@.len(),
            has_unique_ids(self@),
    {
        proof {
            use_type_invariant(self);
        }
        self.entries.len()
    }

    /// Reports whether history is empty; every history has unique identities
    pub fn is_empty(&self) -> (empty: bool)
        ensures
            empty == (self@.len() == 0),
            has_unique_ids(self@),
    {
        proof {
            use_type_invariant(self);
        }
        self.entries.len() == 0
    }

    /// Returns one entry by its oldest-to-newest index
    pub fn get(&self, index: usize) -> (entry: Option<&ComposerHistoryEntry>)
        ensures
            index < self@.len() ==> (entry matches Some(e) && e@ == self@[index as int]),
            index >= self@.len() ==> entry is None,
            has_unique_ids(self@),
    {
        proof {
            use_type_invariant(self);
        }
        if index < self.entries.len() {
            Some(&self.entries[index])
        } else {
            None
        }
    }

    /// Returns immutable oldest-to-newest entries
    pub fn as_slice(&self) -> (entries: &[ComposerHistoryEntry])
        ensures
            entries@.map_values(|entry: ComposerHistoryEntry| entry@) == self@,
            has_unique_ids(self@),
    {
        proof {
            use_type_invariant(self);
        }
        self.entries.as_slice()
    }

    /// Finds the entry with a stable identity
    pub fn position(&self, id: &ComposerHistoryEntryId) -> (index: Option<usize>)
        ensures
            index matches Some(i) ==> history_position(self@, id@) == Some(i as int),
            index is None ==> history_position(self@, id@) is None,
    {
        proof {
            use_type_invariant(self);
        }
        let ghost model = self@;
        let mut index: usize = 0;
        while index < self.entries.len()
            invariant
                0 <= index <= self.entries@.len(),
                model == self@,
                model.len() == self.entries@.len(),
                has_unique_ids(model),
                forall|k: int| 0 <= k < index ==> model[k].0 != id@,
            decreases self.entries@.len() - index,
        {
            if self.entries[index].id.same_id(id) {
                assert(model[index as int].0 == id@);
                let ghost chosen = choose|i: int| 0 <= i < model.len() && model[i].0 == id@;
                assert(chosen == index) by {
                    if chosen < index {
                        assert(model[chosen].0 != model[index as int].0);
                    } else if chosen > index {
                        assert(model[index as int].0 != model[chosen].0);
                    }
                }
                return Some(index);
            }
            index = index + 1;
        }
        None
    }

    /// Creates history with no entries
    pub fn empty() -> (history: Self)
        ensures
            history@.len() == 0,
    {
        let history = ComposerHistory { entries: Vec::new() };
        assert(history@ =~= Seq::<(Seq<char>, Seq<char>)>::empty());
        history
    }
}

impl Default for ComposerHistory {
    fn default() -> (history: Self)
        ensures
            history@.len() == 0,
    {
        ComposerHistory::empty()
    }
}

/// Editor, browsing position, browsed identity, and preserved draft of a composer
pub struct ComposerModel {
    /// The editor
    pub text: TextAreaModel,
    /// The browsed history index
    pub index: Option<nat>,
    /// The browsed entry identity
    pub entry: Option<Seq<char>>,
    /// The editor state preserved when browsing started
    pub draft: Option<TextAreaModel>,
}

/// Leaves browsing, putting back the preserved draft when there is one
pub open spec fn spec_restore_draft(state: ComposerModel) -> ComposerModel {
    ComposerModel {
        text: match state.draft {
            Some(draft) => draft,
            None => state.text,
        },
        index: None,
        entry: None,
        draft: None,
    }
}

/// Follows the browsed identity into replacement history
pub open spec fn spec_reconcile_history(state: ComposerModel, history: HistoryModel) -> ComposerModel {
    match state.entry {
        None => if state.index is Some {
            spec_restore_draft(state)
        } else {
            state
        },
        Some(id) => match history_position(history, id) {
            None => spec_restore_draft(state),
            Some(index) => ComposerModel {
                text: if state.text.0 == history[index].1 {
                    state.text
                } else {
                    at_end_model(history[index].1)
                },
                index: Some(index as nat),
                entry: state.entry,
                draft: state.draft,
            },
        },
    }
}

/// Whether an older entry can be recalled
pub open spec fn spec_has_history_previous(state: ComposerModel, history: HistoryModel) -> bool {
    history.len() > 0 && state.index != Some(0nat)
}

/// The state after recalling the next older entry, absent at the oldest entry
pub open spec fn spec_history_previous(state: ComposerModel, history: HistoryModel) -> Option<
    ComposerModel,
> {
    let current = spec_reconcile_history(state, history);
    if !spec_has_history_previous(current, history) {
        None
    } else {
        let target: int = match current.index {
            None => history.len() - 1,
            Some(index) => (if index < history.len() {
                index as int
            } else {
                history.len() as int
            }) - 1,
        };
        Some(
            ComposerModel {
                text: at_end_model(history[target].1),
                index: Some(target as nat),
                entry: Some(history[target].0),
                draft: match current.draft {
                    Some(draft) => Some(draft),
                    None => Some(current.text),
                },
            },
        )
    }
}

/// The state after recalling the next newer entry or the draft, absent outside browsing
pub open spec fn spec_history_next(state: ComposerModel, history: HistoryModel) -> Option<
    ComposerModel,
> {
    let current = spec_reconcile_history(state, history);
    match current.index {
        None => None,
        Some(index) => if index + 1 < history.len() {
            Some(
                ComposerModel {
                    text: at_end_model(history[index + 1int].1),
                    index: Some((index + 1) as nat),
                    entry: Some(history[index + 1int].0),
                    draft: current.draft,
                },
            )
        } else {
            Some(spec_restore_draft(current))
        },
    }
}

/// The state after the editor reports new editor state: a changed text leaves browsing
pub open spec fn spec_changed_state(current: ComposerModel, text: TextAreaModel) -> ComposerModel {
    if current.text.0 != text.0 {
        ComposerModel { text, index: None, entry: None, draft: None }
    } else {
        ComposerModel { text, ..current }
    }
}

/// In history with unique identities, each identity is found at its own index
pub proof fn lemma_history_position_of_entry(history: HistoryModel, index: int)
    requires
        has_unique_ids(history),
        0 <= index < history.len(),
    ensures
        history_position(history, history[index].0) == Some(index),
{
    let id = history[index].0;
    assert(0 <= index < history.len() && history[index].0 == id);
    let chosen = choose|i: int| 0 <= i < history.len() && history[i].0 == id;
    if chosen < index {
        assert(history[chosen].0 != history[index].0);
    } else if chosen > index {
        assert(history[index].0 != history[chosen].0);
    }
}

/// Moving forward without browsing does nothing, and recalling the newest entry and then
/// moving past it gives back the editor state that was there before browsing started; every `ComposerHistory` has unique identities, as
/// its accessors and the browsing functions ensure
pub proof fn lemma_history_recall_round_trip(state: ComposerModel, history: HistoryModel)
    requires
        has_unique_ids(history),
        history.len() > 0,
        state.index is None,
        state.entry is None,
        state.draft is None,
    ensures
        spec_history_next(state, history) is None,
        spec_history_previous(state, history) matches Some(recalled) && spec_history_next(
            recalled,
            history,
        ) == Some(ComposerModel { text: state.text, index: None, entry: None, draft: None }),
{
    let newest = history.len() - 1;
    lemma_history_position_of_entry(history, newest);
}

/// Application-owned editor, history position, and draft for a composer
#[derive(Debug, PartialEq, Eq)]
pub struct ComposerState {
    text_area: TextAreaState,
    history_index: Option<usize>,
    history_entry_id: Option<ComposerHistoryEntryId>,
    draft: Option<TextAreaState>,
}

impl View for ComposerState {
    type V = ComposerModel;

    closed spec fn view(&self) -> ComposerModel {
        ComposerModel {
            text: self.text_area@,
            index: match self.history_index {
                Some(index) => Some(index as nat),
                None => None,
            },
            entry: match self.history_entry_id {
                Some(id) => Some(id@),
                None => None,
            },
            draft: match self.draft {
                Some(draft) => Some(draft@),
                None => None,
            },
        }
    }
}

fn duplicate_draft(draft: &Option<TextAreaState>) -> (copy: Option<TextAreaState>)
    ensures
        copy matches Some(c) ==> draft matches Some(d) && c@ == d@,
        copy is None ==> draft is None,
{
    match draft {
        Some(state) => Some(state.duplicate()),
        None => None,
    }
}

impl ComposerState {
    /// Creates state outside history browsing
    pub fn new(text_area: TextAreaState) -> (state: Self)
        ensures
            state@ == (ComposerModel { text: text_area@, index: None, entry: None, draft: None }),
    {
        ComposerState { text_area, history_index: None, history_entry_id: None, draft: None }
    }

    /// Creates state with the cursor at the end of `value`
    pub fn at_end(value: &str) -> (state: Self)
        ensures
            state@ == (ComposerModel {
                text: at_end_model(value@),
                index: None,
                entry: None,
                draft: None,
            }),
    {
        Self::new(TextAreaState::at_end(value))
    }

    /// Returns the controlled editor state
    pub fn text_area(&self) -> (text_area: &TextAreaState)
        ensures
            text_area@ == self@.text,
    {
        &self.text_area
    }

    /// Returns the oldest-to-newest history index currently being browsed
    pub fn history_index(&self) -> (index: Option<usize>)
        ensures
            index matches Some(i) ==> self@.index == Some(i as nat),
            index is None ==> self@.index is None,
    {
        self.history_index
    }

    /// Returns the stable entry identity currently being browsed
    pub fn history_entry_id(&self) -> (id: Option<&ComposerHistoryEntryId>)
        ensures
            id matches Some(i) ==> self@.entry == Some(i@),
            id is None ==> self@.entry is None,
    {
        match &self.history_entry_id {
            Some(id) => Some(id),
            None => None,
        }
    }

    /// Returns the editor state restored after browsing past the newest entry
    pub fn draft(&self) -> (draft: Option<&TextAreaState>)
        ensures
            draft matches Some(d) ==> self@.draft == Some(d@),
            draft is None ==> self@.draft is None,
    {
        match &self.draft {
            Some(draft) => Some(draft),
            None => None,
        }
    }

    /// Replaces editor state and leaves history browsing
    pub fn with_text_area(self, text_area: TextAreaState) -> (state: Self)
        ensures
            state@ == (ComposerModel { text: text_area@, index: None, entry: None, draft: None }),
    {
        ComposerState { text_area, history_index: None, history_entry_id: None, draft: None }
    }

    /// Returns an equal, separately owned state
    pub fn duplicate(&self) -> (copy: Self)
        ensures
            copy@ == self@,
    {
        ComposerState {
            text_area: self.text_area.duplicate(),
            history_index: self.history_index,
            history_entry_id: match &self.history_entry_id {
                Some(id) => Some(id.duplicate()),
                None => None,
            },
            draft: duplicate_draft(&self.draft),
        }
    }

    /// Reconciles a browsing position against replacement history
    ///
    /// The same stable entry ID follows reordering and front truncation. A
    /// changed value for that ID replaces the editor value. A missing ID exits
    /// browsing and restores the preserved draft
    pub fn reconcile_history(self, history: &ComposerHistory) -> (state: Self)
        ensures
            state@ == spec_reconcile_history(self@, history@),
    {
        let mut state = self;
        match &state.history_entry_id {
            None => {
                if state.history_index.is_some() {
                    state.restore_draft();
                }
                state
            },
            Some(id) => {
                match history.position(id) {
                    None => {
                        state.restore_draft();
                        state
                    },
                    Some(index) => {
                        let entry = &history.entries[index];
                        assert(history@[index as int] == entry@);
                        let changed = !state.text_area.holds_text(&entry.value);
                        let text_area = if changed {
                            TextAreaState::at_end(entry.value.as_str())
                        } else {
                            state.text_area
                        };
                        ComposerState {
                            text_area,
                            history_index: Some(index),
                            history_entry_id: state.history_entry_id,
                            draft: state.draft,
                        }
                    },
                }
            },
        }
    }

    /// Leaves browsing, putting back the preserved draft when there is one
    pub fn restore_draft(&mut self)
        ensures
            final(self)@ == spec_restore_draft(old(self)@),
    {
        let draft = self.draft.take();
        if let Some(draft) = draft {
            self.text_area = draft;
        }
        self.history_index = None;
        self.history_entry_id = None;
    }
}

impl Clone for ComposerState {
    fn clone(&self) -> (copy: Self)
        ensures
            copy@ == self@,
    {
        self.duplicate()
    }
}

impl Default for ComposerState {
    fn default() -> (state: Self)
        ensures
            state@ == (ComposerModel {
                text: at_end_model(Seq::<char>::empty()),
                index: None,
                entry: None,
                draft: None,
            }),
    {
        Self::new(TextAreaState::default())
    }
}

/// Behavior when inserted text would exceed a composer maximum length
#[derive(Clone, Copy, Debug, PartialEq, Eq, Structural, Hash)]
pub enum ComposerOverflowPolicy {
    /// Reject the complete text or paste edit
    Reject,
    /// Insert the longest grapheme-aligned prefix that fits
    Truncate,
}

/// Applies editor state reported by the editor: a changed text leaves browsing
pub fn composer_changed_state(
    current: &ComposerState,
    text_area: TextAreaState,
) -> (next: ComposerState)
    ensures
        next@ == spec_changed_state(current@, text_area@),
{
    let value_changed = !text_area.same_value(&current.text_area);
    if value_changed {
        ComposerState { text_area, history_index: None, history_entry_id: None, draft: None }
    } else {
        ComposerState {
            text_area,
            history_index: current.history_index,
            history_entry_id: match &current.history_entry_id {
                Some(id) => Some(id.duplicate()),
                None => None,
            },
            draft: duplicate_draft(&current.draft),
        }
    }
}

/// Whether an older history entry can be recalled
pub fn composer_has_history_previous(
    state: &ComposerState,
    history: &ComposerHistory,
) -> (available: bool)
    ensures
        available == spec_has_history_previous(state@, history@),
{
    !history.is_empty() && !matches!(state.history_index, Some(0))
}

/// A reconciled browsing index always names an entry
proof fn lemma_reconciled_index(state: ComposerModel, history: HistoryModel)
    ensures
        spec_reconcile_history(state, history).index matches Some(index) ==> index
            < history.len(),
{
    if let Some(id) = state.entry {
        if let Some(index) = history_position(history, id) {
            assert(0 <= index < history.len());
        }
    }
}

/// Recalls the next older history entry, preserving the editor as the draft
pub fn composer_history_previous(
    state: &ComposerState,
    history: &ComposerHistory,
) -> (next: Option<ComposerState>)
    ensures
        next matches Some(n) ==> spec_history_previous(state@, history@) == Some(n@),
        next is None ==> spec_history_previous(state@, history@) is None,
        has_unique_ids(history@),
{
    proof {
        use_type_invariant(history);
    }
    let current = state.duplicate().reconcile_history(history);
    if !composer_has_history_previous(&current, history) {
        return None;
    }
    proof {
        lemma_reconciled_index(state@, history@);
    }
    let length = history.len();
    let target = match current.history_index {
        None => length - 1,
        Some(index) => (if index < length {
            index
        } else {
            length
        }) - 1,
    };
    let entry = &history.entries[target];
    assert(history@[target as int] == entry@);
    let draft = match current.draft {
        Some(draft) => Some(draft),
        None => Some(current.text_area),
    };
    Some(
        ComposerState {
            text_area: TextAreaState::at_end(entry.value.as_str()),
            history_index: Some(target),
            history_entry_id: Some(entry.id.duplicate()),
            draft,
        },
    )
}

/// Recalls the next newer history entry, or the draft after the newest one
pub fn composer_history_next(
    state: &ComposerState,
    history: &ComposerHistory,
) -> (next: Option<ComposerState>)
    ensures
        next matches Some(n) ==> spec_history_next(state@, history@) == Some(n@),
        next is None ==> spec_history_next(state@, history@) is None,
        has_unique_ids(history@),
{
    proof {
        use_type_invariant(history);
    }
    let mut current = state.duplicate().reconcile_history(history);
    proof {
        lemma_reconciled_index(state@, history@);
    }
    let length = history.len();
    let index = match current.history_index {
        Some(index) => index,
        None => {
            return None;
        },
    };
    if index + 1 < length {
        let target = index + 1;
        let entry = &history.entries[target];
        assert(history@[target as int] == entry@);
        return Some(
            ComposerState {
                text_area: TextAreaState::at_end(entry.value.as_str()),
                history_index: Some(target),
                history_entry_id: Some(entry.id.duplicate()),
                draft: current.draft,
            },
        );
    }
    current.restore_draft();
    Some(current)
}

/// While browsing entry `index` with a newer entry after it, moving forward shows the next newer
/// entry, one position later, keeping the preserved draft
pub proof fn lemma_history_next_moves_one_newer(state: ComposerModel, history: HistoryModel, index: nat)
    requires
        has_unique_ids(history),
        index + 1 < history.len(),
        state.index == Some(index),
        state.entry == Some(history[index as int].0),
    ensures
        spec_history_next(state, history) == Some(
            ComposerModel {
                text: at_end_model(history[index + 1int].1),
                index: Some(index + 1),
                entry: Some(history[index + 1int].0),
                draft: state.draft,
            },
        ),
{
    lemma_history_position_of_entry(history, index as int);
}

/// While browsing entry `index` with an older entry before it, recalling the older entry and
/// then moving forward shows entry `index` again, with the same draft preserved
pub proof fn lemma_history_previous_then_next_returns(
    state: ComposerModel,
    history: HistoryModel,
    index: nat,
)
    requires
        has_unique_ids(history),
        0 < index < history.len(),
        state.index == Some(index),
        state.entry == Some(history[index as int].0),
        state.draft is Some,
    ensures
        spec_history_previous(state, history) matches Some(older) && older.index == Some(
            (index - 1) as nat,
        ) && older.entry == Some(history[index - 1].0) && older.text == at_end_model(
            history[index - 1].1,
        ) && spec_history_next(older, history) == Some(
            ComposerModel {
                text: at_end_model(history[index as int].1),
                index: Some(index),
                entry: Some(history[index as int].0),
                draft: state.draft,
            },
        ),
{
    lemma_history_position_of_entry(history, index as int);
    lemma_history_position_of_entry(history, index - 1);
    let older = spec_history_previous(state, history)->Some_0;
    lemma_history_next_moves_one_newer(older, history, (index - 1) as nat);
}

} // verus!
