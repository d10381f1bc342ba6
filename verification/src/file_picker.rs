use vstd::prelude::*;

verus! {

/// Application-supplied inert filesystem metadata; the picker never reads the path
#[derive(Debug, PartialEq, Eq)]
pub struct FilePickerEntry {
    id: String,
    name: String,
    path: String,
    directory: bool,
    hidden: bool,
}

/// Identity, name, path, directory flag, and hidden flag of an entry
pub type FilePickerEntryModel = (Seq<char>, Seq<char>, Seq<char>, bool, bool);

impl View for FilePickerEntry {
    type V = FilePickerEntryModel;

    closed spec fn view(&self) -> FilePickerEntryModel {
        (self.id@, self.name@, self.path@, self.directory, self.hidden)
    }
}

impl FilePickerEntry {
    /// Creates one visible file entry
    pub fn file(id: &str, name: &str, path: &str) -> (entry: Self)
        ensures
            entry@ == (id@, name@, path@, false, false),
    {
        FilePickerEntry {
            id: id.to_owned(),
            name: name.to_owned(),
            path: path.to_owned(),
            directory: false,
            hidden: false,
        }
    }

    /// Creates one visible directory entry
    pub fn directory(id: &str, name: &str, path: &str) -> (entry: Self)
        ensures
            entry@ == (id@, name@, path@, true, false),
    {
        FilePickerEntry {
            id: id.to_owned(),
            name: name.to_owned(),
            path: path.to_owned(),
            directory: true,
            hidden: false,
        }
    }

    /// Replaces whether the entry is hidden by default
    pub fn hidden(self, hidden: bool) -> (entry: Self)
        ensures
            entry@ == (self@.0, self@.1, self@.2, self@.3, hidden),
    {
        FilePickerEntry { hidden, ..self }
    }

    /// Returns the stable identity
    pub fn id(&self) -> (id: &str)
        ensures
            id@ == self@.0,
    {
        self.id.as_str()
    }

    /// Returns the displayed basename or label
    pub fn name(&self) -> (name: &str)
        ensures
            name@ == self@.1,
    {
        self.name.as_str()
    }

    /// Returns inert application metadata
    pub fn path(&self) -> (path: &str)
        ensures
            path@ == self@.2,
    {
        self.path.as_str()
    }

    /// Reports whether activation should navigate into the entry
    pub fn is_directory(&self) -> (directory: bool)
        ensures
            directory == self@.3,
    {
        self.directory
    }

    /// Reports whether the entry is hidden by default
    pub fn is_hidden(&self) -> (hidden: bool)
        ensures
            hidden == self@.4,
    {
        self.hidden
    }
}

/// Keyboard commands understood by a file picker
#[derive(Clone, Copy, Debug, PartialEq, Eq, Structural, Hash)]
pub enum FilePickerAction {
    /// Opens the selected entry
    Activate,
    /// Returns to the parent directory
    Back,
    /// Moves one entry up
    Previous,
    /// Moves one entry down
    Next,
    /// Moves one page up
    PreviousPage,
    /// Moves one page down
    NextPage,
    /// Selects the first entry
    First,
    /// Selects the last entry
    Last,
}

/// The position an action moves the selection to, absent without entries and for
/// activation and going back
pub open spec fn spec_position_for_action(
    selected: nat,
    count: nat,
    viewport_height: nat,
    action: FilePickerAction,
) -> Option<nat> {
    if count == 0 {
        None
    } else {
        let last = (count - 1) as nat;
        let current = if selected < last {
            selected
        } else {
            last
        };
        let step: nat = if viewport_height == 0 {
            if count < 10 {
                count
            } else {
                10
            }
        } else {
            viewport_height
        };
        match action {
            FilePickerAction::Previous => Some(
                if current > 0 {
                    (current - 1) as nat
                } else {
                    0
                },
            ),
            FilePickerAction::Next => Some(
                if current + 1 < last {
                    current + 1
                } else {
                    last
                },
            ),
            FilePickerAction::First => Some(0),
            FilePickerAction::Last => Some(last),
            FilePickerAction::PreviousPage => Some(
                if current > step {
                    (current - step) as nat
                } else {
                    0
                },
            ),
            FilePickerAction::NextPage => Some(
                if current + step < last {
                    current + step
                } else {
                    last
                },
            ),
            FilePickerAction::Activate | FilePickerAction::Back => None,
        }
    }
}

/// Moves the selection for one picker action
pub fn position_for_action(
    selected: usize,
    count: usize,
    viewport_height: usize,
    action: FilePickerAction,
) -> (position: Option<usize>)
    ensures
        position matches Some(p) ==> spec_position_for_action(
            selected as nat,
            count as nat,
            viewport_height as nat,
            action,
        ) == Some(p as nat) && p < count,
        position is None ==> spec_position_for_action(
            selected as nat,
            count as nat,
            viewport_height as nat,
            action,
        ) is None,
{
    if count == 0 {
        return None;
    }
    let last = count - 1;
    let current = if selected < last {
        selected
    } else {
        last
    };
    let step = if viewport_height == 0 {
        if count < 10 {
            count
        } else {
            10
        }
    } else {
        viewport_height
    };
    match action {
        FilePickerAction::Previous => Some(current.saturating_sub(1)),
        FilePickerAction::Next => Some(
            if current < last {
                current + 1
            } else {
                last
            },
        ),
        FilePickerAction::First => Some(0),
        FilePickerAction::Last => Some(last),
        FilePickerAction::PreviousPage => Some(current.saturating_sub(step)),
        FilePickerAction::NextPage => Some(
            if step < last - current {
                current + step
            } else {
                last
            },
        ),
        FilePickerAction::Activate | FilePickerAction::Back => None,
    }
}

/// What a file picker does with one command or pointer press
#[derive(Clone, Copy, Debug, PartialEq, Eq, Structural)]
pub enum FilePickerOutcome {
    /// The event passes through
    Ignored,
    /// The event is consumed and focuses the picker, with no message
    Consumed,
    /// Consumed, reporting the newly selected entry
    Select(usize),
    /// Consumed, asking to open the entry
    Open(usize),
    /// Consumed, reporting the entry as selected and asking to open it
    SelectAndOpen(usize),
    /// Consumed, asking to go back to the parent directory
    Back,
}

/// The outcome of a keyboard command on the shown entries `visible` (original entry indices)
/// with the selection at position `selected`: nothing is shown, or a missing open or back
/// handler, lets the event pass; a move reports the entry it lands on, and only when the
/// selection changes
pub open spec fn spec_file_picker_action_outcome(
    visible: Seq<usize>,
    selected: nat,
    viewport_height: nat,
    action: FilePickerAction,
    has_open: bool,
    has_back: bool,
) -> FilePickerOutcome {
    if visible.len() == 0 {
        FilePickerOutcome::Ignored
    } else {
        let current = if selected < visible.len() - 1 {
            selected
        } else {
            (visible.len() - 1) as nat
        };
        match action {
            FilePickerAction::Activate => if has_open {
                FilePickerOutcome::Open(visible[current as int])
            } else {
                FilePickerOutcome::Ignored
            },
            FilePickerAction::Back => if has_back {
                FilePickerOutcome::Back
            } else {
                FilePickerOutcome::Ignored
            },
            _ => {
                let position = spec_position_for_action(
                    current,
                    visible.len(),
                    viewport_height,
                    action,
                ).unwrap();
                if position == current {
                    FilePickerOutcome::Consumed
                } else {
                    FilePickerOutcome::Select(visible[position as int])
                }
            },
        }
    }
}

/// Decides what a keyboard command does on the shown entries
pub fn file_picker_action_outcome(
    visible: &[usize],
    selected: usize,
    viewport_height: usize,
    action: FilePickerAction,
    has_open: bool,
    has_back: bool,
) -> (outcome: FilePickerOutcome)
    ensures
        outcome == spec_file_picker_action_outcome(
            visible@,
            selected as nat,
            viewport_height as nat,
            action,
            has_open,
            has_back,
        ),
{
    if visible.len() == 0 {
        return FilePickerOutcome::Ignored;
    }
    let last = visible.len() - 1;
    let current = if selected < last {
        selected
    } else {
        last
    };
    match action {
        FilePickerAction::Activate => if has_open {
            FilePickerOutcome::Open(visible[current])
        } else {
            FilePickerOutcome::Ignored
        },
        FilePickerAction::Back => if has_back {
            FilePickerOutcome::Back
        } else {
            FilePickerOutcome::Ignored
        },
        _ => match position_for_action(current, visible.len(), viewport_height, action) {
            Some(position) => if position == current {
                FilePickerOutcome::Consumed
            } else {
                FilePickerOutcome::Select(visible[position])
            },
            None => FilePickerOutcome::Consumed,
        },
    }
}

/// Whether a picker command is offered as enabled: every command needs an available picker,
/// opening needs an open handler and going back a back handler
pub fn file_picker_action_enabled(
    action: FilePickerAction,
    available: bool,
    has_open: bool,
    has_back: bool,
) -> (enabled: bool)
    ensures
        enabled == (available && match action {
            FilePickerAction::Activate => has_open,
            FilePickerAction::Back => has_back,
            _ => true,
        }),
{
    available && match action {
        FilePickerAction::Activate => has_open,
        FilePickerAction::Back => has_back,
        _ => true,
    }
}

/// Decides what a pointer event on the row of entry `original_index` does: only an activation
/// is consumed; on the selected row it asks to open the entry, on another row it selects the
/// entry and, with an open handler, asks to open it too
pub fn file_picker_pointer_outcome(
    activates: bool,
    on_selected_row: bool,
    original_index: usize,
    has_open: bool,
) -> (outcome: FilePickerOutcome)
    ensures
        outcome == (if !activates {
            FilePickerOutcome::Ignored
        } else if on_selected_row {
            if has_open {
                FilePickerOutcome::Open(original_index)
            } else {
                FilePickerOutcome::Consumed
            }
        } else if has_open {
            FilePickerOutcome::SelectAndOpen(original_index)
        } else {
            FilePickerOutcome::Select(original_index)
        }),
{
    if !activates {
        FilePickerOutcome::Ignored
    } else if on_selected_row {
        if has_open {
            FilePickerOutcome::Open(original_index)
        } else {
            FilePickerOutcome::Consumed
        }
    } else if has_open {
        FilePickerOutcome::SelectAndOpen(original_index)
    } else {
        FilePickerOutcome::Select(original_index)
    }
}

/// Indices of the first `count` entries that are shown, in order
pub open spec fn shown_indices(entries: Seq<FilePickerEntryModel>, show_hidden: bool, count: int) -> Seq<
    usize,
>
    decreases count,
{
    if count <= 0 {
        Seq::empty()
    } else if show_hidden || !entries[count - 1].4 {
        shown_indices(entries, show_hidden, count - 1).push((count - 1) as usize)
    } else {
        shown_indices(entries, show_hidden, count - 1)
    }
}

/// The models of entries
pub open spec fn entry_models(entries: Seq<FilePickerEntry>) -> Seq<FilePickerEntryModel> {
    entries.map_values(|entry: FilePickerEntry| entry@)
}

/// An entry is shown when hidden entries are shown or it is not hidden
pub open spec fn is_shown(entry: FilePickerEntryModel, show_hidden: bool) -> bool {
    show_hidden || !entry.4
}

/// Reports whether any entry is shown
pub fn has_visible_entries(entries: &[FilePickerEntry], show_hidden: bool) -> (any: bool)
    ensures
        any == exists|index: int|
            0 <= index < entries@.len() && is_shown(#[trigger] entry_models(entries@)[index], show_hidden),
{
    let ghost models = entry_models(entries@);
    let mut index: usize = 0;
    while index < entries.len()
        invariant
            0 <= index <= entries@.len(),
            models == entry_models(entries@),
            forall|k: int| 0 <= k < index ==> !is_shown(#[trigger] models[k], show_hidden),
        decreases entries@.len() - index,
    {
        assert(models[index as int] == entries@[index as int]@);
        if show_hidden || !entries[index].hidden {
            assert(is_shown(models[index as int], show_hidden));
            return true;
        }
        index = index + 1;
    }
    false
}

/// Indices of the shown entries in order
pub fn visible_indices(entries: &[FilePickerEntry], show_hidden: bool) -> (indices: Vec<usize>)
    ensures
        indices@ == shown_indices(entry_models(entries@), show_hidden, entries@.len() as int),
{
    let ghost models = entry_models(entries@);
    let mut indices: Vec<usize> = Vec::new();
    let mut index: usize = 0;
    while index < entries.len()
        invariant
            0 <= index <= entries@.len(),
            models == entry_models(entries@),
            indices@ == shown_indices(models, show_hidden, index as int),
        decreases entries@.len() - index,
    {
        assert(models[index as int] == entries@[index as int]@);
        if show_hidden || !entries[index].hidden {
            indices.push(index);
        }
        index = index + 1;
    }
    indices
}

/// Maps an entry selection onto a position among the shown indices: the last shown entry
/// at or before the selection, else the first position
pub fn normalized_selection(visible: &[usize], selected: usize) -> (position: Option<usize>)
    ensures
        visible@.len() == 0 ==> position is None,
        visible@.len() > 0 ==> (position matches Some(p) && p < visible@.len()),
        position matches Some(p) ==> (visible@[p as int] <= selected && forall|later: int|
            p < later < visible@.len() ==> visible@[later] > selected) || (p == 0 && forall|k: int|
            0 <= k < visible@.len() ==> visible@[k] > selected),
{
    crate::list::normalized_list_selection(visible, selected)
}

/// The visible row range: every row when no height is set, else `height` rows centred on the
/// selection as far as the ends allow
pub open spec fn spec_viewport_range(count: nat, selected: nat, height: nat) -> (nat, nat) {
    if count == 0 || height == 0 {
        (0, count)
    } else {
        let rows = if height < count {
            height
        } else {
            count
        };
        let current = if selected < count {
            selected
        } else {
            (count - 1) as nat
        };
        let back = if current > rows / 2 {
            (current - rows / 2) as nat
        } else {
            0
        };
        let start = if back < count - rows {
            back
        } else {
            (count - rows) as nat
        };
        (start, start + rows)
    }
}

/// Chooses the visible row range
pub fn viewport_range(count: usize, selected: usize, height: usize) -> (range: (usize, usize))
    ensures
        (range.0 as nat, range.1 as nat) == spec_viewport_range(
            count as nat,
            selected as nat,
            height as nat,
        ),
        range.0 <= range.1 <= count,
{
    if count == 0 || height == 0 {
        return (0, count);
    }
    let rows = if height < count {
        height
    } else {
        count
    };
    let current = if selected < count {
        selected
    } else {
        count - 1
    };
    let back = current.saturating_sub(rows / 2);
    let start = if back < count - rows {
        back
    } else {
        count - rows
    };
    (start, start + rows)
}

} // verus!
