use vstd::prelude::*;

verus! {

/// Selection movement inside a vertical collection
#[derive(Clone, Copy, Debug, PartialEq, Eq, Structural)]
pub enum Navigation {
    /// Clamps the selection into the collection
    Normalize,
    /// Moves one item toward the start
    Up,
    /// Moves one item toward the end
    Down,
    /// Selects the first item
    Home,
    /// Selects the last item
    End,
}

/// The selection clamped into `0..count`, absent for an empty collection
pub open spec fn spec_normalize_selection(count: nat, selected: nat) -> Option<nat> {
    if count == 0 {
        None
    } else if selected < count {
        Some(selected)
    } else {
        Some((count - 1) as nat)
    }
}

/// The selection after one navigation step, absent for an empty collection
pub open spec fn spec_navigate(count: nat, selected: nat, action: Navigation) -> Option<nat> {
    match spec_normalize_selection(count, selected) {
        None => None,
        Some(s) => Some(
            match action {
                Navigation::Normalize => s,
                Navigation::Up => if s == 0 { 0 } else { (s - 1) as nat },
                Navigation::Down => if s + 1 < count { s + 1 } else { (count - 1) as nat },
                Navigation::Home => 0,
                Navigation::End => (count - 1) as nat,
            },
        ),
    }
}

/// Clamps a selection into a collection of `count` items
pub fn normalize_selection(count: usize, selected: usize) -> (result: Option<usize>)
    ensures
        result matches Some(r) ==> spec_normalize_selection(count as nat, selected as nat) == Some(r as nat),
        result is None <==> count == 0,
{
    if count == 0 {
        None
    } else if selected < count {
        Some(selected)
    } else {
        Some(count - 1)
    }
}

/// Moves a selection inside a collection of `count` items
pub fn navigate(count: usize, selected: usize, action: Navigation) -> (result: Option<usize>)
    ensures
        result is None <==> count == 0,
        result matches Some(r) ==> spec_navigate(count as nat, selected as nat, action) == Some(r as nat)
            && r < count,
{
    let selected = match normalize_selection(count, selected) {
        None => return None,
        Some(s) => s,
    };
    Some(
        match action {
            Navigation::Normalize => selected,
            Navigation::Up => selected.saturating_sub(1),
            Navigation::Down => if selected + 1 < count { selected + 1 } else { count - 1 },
            Navigation::Home => 0,
            Navigation::End => count - 1,
        },
    )
}

} // verus!
