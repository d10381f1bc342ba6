use vstd::prelude::*;

verus! {

/// Viewport edge from which a drawer is presented
#[derive(Clone, Copy, Debug, PartialEq, Eq, Structural, Hash)]
pub enum DrawerSide {
    /// Presented against the left edge
    Left,
    /// Presented against the right edge
    Right,
    /// Presented against the top edge
    Top,
    /// Presented against the bottom edge
    Bottom,
}

impl Default for DrawerSide {
    fn default() -> (side: Self)
        ensures
            side == DrawerSide::Left,
    {
        DrawerSide::Left
    }
}

} // verus!
