use vstd::prelude::*;

verus! {

/// Complete basis-point range used by [`SplitPaneState`]
pub const SPLIT_PANE_RATIO_SCALE: u16 = 10_000;

/// Controlled primary-pane share of a split pane
#[derive(Clone, Copy, Debug, PartialEq, Eq, Structural, Hash)]
pub struct SplitPaneState {
    ratio: u16,
}

impl SplitPaneState {
    #[verifier::type_invariant]
    spec fn ratio_in_scale(self) -> bool {
        self.ratio <= SPLIT_PANE_RATIO_SCALE
    }

    /// The primary-pane share in basis points
    pub closed spec fn spec_ratio(self) -> int {
        self.ratio as int
    }

    /// Creates state from a primary-pane share in basis points
    ///
    /// Values above 10,000 are clamped to 10,000
    pub fn new(ratio: u16) -> (state: Self)
        ensures
            state.spec_ratio() == if ratio > SPLIT_PANE_RATIO_SCALE {
                SPLIT_PANE_RATIO_SCALE as int
            } else {
                ratio as int
            },
    {
        Self {
            ratio: if ratio > SPLIT_PANE_RATIO_SCALE {
                SPLIT_PANE_RATIO_SCALE
            } else {
                ratio
            },
        }
    }

    /// Returns the controlled primary-pane share in basis points
    pub fn ratio(self) -> (ratio: u16)
        ensures
            ratio == self.spec_ratio(),
            ratio <= SPLIT_PANE_RATIO_SCALE,
    {
        proof {
            use_type_invariant(self);
        }
        self.ratio
    }

    /// The state after one keyboard resize step, clamped to the scale
    pub fn moved(self, toward_end: bool, step: u16) -> (state: Self)
        ensures
            state.spec_ratio() == if toward_end {
                if self.spec_ratio() + step > SPLIT_PANE_RATIO_SCALE {
                    SPLIT_PANE_RATIO_SCALE as int
                } else {
                    self.spec_ratio() + step
                }
            } else {
                if self.spec_ratio() < step {
                    0
                } else {
                    self.spec_ratio() - step
                }
            },
    {
        proof {
            use_type_invariant(self);
        }
        if toward_end {
            Self::new(self.ratio.saturating_add(step))
        } else {
            Self::new(self.ratio.saturating_sub(step))
        }
    }
}

impl Default for SplitPaneState {
    fn default() -> (state: Self)
        ensures
            state.spec_ratio() == 5_000,
    {
        Self::new(5_000)
    }
}

/// The larger of a minimum and one cell
pub open spec fn pane_minimum(minimum: int) -> int {
    if minimum < 1 {
        1
    } else {
        minimum
    }
}

/// The divider cell for a pane size, absent when both minimum panes and the divider do not fit
pub open spec fn spec_split_divider_position(
    main: int,
    ratio: int,
    primary_minimum: int,
    secondary_minimum: int,
) -> Option<int> {
    let primary = pane_minimum(primary_minimum);
    let secondary = pane_minimum(secondary_minimum);
    if main < primary + 1 + secondary {
        None
    } else {
        let usable = main - 1;
        let ideal = usable * ratio / SPLIT_PANE_RATIO_SCALE as int;
        Some(
            if ideal < primary {
                primary
            } else if ideal > usable - secondary {
                usable - secondary
            } else {
                ideal
            },
        )
    }
}

/// The share that puts the divider at a pointer position, rounded up, absent for panes
/// without room
pub open spec fn spec_pointer_ratio(position: int, main: int) -> Option<int> {
    if main < 2 {
        None
    } else {
        let usable = main - 1;
        let cell = if position < 0 {
            0
        } else if position > usable {
            usable
        } else {
            position
        };
        Some((cell * SPLIT_PANE_RATIO_SCALE as int + usable - 1) / usable)
    }
}

/// Places the divider between the two panes of a split of `main` cells
pub fn split_divider_position(
    main: u32,
    state: SplitPaneState,
    primary_minimum: u32,
    secondary_minimum: u32,
) -> (position: Option<u32>)
    ensures
        position matches Some(cell) ==> spec_split_divider_position(
            main as int,
            state.spec_ratio(),
            primary_minimum as int,
            secondary_minimum as int,
        ) == Some(cell as int),
        position is None ==> spec_split_divider_position(
            main as int,
            state.spec_ratio(),
            primary_minimum as int,
            secondary_minimum as int,
        ) is None,
{
    let primary_minimum = if primary_minimum < 1 {
        1
    } else {
        primary_minimum
    };
    let secondary_minimum = if secondary_minimum < 1 {
        1
    } else {
        secondary_minimum
    };
    let required = primary_minimum as u64 + 1 + secondary_minimum as u64;
    if (main as u64) < required {
        return None;
    }
    let usable = main - 1;
    let ratio = state.ratio();
    assert(usable as u64 * ratio as u64 <= usable as u64 * SPLIT_PANE_RATIO_SCALE as u64) by (
    nonlinear_arith)
        requires
            ratio <= SPLIT_PANE_RATIO_SCALE,
    ;
    assert(usable as u64 * SPLIT_PANE_RATIO_SCALE as u64 <= 0xffff_ffff * 10_000) by (
    nonlinear_arith)
        requires
            usable <= 0xffff_ffff,
    ;
    let ideal = usable as u64 * ratio as u64 / SPLIT_PANE_RATIO_SCALE as u64;
    assert(ideal <= usable) by (nonlinear_arith)
        requires
            ideal as int == (usable as int * ratio as int) / 10_000,
            ratio <= 10_000,
    ;
    let ideal = ideal as u32;
    let low = primary_minimum;
    let high = usable - secondary_minimum;
    Some(
        if ideal < low {
            low
        } else if ideal > high {
            high
        } else {
            ideal
        },
    )
}

/// The state that puts the divider at a pointer position along `main` cells
pub fn pointer_ratio(position: i32, main: u32) -> (state: Option<SplitPaneState>)
    ensures
        state matches Some(s) ==> spec_pointer_ratio(position as int, main as int) == Some(
            s.spec_ratio(),
        ),
        state is None ==> spec_pointer_ratio(position as int, main as int) is None,
{
    if main < 2 {
        return None;
    }
    let usable = main - 1;
    let cell: u32 = if position < 0 {
        0
    } else if position as u32 > usable {
        usable
    } else {
        position as u32
    };
    assert(cell as u64 * 10_000 <= usable as u64 * 10_000) by (nonlinear_arith)
        requires
            cell <= usable,
    ;
    let ratio = (cell as u64 * SPLIT_PANE_RATIO_SCALE as u64 + (usable as u64 - 1)) / usable as u64;
    assert(ratio <= 10_000) by (nonlinear_arith)
        requires
            ratio as int == (cell as int * 10_000 + (usable as int - 1)) / (usable as int),
            cell <= usable,
            usable >= 1,
    ;
    Some(SplitPaneState::new(ratio as u16))
}

/// A pointer position turned into a share puts the divider back under the pointer, within
/// the pane minimums, whenever the panes fit and the split is at most as many cells as the
/// share has basis points
pub proof fn lemma_pointer_ratio_round_trip(
    position: int,
    main: int,
    primary_minimum: int,
    secondary_minimum: int,
)
    requires
        pane_minimum(primary_minimum) + 1 + pane_minimum(secondary_minimum) <= main,
        main - 1 <= SPLIT_PANE_RATIO_SCALE,
    ensures
        ({
            let usable = main - 1;
            let cell = if position < 0 {
                0
            } else if position > usable {
                usable
            } else {
                position
            };
            let low = pane_minimum(primary_minimum);
            let high = usable - pane_minimum(secondary_minimum);
            spec_pointer_ratio(position, main) matches Some(ratio) && spec_split_divider_position(
                main,
                ratio,
                primary_minimum,
                secondary_minimum,
            ) == Some(
                if cell < low {
                    low
                } else if cell > high {
                    high
                } else {
                    cell
                },
            )
        }),
{
    let usable = main - 1;
    let cell = if position < 0 {
        0
    } else if position > usable {
        usable
    } else {
        position
    };
    let scale = SPLIT_PANE_RATIO_SCALE as int;
    let ratio = (cell * scale + usable - 1) / usable;
    assert(cell * scale <= usable * ratio && usable * ratio < (cell + 1) * scale) by (
    nonlinear_arith)
        requires
            usable >= 1,
            usable <= scale,
            scale == 10_000,
            ratio == (cell * scale + usable - 1) / usable,
            0 <= cell,
    {
        assert(usable * ratio <= cell * scale + usable - 1);
        assert(usable * ratio > cell * scale + usable - 1 - usable);
    }
    assert(usable * ratio / scale == cell) by (nonlinear_arith)
        requires
            cell * scale <= usable * ratio,
            usable * ratio < (cell + 1) * scale,
            scale == 10_000,
            0 <= cell,
    ;
}

} // verus!
