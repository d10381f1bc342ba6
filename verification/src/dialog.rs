use vstd::prelude::*;

verus! {

/// The explicit default action of a confirmation dialog
#[derive(Clone, Copy, Debug, PartialEq, Eq, Structural, Hash)]
pub enum ConfirmDialogDefault {
    /// The confirm action is the default
    Confirm,
    /// The cancel action is the default
    Cancel,
}

/// `value`, stopping at `u32::MAX`
pub open spec fn saturating_u32(value: int) -> nat {
    if value > u32::MAX {
        u32::MAX as nat
    } else {
        value as nat
    }
}

/// The width of an action button: its label between `[ ` and ` ]`
pub open spec fn button_width(label_width: u32) -> nat {
    saturating_u32(label_width + 4)
}

/// Rows completed so far, the open row, and the cells the open row uses
pub type ActionRowsState = (Seq<Seq<nat>>, Seq<nat>, nat);

/// Places action `index`: it opens a new row when the open row is not empty and the button
/// with its one-cell gap would pass the wrap width
pub open spec fn place_action(
    state: ActionRowsState,
    index: nat,
    label_width: u32,
    wrap_width: Option<u32>,
) -> ActionRowsState {
    let width = button_width(label_width);
    let required = if state.1.len() == 0 {
        width
    } else {
        saturating_u32(saturating_u32(state.2 as int + 1) as int + width as int)
    };
    let wraps = state.1.len() > 0 && match wrap_width {
        Some(limit) => required > limit,
        None => false,
    };
    let opened: ActionRowsState = if wraps {
        (state.0.push(state.1), Seq::empty(), 0)
    } else {
        state
    };
    let spaced = if opened.1.len() > 0 {
        saturating_u32(opened.2 as int + 1)
    } else {
        opened.2
    };
    (opened.0, opened.1.push(index), saturating_u32(spaced as int + width as int))
}

/// The placement after the first actions, in order
pub open spec fn place_actions(label_widths: Seq<u32>, wrap_width: Option<u32>) -> ActionRowsState
    decreases label_widths.len(),
{
    if label_widths.len() == 0 {
        (Seq::empty(), Seq::empty(), 0)
    } else {
        place_action(
            place_actions(label_widths.drop_last(), wrap_width),
            (label_widths.len() - 1) as nat,
            label_widths.last(),
            wrap_width,
        )
    }
}

/// Rows of action indices: actions fill a row left to right, one cell apart, and a button
/// that would pass the wrap width starts the next row
pub open spec fn spec_dialog_action_rows(label_widths: Seq<u32>, wrap_width: Option<u32>) -> Seq<
    Seq<nat>,
> {
    let placed = place_actions(label_widths, wrap_width);
    if placed.1.len() > 0 {
        placed.0.push(placed.1)
    } else {
        placed.0
    }
}

/// Action indices of rows, concatenated in order
pub open spec fn flatten_rows(rows: Seq<Seq<nat>>) -> Seq<nat>
    decreases rows.len(),
{
    if rows.len() == 0 {
        Seq::empty()
    } else {
        flatten_rows(rows.drop_last()) + rows.last()
    }
}

/// Cells a row of buttons uses: the buttons and one cell between neighbours
pub open spec fn row_cells(label_widths: Seq<u32>, row: Seq<nat>) -> nat
    decreases row.len(),
{
    if row.len() == 0 {
        0
    } else if row.len() == 1 {
        button_width(label_widths[row[0] as int])
    } else {
        saturating_u32(
            saturating_u32(row_cells(label_widths, row.drop_last()) as int + 1) as int
                + button_width(label_widths[row.last() as int]) as int,
        )
    }
}

/// A row fits when it holds one button or stays within the wrap width
pub open spec fn row_fits(label_widths: Seq<u32>, row: Seq<nat>, wrap_width: Option<u32>) -> bool {
    match wrap_width {
        Some(limit) => row.len() == 1 || row_cells(label_widths, row) <= limit,
        None => true,
    }
}

/// What placing the first `count` actions keeps
pub open spec fn placement_holds(
    label_widths: Seq<u32>,
    wrap_width: Option<u32>,
    count: nat,
    state: ActionRowsState,
) -> bool {
    &&& flatten_rows(state.0) + state.1 == Seq::new(count, |i: int| i as nat)
    &&& state.2 == row_cells(label_widths, state.1)
    &&& forall|r: int| 0 <= r < state.0.len() ==> (#[trigger] state.0[r]).len() > 0
    &&& forall|r: int|
        0 <= r < state.0.len() ==> row_fits(label_widths, #[trigger] state.0[r], wrap_width)
    &&& row_fits(label_widths, state.1, wrap_width) || state.1.len() == 0
}

proof fn lemma_placement(label_widths: Seq<u32>, wrap_width: Option<u32>, count: nat)
    requires
        count <= label_widths.len(),
    ensures
        placement_holds(
            label_widths,
            wrap_width,
            count,
            place_actions(label_widths.take(count as int), wrap_width),
        ),
    decreases count,
{
    let prefix = label_widths.take(count as int);
    if count == 0 {
        assert(Seq::new(0, |i: int| i as nat) =~= Seq::<nat>::empty());
        assert(flatten_rows(Seq::<Seq<nat>>::empty()) + Seq::<nat>::empty() =~= Seq::<nat>::empty());
    } else {
        lemma_placement(label_widths, wrap_width, (count - 1) as nat);
        assert(prefix.drop_last() =~= label_widths.take(count - 1));
        let state = place_actions(label_widths.take(count - 1), wrap_width);
        let index = (count - 1) as nat;
        let width = button_width(label_widths[index as int]);
        let next = place_action(state, index, label_widths[index as int], wrap_width);
        assert(place_actions(prefix, wrap_width) == next);
        let required = if state.1.len() == 0 {
            width
        } else {
            saturating_u32(saturating_u32(state.2 as int + 1) as int + width as int)
        };
        let wraps = state.1.len() > 0 && match wrap_width {
            Some(limit) => required > limit,
            None => false,
        };
        let all = Seq::new(count, |i: int| i as nat);
        let before = Seq::new((count - 1) as nat, |i: int| i as nat);
        assert(all =~= before.push(index));
        if wraps {
            assert(state.0.push(state.1).drop_last() =~= state.0);
            assert(flatten_rows(next.0) + next.1 =~= all);
            assert(next.1 =~= seq![index]);
            assert(row_cells(label_widths, seq![index]) == width);
            assert forall|r: int| 0 <= r < next.0.len() implies (#[trigger] next.0[r]).len() > 0 by {
                if r < state.0.len() {
                    assert(next.0[r] == state.0[r]);
                }
            }
            assert forall|r: int| 0 <= r < next.0.len() implies row_fits(
                label_widths,
                #[trigger] next.0[r],
                wrap_width,
            ) by {
                if r < state.0.len() {
                    assert(next.0[r] == state.0[r]);
                }
            }
        } else {
            assert(next.0 == state.0);
            assert(next.1 == state.1.push(index));
            assert(flatten_rows(next.0) + next.1 =~= all);
            assert(next.1.drop_last() =~= state.1);
            if state.1.len() == 0 {
                assert(next.1 =~= seq![index]);
            }
        }
    }
}

/// Laying out action buttons keeps every action once and in order, leaves no row empty, and
/// keeps every row of two or more buttons within the wrap width
pub proof fn lemma_dialog_action_rows(label_widths: Seq<u32>, wrap_width: Option<u32>)
    ensures
        ({
            let rows = spec_dialog_action_rows(label_widths, wrap_width);
            &&& flatten_rows(rows) == Seq::new(label_widths.len(), |i: int| i as nat)
            &&& forall|r: int| 0 <= r < rows.len() ==> (#[trigger] rows[r]).len() > 0
            &&& forall|r: int|
                0 <= r < rows.len() ==> row_fits(label_widths, #[trigger] rows[r], wrap_width)
        }),
{
    lemma_placement(label_widths, wrap_width, label_widths.len());
    assert(label_widths.take(label_widths.len() as int) =~= label_widths);
    let placed = place_actions(label_widths, wrap_width);
    let rows = spec_dialog_action_rows(label_widths, wrap_width);
    if placed.1.len() > 0 {
        assert(placed.0.push(placed.1).drop_last() =~= placed.0);
        assert forall|r: int| 0 <= r < rows.len() implies (#[trigger] rows[r]).len() > 0
            && row_fits(label_widths, rows[r], wrap_width) by {
            if r < placed.0.len() {
                assert(rows[r] == placed.0[r]);
            }
        }
    } else {
        assert(flatten_rows(placed.0) + placed.1 =~= flatten_rows(placed.0));
    }
}

/// Lays out dialog action buttons, given the terminal width of each label, as rows of action
/// indices
pub fn dialog_action_rows(label_widths: &[u32], wrap_width: Option<u32>) -> (rows: Vec<Vec<usize>>)
    ensures
        rows@.len() == spec_dialog_action_rows(label_widths@, wrap_width).len(),
        forall|r: int|
            0 <= r < rows@.len() ==> (#[trigger] rows@[r])@.map_values(|index: usize| index as nat)
                == spec_dialog_action_rows(label_widths@, wrap_width)[r],
{
    let ghost widths = label_widths@;
    let mut rows: Vec<Vec<usize>> = Vec::new();
    let mut row: Vec<usize> = Vec::new();
    let mut used: u32 = 0;
    let mut index: usize = 0;
    while index < label_widths.len()
        invariant
            0 <= index <= widths.len(),
            widths == label_widths@,
            ({
                let placed = place_actions(widths.take(index as int), wrap_width);
                &&& rows@.len() == placed.0.len()
                &&& forall|r: int|
                    0 <= r < rows@.len() ==> (#[trigger] rows@[r])@.map_values(
                        |value: usize| value as nat,
                    ) == placed.0[r]
                &&& row@.map_values(|value: usize| value as nat) == placed.1
                &&& used == placed.2
            }),
        decreases widths.len() - index,
    {
        proof {
            assert(widths.take(index + 1).drop_last() =~= widths.take(index as int));
            assert(widths.take(index + 1).last() == widths[index as int]);
        }
        let ghost before_rows = rows@;
        let ghost before_row = row@;
        let width = label_widths[index].saturating_add(4);
        let required = if row.len() == 0 {
            width
        } else {
            used.saturating_add(1).saturating_add(width)
        };
        let wraps = row.len() > 0 && match wrap_width {
            Some(limit) => required > limit,
            None => false,
        };
        if wraps {
            let mut complete: Vec<usize> = Vec::new();
            std::mem::swap(&mut complete, &mut row);
            rows.push(complete);
            used = 0;
        }
        if row.len() > 0 {
            used = used.saturating_add(1);
        }
        row.push(index);
        used = used.saturating_add(width);
        proof {
            let placed = place_actions(widths.take(index as int), wrap_width);
            let next = place_actions(widths.take(index + 1), wrap_width);
            assert(next == place_action(placed, index as nat, widths[index as int], wrap_width));
            assert(row@.map_values(|value: usize| value as nat) =~= next.1);
            assert forall|r: int| 0 <= r < rows@.len() implies (#[trigger] rows@[r])@.map_values(
                |value: usize| value as nat,
            ) == next.0[r] by {
                if r < before_rows.len() {
                    assert(rows@[r] == before_rows[r]);
                } else {
                    assert(rows@[r]@ == before_row);
                }
            }
        }
        index = index + 1;
    }
    proof {
        assert(widths.take(widths.len() as int) =~= widths);
    }
    let ghost before_rows = rows@;
    let ghost before_row = row@;
    if row.len() > 0 {
        rows.push(row);
    }
    proof {
        let result = spec_dialog_action_rows(widths, wrap_width);
        assert forall|r: int| 0 <= r < rows@.len() implies (#[trigger] rows@[r])@.map_values(
            |value: usize| value as nat,
        ) == result[r] by {
            if r < before_rows.len() {
                assert(rows@[r] == before_rows[r]);
            } else {
                assert(rows@[r]@ == before_row);
            }
        }
    }
    rows
}

} // verus!
