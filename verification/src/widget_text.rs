use vstd::prelude::*;

use crate::navigation::{Navigation, navigate, normalize_selection, spec_navigate, spec_normalize_selection};
use crate::scale::{scaled_bar_cells, spec_scaled_bar_cells};
use crate::text::{push_spaces, spaces};

verus! {

/// The text of a checkbox: `[x]` when checked, `[ ]` otherwise, a space, then the label
pub open spec fn spec_checkbox_text(label: Seq<char>, checked: bool) -> Seq<char> {
    seq![
        '[',
        if checked {
            'x'
        } else {
            ' '
        },
        ']',
        ' ',
    ] + label
}

/// Builds the text of a checkbox
pub fn checkbox_text(label: &str, checked: bool) -> (text: String)
    ensures
        text@ == spec_checkbox_text(label@, checked),
{
    let mut text = String::new();
    text.push('[');
    text.push(
        if checked {
            'x'
        } else {
            ' '
        },
    );
    text.push(']');
    text.push(' ');
    text.push_str(label);
    text
}

/// The text of a radio option: `(o)` when selected, `( )` otherwise, a space, then the label
pub open spec fn spec_radio_text(label: Seq<char>, selected: bool) -> Seq<char> {
    seq![
        '(',
        if selected {
            'o'
        } else {
            ' '
        },
        ')',
        ' ',
    ] + label
}

/// Builds the text of a radio option
pub fn radio_text(label: &str, selected: bool) -> (text: String)
    ensures
        text@ == spec_radio_text(label@, selected),
{
    let mut text = String::new();
    text.push('(');
    text.push(
        if selected {
            'o'
        } else {
            ' '
        },
    );
    text.push(')');
    text.push(' ');
    text.push_str(label);
    text
}

/// The text of a button: its label between `[ ` and ` ]`
pub open spec fn spec_button_text(label: Seq<char>) -> Seq<char> {
    seq!['[', ' '] + label + seq![' ', ']']
}

/// Builds the text of a button
pub fn button_text(label: &str) -> (text: String)
    ensures
        text@ == spec_button_text(label@),
{
    let mut text = String::new();
    text.push('[');
    text.push(' ');
    text.push_str(label);
    text.push(' ');
    text.push(']');
    text
}

/// The marker before a disclosure summary: a down triangle when expanded, a right one when
/// collapsed, then a space
pub open spec fn spec_disclosure_marker(expanded: bool) -> Seq<char> {
    seq![
        if expanded {
            '▼'
        } else {
            '▶'
        },
        ' ',
    ]
}

/// Builds the marker before a disclosure summary
pub fn disclosure_marker(expanded: bool) -> (marker: String)
    ensures
        marker@ == spec_disclosure_marker(expanded),
{
    let mut marker = String::new();
    marker.push(
        if expanded {
            '▼'
        } else {
            '▶'
        },
    );
    marker.push(' ');
    marker
}

/// The text of a file picker row: a small triangle before a directory, two spaces before a
/// file, then the entry name
pub open spec fn spec_file_entry_text(name: Seq<char>, directory: bool) -> Seq<char> {
    (if directory {
        seq!['▸', ' ']
    } else {
        seq![' ', ' ']
    }) + name
}

/// Builds the text of a file picker row
pub fn file_entry_text(name: &str, directory: bool) -> (text: String)
    ensures
        text@ == spec_file_entry_text(name@, directory),
{
    let mut text = String::new();
    if directory {
        text.push('▸');
    } else {
        text.push(' ');
    }
    text.push(' ');
    text.push_str(name);
    text
}

/// The texts of a list of strings
pub open spec fn string_texts(values: Seq<String>) -> Seq<Seq<char>> {
    values.map_values(|value: String| value@)
}

/// The text of a selector: the selected option, clamped into the options, or the placeholder
/// when there are none, between `< ` and ` >`
pub open spec fn spec_select_text(options: Seq<Seq<char>>, selected: nat, placeholder: Seq<char>) -> Seq<char> {
    seq!['<', ' '] + (match spec_normalize_selection(options.len(), selected) {
        Some(index) => options[index as int],
        None => placeholder,
    }) + seq![' ', '>']
}

/// Builds the text of a selector
pub fn select_text(options: &[String], selected: usize, placeholder: &str) -> (text: String)
    ensures
        text@ == spec_select_text(string_texts(options@), selected as nat, placeholder@),
{
    let mut text = String::new();
    text.push('<');
    text.push(' ');
    match normalize_selection(options.len(), selected) {
        Some(index) => text.push_str(options[index].as_str()),
        None => text.push_str(placeholder),
    }
    text.push(' ');
    text.push('>');
    text
}

/// A selector action
#[derive(Clone, Copy, Debug, PartialEq, Eq, Structural)]
pub enum SelectAction {
    /// Cycles to the next option, the first after the last
    Activate,
    /// Moves to the previous option
    Previous,
    /// Moves to the next option
    Next,
    /// Moves to the first option
    First,
    /// Moves to the last option
    Last,
}

/// The option that a selector action moves to
pub open spec fn spec_select_target(action: SelectAction, count: nat, selected: nat) -> nat {
    match action {
        SelectAction::Activate => (selected + 1) % count,
        SelectAction::Previous => spec_navigate(count, selected, Navigation::Up).unwrap(),
        SelectAction::Next => spec_navigate(count, selected, Navigation::Down).unwrap(),
        SelectAction::First => spec_navigate(count, selected, Navigation::Home).unwrap(),
        SelectAction::Last => spec_navigate(count, selected, Navigation::End).unwrap(),
    }
}

/// The option a selector reports after an action on the option at `selected` of `count`
/// options; `None` when the action keeps the selection
pub fn select_action_selection(action: SelectAction, count: usize, selected: usize) -> (next: Option<usize>)
    requires
        selected < count,
    ensures
        ({
            let target = spec_select_target(action, count as nat, selected as nat);
            &&& target < count
            &&& next == (if target == selected {
                None
            } else {
                Some(target as usize)
            })
        }),
{
    let target = match action {
        SelectAction::Activate => (selected + 1) % count,
        SelectAction::Previous => navigate(count, selected, Navigation::Up).unwrap(),
        SelectAction::Next => navigate(count, selected, Navigation::Down).unwrap(),
        SelectAction::First => navigate(count, selected, Navigation::Home).unwrap(),
        SelectAction::Last => navigate(count, selected, Navigation::End).unwrap(),
    };
    if target == selected {
        None
    } else {
        Some(target)
    }
}

/// The largest of `values`, zero when there are none
pub open spec fn largest(values: Seq<u64>) -> u64
    decreases values.len(),
{
    if values.len() == 0 {
        0
    } else {
        let rest = largest(values.drop_last());
        if values.last() > rest {
            values.last()
        } else {
            rest
        }
    }
}

/// The value a bar chart scales its bars against: the configured maximum, else the largest
/// bar value
pub open spec fn spec_bar_chart_maximum(values: Seq<u64>, maximum: Option<u64>) -> u64 {
    match maximum {
        Some(maximum) => maximum,
        None => largest(values),
    }
}

/// Computes the value a bar chart scales its bars against
pub fn bar_chart_maximum(values: &[u64], maximum: Option<u64>) -> (result: u64)
    ensures
        result == spec_bar_chart_maximum(values@, maximum),
{
    if let Some(maximum) = maximum {
        return maximum;
    }
    let mut result: u64 = 0;
    let mut index: usize = 0;
    proof {
        assert(values@.take(0) =~= Seq::<u64>::empty());
    }
    while index < values.len()
        invariant
            0 <= index <= values@.len(),
            result == largest(values@.take(index as int)),
        decreases values@.len() - index,
    {
        proof {
            assert(values@.take(index + 1).drop_last() =~= values@.take(index as int));
        }
        if values[index] > result {
            result = values[index];
        }
        index = index + 1;
    }
    proof {
        assert(values@.take(values@.len() as int) =~= values@);
    }
    result
}

/// The filled and empty cells of one bar of `width` cells
pub fn bar_cells(value: u64, maximum: u64, width: u16) -> (cells: (usize, usize))
    ensures
        cells.0 == spec_scaled_bar_cells(value, maximum, width),
        cells.0 + cells.1 == width,
{
    let filled = scaled_bar_cells(value, maximum, width);
    (filled, width as usize - filled)
}

/// The widest of the display widths, zero when there are none
pub open spec fn widest(widths: Seq<usize>) -> usize
    decreases widths.len(),
{
    if widths.len() == 0 {
        0
    } else {
        let rest = widest(widths.drop_last());
        if widths.last() > rest {
            widths.last()
        } else {
            rest
        }
    }
}

/// Computes the width of a column holding texts of the given display widths
pub fn column_width(widths: &[usize]) -> (width: usize)
    ensures
        width == widest(widths@),
{
    let mut width: usize = 0;
    let mut index: usize = 0;
    proof {
        assert(widths@.take(0) =~= Seq::<usize>::empty());
    }
    while index < widths.len()
        invariant
            0 <= index <= widths@.len(),
            width == widest(widths@.take(index as int)),
        decreases widths@.len() - index,
    {
        proof {
            assert(widths@.take(index + 1).drop_last() =~= widths@.take(index as int));
        }
        if widths[index] > width {
            width = widths[index];
        }
        index = index + 1;
    }
    proof {
        assert(widths@.take(widths@.len() as int) =~= widths@);
    }
    width
}

/// `text`, whose display width is `text_width`, padded with spaces to `column` cells
pub open spec fn spec_padded_text(text: Seq<char>, text_width: nat, column: nat) -> Seq<char> {
    if text_width >= column {
        text
    } else {
        text + spaces((column - text_width) as nat)
    }
}

/// Pads a text of display width `text_width` with spaces to a column of `column` cells
pub fn padded_text(text: &str, text_width: usize, column: usize) -> (padded: String)
    ensures
        padded@ == spec_padded_text(text@, text_width as nat, column as nat),
{
    let mut padded = String::new();
    padded.push_str(text);
    if text_width < column {
        push_spaces(&mut padded, column - text_width);
    }
    proof {
        if text_width >= column {
            assert(padded@ =~= text@);
        } else {
            assert(padded@ =~= text@ + spaces((column - text_width) as nat));
        }
    }
    padded
}

/// The style role of a row in a list, table or command palette
#[derive(Clone, Copy, Debug, PartialEq, Eq, Structural)]
pub enum RowRole {
    /// An enabled row that is not selected
    Normal,
    /// The selected row of an enabled collection
    Selected,
    /// Any row of a disabled collection
    Disabled,
}

/// Chooses the style role of a row: disabled collections style every row as disabled, and
/// enabled ones mark the selected row
pub fn row_role(enabled: bool, selected: bool) -> (role: RowRole)
    ensures
        role == (if !enabled {
            RowRole::Disabled
        } else if selected {
            RowRole::Selected
        } else {
            RowRole::Normal
        }),
{
    if !enabled {
        RowRole::Disabled
    } else if selected {
        RowRole::Selected
    } else {
        RowRole::Normal
    }
}

/// `largest` is at least every value and, for values present, one of them
proof fn lemma_largest_bounds(values: Seq<u64>)
    ensures
        forall|index: int| 0 <= index < values.len() ==> values[index] <= largest(values),
        values.len() == 0 ==> largest(values) == 0,
        values.len() > 0 ==> exists|index: int| 0 <= index < values.len() && values[index] == largest(values),
    decreases values.len(),
{
    if values.len() > 0 {
        let rest = values.drop_last();
        lemma_largest_bounds(rest);
        assert forall|index: int| 0 <= index < values.len() implies values[index] <= largest(values) by {
            if index < rest.len() {
                assert(values[index] == rest[index]);
            }
        }
        if values.last() <= largest(rest) && rest.len() > 0 {
            let index = choose|index: int| 0 <= index < rest.len() && rest[index] == largest(rest);
            assert(values[index] == rest[index]);
        } else {
            assert(values[values.len() - 1] == values.last());
        }
    }
}

/// A configured maximum is used as it is; otherwise the bars are scaled against their largest
/// value: no bar exceeds it, some bar reaches it, and it is zero without bars
pub proof fn lemma_bar_chart_maximum_is_largest(values: Seq<u64>, maximum: Option<u64>)
    ensures
        maximum matches Some(configured) ==> spec_bar_chart_maximum(values, maximum) == configured,
        maximum is None ==> forall|index: int|
            0 <= index < values.len() ==> values[index] <= spec_bar_chart_maximum(values, maximum),
        maximum is None && values.len() > 0 ==> exists|index: int|
            0 <= index < values.len() && values[index] == spec_bar_chart_maximum(values, maximum),
        maximum is None && values.len() == 0 ==> spec_bar_chart_maximum(values, maximum) == 0,
{
    lemma_largest_bounds(values);
}

} // verus!
