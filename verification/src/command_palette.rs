use vstd::prelude::*;

use crate::list::{label_contains, label_matches, text_bytes};
use crate::event::{InputEvent, KeyCode, spec_usable_key, usable_key};
use crate::navigation::{Navigation, navigate, spec_navigate};

verus! {

/// One searchable command
#[derive(Debug, PartialEq, Eq)]
pub struct Command {
    id: String,
    label: String,
    keywords: Vec<String>,
}

/// Identity, label, and extra search terms of a command
pub type CommandModel = (Seq<char>, Seq<char>, Seq<Seq<char>>);

impl View for Command {
    type V = CommandModel;

    closed spec fn view(&self) -> CommandModel {
        (self.id@, self.label@, self.keywords@.map_values(|keyword: String| keyword@))
    }
}

impl Command {
    /// Creates a command with an application-defined stable identity
    pub fn new(id: &str, label: &str) -> (command: Self)
        ensures
            command@ == (id@, label@, Seq::<Seq<char>>::empty()),
    {
        let command = Command { id: id.to_owned(), label: label.to_owned(), keywords: Vec::new() };
        assert(command.keywords@.map_values(|keyword: String| keyword@) =~= Seq::<
            Seq<char>,
        >::empty());
        command
    }

    /// Replaces the terms considered during ASCII case-insensitive filtering
    pub fn keywords(self, keywords: Vec<String>) -> (command: Self)
        ensures
            command@ == (self@.0, self@.1, keywords@.map_values(|keyword: String| keyword@)),
    {
        Command { keywords, ..self }
    }

    /// Returns the command's stable identity
    pub fn id(&self) -> (id: &str)
        ensures
            id@ == self@.0,
    {
        self.id.as_str()
    }

    /// Returns the displayed label
    pub fn label(&self) -> (label: &str)
        ensures
            label@ == self@.1,
    {
        self.label.as_str()
    }

    /// Returns additional search terms
    pub fn search_keywords(&self) -> (keywords: &[String])
        ensures
            keywords@.map_values(|keyword: String| keyword@) == self@.2,
    {
        self.keywords.as_slice()
    }
}

/// A command matches when the query is empty or its label or a keyword contains the query,
/// ignoring ASCII case
pub open spec fn spec_command_matches(command: CommandModel, query: Seq<char>) -> bool {
    ||| query.len() == 0
    ||| label_matches(text_bytes(command.1), text_bytes(query))
    ||| exists|index: int|
        0 <= index < command.2.len() && label_matches(
            text_bytes(#[trigger] command.2[index]),
            text_bytes(query),
        )
}

/// Reports whether a command matches the filter query
pub fn command_matches(command: &Command, query: &str) -> (found: bool)
    ensures
        found == spec_command_matches(command@, query@),
{
    if query.is_empty() {
        return true;
    }
    if label_contains(command.label.as_str(), query) {
        return true;
    }
    let ghost keywords = command@.2;
    let mut index: usize = 0;
    while index < command.keywords.len()
        invariant
            0 <= index <= command.keywords@.len(),
            keywords == command.keywords@.map_values(|keyword: String| keyword@),
            keywords == command@.2,
            forall|k: int|
                0 <= k < index ==> !label_matches(text_bytes(#[trigger] keywords[k]), text_bytes(query@)),
        decreases command.keywords@.len() - index,
    {
        assert(keywords[index as int] == command.keywords@[index as int]@);
        if label_contains(command.keywords[index].as_str(), query) {
            assert(label_matches(text_bytes(command@.2[index as int]), text_bytes(query@)));
            return true;
        }
        index = index + 1;
    }
    false
}

/// Indices of the first `count` commands that match the query, in order
pub open spec fn matching_commands(commands: Seq<CommandModel>, query: Seq<char>, count: int) -> Seq<
    usize,
>
    decreases count,
{
    if count <= 0 {
        Seq::empty()
    } else if spec_command_matches(commands[count - 1], query) {
        matching_commands(commands, query, count - 1).push((count - 1) as usize)
    } else {
        matching_commands(commands, query, count - 1)
    }
}

/// Indices of the commands that match the query, in order
pub fn filtered_indices(commands: &[Command], query: &str) -> (indices: Vec<usize>)
    ensures
        indices@ == matching_commands(
            commands@.map_values(|command: Command| command@),
            query@,
            commands@.len() as int,
        ),
{
    let ghost models = commands@.map_values(|command: Command| command@);
    let mut indices: Vec<usize> = Vec::new();
    let mut index: usize = 0;
    while index < commands.len()
        invariant
            0 <= index <= commands@.len(),
            models == commands@.map_values(|command: Command| command@),
            indices@ == matching_commands(models, query@, index as int),
        decreases commands@.len() - index,
    {
        assert(models[index as int] == commands@[index as int]@);
        if command_matches(&commands[index], query) {
            indices.push(index);
        }
        index = index + 1;
    }
    indices
}

/// Maps a command selection onto a position among the filtered indices: the last match at
/// or before the selection, else the first position
pub fn normalized_filtered_selection(visible: &[usize], selected: usize) -> (position: Option<
    usize,
>)
    ensures
        visible@.len() == 0 ==> position is None,
        visible@.len() > 0 ==> (position matches Some(p) && p < visible@.len()),
        position matches Some(p) ==> (visible@[p as int] <= selected && forall|later: int|
            p < later < visible@.len() ==> visible@[later] > selected) || (p == 0 && forall|k: int|
            0 <= k < visible@.len() ==> visible@[k] > selected),
{
    crate::list::normalized_list_selection(visible, selected)
}

/// The text of a palette row: a `> ` marker on the selected row, two spaces on the others,
/// then the command label
pub open spec fn spec_command_row_text(label: Seq<char>, selected: bool) -> Seq<char> {
    (if selected {
        seq!['>', ' ']
    } else {
        seq![' ', ' ']
    }) + label
}

/// Builds the text of one palette row
pub fn command_row_text(label: &str, selected: bool) -> (text: String)
    ensures
        text@ == spec_command_row_text(label@, selected),
{
    let mut text = String::new();
    if selected {
        text.push('>');
    } else {
        text.push(' ');
    }
    text.push(' ');
    text.push_str(label);
    text
}

/// The query line of a disabled palette: `> ` and the query, or the placeholder while the
/// query is empty
pub open spec fn spec_disabled_query_text(query: Seq<char>, placeholder: Seq<char>) -> Seq<char> {
    seq!['>', ' '] + (if query.len() == 0 {
        placeholder
    } else {
        query
    })
}

/// Builds the query line of a disabled palette
pub fn disabled_query_text(query: &str, placeholder: &str) -> (text: String)
    ensures
        text@ == spec_disabled_query_text(query@, placeholder@),
{
    let mut text = String::new();
    text.push('>');
    text.push(' ');
    if query.is_empty() {
        text.push_str(placeholder);
    } else {
        text.push_str(query);
    }
    text
}

/// A key that an enabled palette with a selected row handles
#[derive(Clone, Copy, Debug, PartialEq, Eq, Structural)]
pub enum CommandPaletteKey {
    /// Activates the selected command
    Enter,
    /// Moves to the previous row
    Up,
    /// Moves to the next row
    Down,
    /// Moves to the first row
    Home,
    /// Moves to the last row
    End,
}

/// What a key asks of the palette
#[derive(Clone, Copy, Debug, PartialEq, Eq, Structural)]
pub enum CommandPaletteOutcome {
    /// Activate the command with this index
    Activate(usize),
    /// Focus the row at `position`, selecting the command `select` when the row changed
    Move { position: usize, select: Option<usize> },
}

/// The row movement a navigation key asks for
pub open spec fn key_navigation(key: CommandPaletteKey) -> Navigation {
    match key {
        CommandPaletteKey::Up => Navigation::Up,
        CommandPaletteKey::Down => Navigation::Down,
        CommandPaletteKey::Home => Navigation::Home,
        _ => Navigation::End,
    }
}

/// Decides a key for a palette showing the commands `visible` with the row at
/// `selected_position` selected: Enter activates that command; a navigation key moves to
/// the row it names and selects its command when the row changes
pub fn command_palette_key_outcome(
    visible: &[usize],
    selected_position: usize,
    key: CommandPaletteKey,
) -> (outcome: CommandPaletteOutcome)
    requires
        selected_position < visible@.len(),
    ensures
        key == CommandPaletteKey::Enter ==> outcome == CommandPaletteOutcome::Activate(
            visible@[selected_position as int],
        ),
        key != CommandPaletteKey::Enter ==> {
            let next = spec_navigate(
                visible@.len(),
                selected_position as nat,
                key_navigation(key),
            ).unwrap();
            outcome == (CommandPaletteOutcome::Move {
                position: next as usize,
                select: if next == selected_position {
                    None
                } else {
                    Some(visible@[next as int])
                },
            })
        },
{
    let navigation = match key {
        CommandPaletteKey::Enter => {
            return CommandPaletteOutcome::Activate(visible[selected_position]);
        },
        CommandPaletteKey::Up => Navigation::Up,
        CommandPaletteKey::Down => Navigation::Down,
        CommandPaletteKey::Home => Navigation::Home,
        CommandPaletteKey::End => Navigation::End,
    };
    let next = match navigate(visible.len(), selected_position, navigation) {
        Some(next) => next,
        None => selected_position,
    };
    let select = if next == selected_position {
        None
    } else {
        Some(visible[next])
    };
    CommandPaletteOutcome::Move { position: next, select }
}

/// The row a palette key event moves to: a usable Up, Down, Home or End key moves among
/// `count` rows from `selected`; `None` for any other event or when there are no rows
pub open spec fn spec_command_navigation_event(event: InputEvent, count: nat, selected: nat) -> Option<nat> {
    match event {
        InputEvent::Key(key) => if !spec_usable_key(key) {
            None
        } else {
            match key.code {
                KeyCode::Up => spec_navigate(count, selected, Navigation::Up),
                KeyCode::Down => spec_navigate(count, selected, Navigation::Down),
                KeyCode::Home => spec_navigate(count, selected, Navigation::Home),
                KeyCode::End => spec_navigate(count, selected, Navigation::End),
                _ => None,
            }
        },
        _ => None,
    }
}

/// Decides which row a key event moves a palette of `count` rows to
pub fn command_navigation_event(event: &InputEvent, count: usize, selected: usize) -> (next: Option<usize>)
    ensures
        next matches Some(row) ==> spec_command_navigation_event(*event, count as nat, selected as nat)
            == Some(row as nat) && row < count,
        next is None <==> spec_command_navigation_event(*event, count as nat, selected as nat) is None,
{
    let key = match event {
        InputEvent::Key(key) => key,
        _ => return None,
    };
    if !usable_key(key) {
        return None;
    }
    let action = match key.code {
        KeyCode::Up => Navigation::Up,
        KeyCode::Down => Navigation::Down,
        KeyCode::Home => Navigation::Home,
        KeyCode::End => Navigation::End,
        _ => return None,
    };
    navigate(count, selected, action)
}

} // verus!
