use lib::{
    Command, CommandPaletteKey, CommandPaletteOutcome, command_palette_key_outcome,
    command_row_text, disabled_query_text, filtered_indices, normalized_filtered_selection,
};

#[test]
fn rows_mark_only_the_selected_command() {
    assert_eq!(command_row_text("Open file", true), "> Open file");
    assert_eq!(command_row_text("Open file", false), "  Open file");
    assert_eq!(command_row_text("", true), "> ");
}

#[test]
fn disabled_query_shows_placeholder_while_empty() {
    assert_eq!(disabled_query_text("", "Type a command"), "> Type a command");
    assert_eq!(disabled_query_text("op", "Type a command"), "> op");
}

#[test]
fn enter_activates_the_selected_command() {
    let visible = [2, 5, 7];
    assert_eq!(
        command_palette_key_outcome(&visible, 1, CommandPaletteKey::Enter),
        CommandPaletteOutcome::Activate(5)
    );
}

#[test]
fn navigation_keys_move_and_select_changed_rows() {
    let visible = [2, 5, 7];
    assert_eq!(
        command_palette_key_outcome(&visible, 1, CommandPaletteKey::Down),
        CommandPaletteOutcome::Move { position: 2, select: Some(7) }
    );
    assert_eq!(
        command_palette_key_outcome(&visible, 2, CommandPaletteKey::Down),
        CommandPaletteOutcome::Move { position: 2, select: None }
    );
    assert_eq!(
        command_palette_key_outcome(&visible, 1, CommandPaletteKey::Up),
        CommandPaletteOutcome::Move { position: 0, select: Some(2) }
    );
    assert_eq!(
        command_palette_key_outcome(&visible, 0, CommandPaletteKey::Up),
        CommandPaletteOutcome::Move { position: 0, select: None }
    );
    assert_eq!(
        command_palette_key_outcome(&visible, 1, CommandPaletteKey::Home),
        CommandPaletteOutcome::Move { position: 0, select: Some(2) }
    );
    assert_eq!(
        command_palette_key_outcome(&visible, 0, CommandPaletteKey::End),
        CommandPaletteOutcome::Move { position: 2, select: Some(7) }
    );
}

#[test]
fn filtered_palette_keeps_selection_on_a_visible_command() {
    let commands = vec![
        Command::new("open", "Open file"),
        Command::new("save", "Save file"),
        Command::new("quit", "Quit"),
    ];
    let visible = filtered_indices(&commands, "FILE");
    assert_eq!(visible, vec![0, 1]);
    assert_eq!(normalized_filtered_selection(&visible, 2), Some(1));
    let position = normalized_filtered_selection(&visible, 0).unwrap();
    assert_eq!(
        command_palette_key_outcome(&visible, position, CommandPaletteKey::Enter),
        CommandPaletteOutcome::Activate(0)
    );
}
