use lib::{
    RowRole, row_role,
    SelectAction, bar_cells, bar_chart_maximum, button_text, checkbox_text, column_width,
    disclosure_marker, file_entry_text, padded_text, radio_text, select_action_selection,
    select_text,
};

#[test]
fn toggle_texts_show_their_state() {
    assert_eq!(checkbox_text("Wrap", true), "[x] Wrap");
    assert_eq!(checkbox_text("Wrap", false), "[ ] Wrap");
    assert_eq!(radio_text("Dark", true), "(o) Dark");
    assert_eq!(radio_text("Dark", false), "( ) Dark");
    assert_eq!(button_text("Save"), "[ Save ]");
}

#[test]
fn disclosure_and_file_markers() {
    assert_eq!(disclosure_marker(true), "▼ ");
    assert_eq!(disclosure_marker(false), "▶ ");
    assert_eq!(file_entry_text("src", true), "▸ src");
    assert_eq!(file_entry_text("main.rs", false), "  main.rs");
}

#[test]
fn selector_text_clamps_selection_and_falls_back_to_placeholder() {
    let options = vec!["red".to_string(), "green".to_string()];
    assert_eq!(select_text(&options, 1, "pick"), "< green >");
    assert_eq!(select_text(&options, 9, "pick"), "< green >");
    assert_eq!(select_text(&[], 0, "pick"), "< pick >");
}

#[test]
fn selector_actions_report_only_changes() {
    assert_eq!(select_action_selection(SelectAction::Activate, 3, 2), Some(0));
    assert_eq!(select_action_selection(SelectAction::Activate, 3, 0), Some(1));
    assert_eq!(select_action_selection(SelectAction::Activate, 1, 0), None);
    assert_eq!(select_action_selection(SelectAction::Previous, 3, 0), None);
    assert_eq!(select_action_selection(SelectAction::Previous, 3, 2), Some(1));
    assert_eq!(select_action_selection(SelectAction::Next, 3, 2), None);
    assert_eq!(select_action_selection(SelectAction::Next, 3, 0), Some(1));
    assert_eq!(select_action_selection(SelectAction::First, 3, 2), Some(0));
    assert_eq!(select_action_selection(SelectAction::Last, 3, 0), Some(2));
}

#[test]
fn bar_chart_scales_against_configured_or_largest_value() {
    assert_eq!(bar_chart_maximum(&[3, 9, 4], None), 9);
    assert_eq!(bar_chart_maximum(&[3, 9, 4], Some(20)), 20);
    assert_eq!(bar_chart_maximum(&[], None), 0);
    assert_eq!(bar_cells(5, 10, 8), (4, 4));
    assert_eq!(bar_cells(10, 10, 8), (8, 0));
    assert_eq!(bar_cells(3, 0, 8), (0, 8));
}

#[test]
fn labels_pad_to_the_widest_column() {
    assert_eq!(column_width(&[3, 7, 5]), 7);
    assert_eq!(column_width(&[]), 0);
    assert_eq!(padded_text("ctrl", 4, 7), "ctrl   ");
    assert_eq!(padded_text("long-key", 8, 7), "long-key");
}

#[test]
fn row_roles_follow_enablement_then_selection() {
    assert_eq!(row_role(true, true), RowRole::Selected);
    assert_eq!(row_role(true, false), RowRole::Normal);
    assert_eq!(row_role(false, true), RowRole::Disabled);
    assert_eq!(row_role(false, false), RowRole::Disabled);
}
