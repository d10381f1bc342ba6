use lib::{
    CollectionAction, Navigation, collection_action_selection, selection_outside_rows,
    virtual_row_range,
};

#[test]
fn viewport_rows_are_cut_at_the_row_count() {
    assert_eq!(virtual_row_range(0, 5, 20), (0, 5));
    assert_eq!(virtual_row_range(18, 5, 20), (18, 20));
    assert_eq!(virtual_row_range(30, 5, 20), (20, 20));
    assert_eq!(virtual_row_range(3, u32::MAX, 20), (3, 20));
    assert_eq!(virtual_row_range(0, 0, 0), (0, 0));
}

#[test]
fn only_selections_outside_the_shown_rows_need_a_target() {
    assert_eq!(selection_outside_rows(Some(2), 4, 9), Some(2));
    assert_eq!(selection_outside_rows(Some(9), 4, 9), Some(9));
    assert_eq!(selection_outside_rows(Some(4), 4, 9), None);
    assert_eq!(selection_outside_rows(None, 4, 9), None);
}

#[test]
fn collection_actions_report_activation_and_moves() {
    assert_eq!(CollectionAction::Activate.navigation(), None);
    assert_eq!(CollectionAction::Previous.navigation(), Some(Navigation::Up));
    assert_eq!(CollectionAction::Last.navigation(), Some(Navigation::End));
    assert_eq!(collection_action_selection(CollectionAction::Activate, 4, 2), Some(2));
    assert_eq!(collection_action_selection(CollectionAction::Next, 4, 2), Some(3));
    assert_eq!(collection_action_selection(CollectionAction::Next, 4, 3), None);
    assert_eq!(collection_action_selection(CollectionAction::Previous, 4, 0), None);
    assert_eq!(collection_action_selection(CollectionAction::First, 4, 3), Some(0));
    assert_eq!(collection_action_selection(CollectionAction::Last, 4, 0), Some(3));
}
