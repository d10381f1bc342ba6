use lib::{ConfirmDialogDefault, DrawerSide, StatusBarPriority, dialog_action_rows};

#[test]
fn action_buttons_wrap_one_cell_apart() {
    // labels "OK", "Cancel", "Retry": buttons of 6, 10 and 9 cells
    let widths = [2, 6, 5];
    assert_eq!(dialog_action_rows(&widths, None), vec![vec![0, 1, 2]]);
    assert_eq!(dialog_action_rows(&widths, Some(17)), vec![vec![0, 1], vec![2]]);
    assert_eq!(dialog_action_rows(&widths, Some(16)), vec![vec![0], vec![1], vec![2]]);
    assert_eq!(dialog_action_rows(&widths, Some(27)), vec![vec![0, 1, 2]]);
    assert_eq!(dialog_action_rows(&widths, Some(1)), vec![vec![0], vec![1], vec![2]]);
    assert_eq!(dialog_action_rows(&[], Some(10)), Vec::<Vec<usize>>::new());
    assert_eq!(dialog_action_rows(&[u32::MAX, 1], Some(100)), vec![vec![0], vec![1]]);
}

#[test]
fn small_enums_have_their_defaults() {
    assert_eq!(DrawerSide::default(), DrawerSide::Left);
    assert_eq!(StatusBarPriority::default(), StatusBarPriority::Normal);
    assert!(StatusBarPriority::Low.value() < StatusBarPriority::Normal.value());
    assert!(StatusBarPriority::High.value() < StatusBarPriority::Critical.value());
    assert_ne!(ConfirmDialogDefault::Confirm, ConfirmDialogDefault::Cancel);
}
