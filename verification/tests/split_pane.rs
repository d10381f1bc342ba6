use lib::{SplitPaneState, pointer_ratio, split_divider_position};

#[test]
fn state_clamps_and_moves_without_overflow() {
    assert_eq!(SplitPaneState::new(u16::MAX).ratio(), 10_000);
    assert_eq!(SplitPaneState::new(100).moved(false, 500).ratio(), 0);
    assert_eq!(SplitPaneState::new(9_900).moved(true, 500).ratio(), 10_000);
}

#[test]
fn pointer_ratio_round_trips_divider_cells() {
    for position in 0..=8 {
        let state = pointer_ratio(position, 10).expect("non-empty split");
        assert_eq!(
            split_divider_position(10, state, 1, 1),
            Some(u32::try_from(position.clamp(1, 8)).expect("non-negative position"))
        );
    }
}

#[test]
fn divider_detection_collapses_when_extreme_minima_do_not_fit() {
    assert_eq!(
        split_divider_position(u32::MAX, SplitPaneState::default(), u32::MAX, 1),
        None,
    );
}

#[test]
fn default_state_splits_evenly() {
    assert_eq!(SplitPaneState::default().ratio(), 5_000);
    assert_eq!(split_divider_position(11, SplitPaneState::default(), 1, 1), Some(5));
}

#[test]
fn divider_respects_pane_minimums() {
    assert_eq!(split_divider_position(20, SplitPaneState::new(0), 4, 1), Some(4));
    assert_eq!(split_divider_position(20, SplitPaneState::new(10_000), 1, 6), Some(13));
    assert_eq!(split_divider_position(2, SplitPaneState::new(5_000), 0, 0), None);
    assert_eq!(split_divider_position(3, SplitPaneState::new(5_000), 0, 0), Some(1));
}

#[test]
fn pointer_ratio_needs_room_and_rounds_up() {
    assert_eq!(pointer_ratio(0, 1), None);
    assert_eq!(pointer_ratio(0, 0), None);
    assert_eq!(pointer_ratio(-3, 5).map(SplitPaneState::ratio), Some(0));
    assert_eq!(pointer_ratio(1, 4).map(SplitPaneState::ratio), Some(3_334));
    assert_eq!(pointer_ratio(99, 4).map(SplitPaneState::ratio), Some(10_000));
}

#[test]
fn pointer_ratio_round_trips_on_wider_splits() {
    for main in 3..60u32 {
        for position in -2..(main as i32 + 2) {
            let state = pointer_ratio(position, main).unwrap();
            let usable = main - 1;
            let cell = position.clamp(0, usable as i32) as u32;
            assert_eq!(split_divider_position(main, state, 1, 1), Some(cell.clamp(1, usable - 1)));
        }
    }
}
