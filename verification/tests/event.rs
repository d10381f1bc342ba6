use lib::{
    InputEvent, KeyAction, KeyCode, KeyEvent, Modifiers, MouseButton, MouseKind,
    command_navigation_event, is_activation_event, usable_key,
};

fn key(code: KeyCode, modifiers: Modifiers, action: KeyAction) -> InputEvent {
    InputEvent::Key(KeyEvent { code, modifiers, action })
}

fn mouse(kind: MouseKind, button: MouseButton) -> InputEvent {
    InputEvent::Mouse { kind, button }
}

#[test]
fn activation_matches_shared_fixtures() {
    let control = Modifiers { control: true, ..Modifiers::none() };
    let cases = [
        (key(KeyCode::Enter, Modifiers::none(), KeyAction::Press), true, true),
        (InputEvent::Text(" ".to_owned()), true, true),
        (key(KeyCode::Character(' '), control, KeyAction::Press), true, false),
        (key(KeyCode::Enter, Modifiers::none(), KeyAction::Release), true, false),
        (mouse(MouseKind::Press, MouseButton::Left), true, true),
        (mouse(MouseKind::Release, MouseButton::Left), true, false),
        (mouse(MouseKind::Press, MouseButton::Right), true, false),
        (key(KeyCode::Enter, Modifiers::none(), KeyAction::Press), false, false),
        (mouse(MouseKind::Press, MouseButton::Left), false, false),
    ];
    for (index, (event, enabled, activate)) in cases.into_iter().enumerate() {
        assert_eq!(enabled && is_activation_event(&event), activate, "case {}", index);
    }
}

#[test]
fn space_key_and_repeats_activate() {
    assert!(is_activation_event(&key(KeyCode::Character(' '), Modifiers::none(), KeyAction::Press)));
    assert!(is_activation_event(&key(KeyCode::Enter, Modifiers::none(), KeyAction::Repeat)));
    assert!(!is_activation_event(&InputEvent::Text("  ".to_owned())));
    assert!(!is_activation_event(&InputEvent::Other));
}

#[test]
fn palette_navigation_keys_need_unmodified_presses() {
    let press = |code| key(code, Modifiers::none(), KeyAction::Press);
    assert_eq!(command_navigation_event(&press(KeyCode::Down), 3, 0), Some(1));
    assert_eq!(command_navigation_event(&press(KeyCode::Up), 3, 0), Some(0));
    assert_eq!(command_navigation_event(&press(KeyCode::End), 3, 0), Some(2));
    assert_eq!(command_navigation_event(&press(KeyCode::Home), 3, 2), Some(0));
    assert_eq!(command_navigation_event(&press(KeyCode::Enter), 3, 0), None);
    assert_eq!(command_navigation_event(&press(KeyCode::Down), 0, 0), None);
    let alt = key(KeyCode::Down, Modifiers { alt: true, ..Modifiers::none() }, KeyAction::Press);
    assert_eq!(command_navigation_event(&alt, 3, 0), None);
    let released = key(KeyCode::Down, Modifiers::none(), KeyAction::Release);
    assert_eq!(command_navigation_event(&released, 3, 0), None);
    assert_eq!(command_navigation_event(&InputEvent::Text("j".to_owned()), 3, 0), None);
}

#[test]
fn usable_keys_allow_shift_only() {
    let shifted = KeyEvent {
        code: KeyCode::Down,
        modifiers: Modifiers { shift: true, ..Modifiers::none() },
        action: KeyAction::Repeat,
    };
    assert!(usable_key(&shifted));
    let meta = KeyEvent {
        code: KeyCode::Down,
        modifiers: Modifiers { meta: true, ..Modifiers::none() },
        action: KeyAction::Press,
    };
    assert!(!usable_key(&meta));
}
