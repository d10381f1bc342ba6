use vstd::prelude::*;

verus! {

/// The key of a key event, as far as the widgets tell keys apart
#[derive(Clone, Copy, Debug, PartialEq, Eq, Structural)]
pub enum KeyCode {
    /// The Enter key
    Enter,
    /// The Escape key
    Escape,
    /// The Up arrow
    Up,
    /// The Down arrow
    Down,
    /// The Home key
    Home,
    /// The End key
    End,
    /// A key that types this character
    Character(char),
    /// Any other key
    Other,
}

/// Modifier keys held during a key event
#[derive(Clone, Copy, Debug, PartialEq, Eq, Structural)]
pub struct Modifiers {
    pub shift: bool,
    pub control: bool,
    pub alt: bool,
    pub meta: bool,
}

impl Modifiers {
    /// No modifier held
    pub fn none() -> (modifiers: Self)
        ensures
            modifiers == (Modifiers { shift: false, control: false, alt: false, meta: false }),
    {
        Modifiers { shift: false, control: false, alt: false, meta: false }
    }
}

/// Whether a key went down, repeats while held, or went up
#[derive(Clone, Copy, Debug, PartialEq, Eq, Structural)]
pub enum KeyAction {
    Press,
    Repeat,
    Release,
}

/// One key event
#[derive(Clone, Copy, Debug, PartialEq, Eq, Structural)]
pub struct KeyEvent {
    pub code: KeyCode,
    pub modifiers: Modifiers,
    pub action: KeyAction,
}

/// What a mouse event reports of its button
#[derive(Clone, Copy, Debug, PartialEq, Eq, Structural)]
pub enum MouseKind {
    Press,
    Release,
    /// Movement, dragging or scrolling
    Other,
}

/// The mouse button of a mouse event
#[derive(Clone, Copy, Debug, PartialEq, Eq, Structural)]
pub enum MouseButton {
    Left,
    Right,
    /// The middle button or none
    Other,
}

/// A terminal input event, as far as widget decisions read it
#[derive(Debug, PartialEq, Eq)]
pub enum InputEvent {
    /// A key event
    Key(KeyEvent),
    /// Typed or pasted text
    Text(String),
    /// A mouse event
    Mouse { kind: MouseKind, button: MouseButton },
    /// Any other event, such as a resize or a focus change
    Other,
}

/// Enter or an unmodified Space that is not a release, typed Space text, or a left button
/// press
pub open spec fn spec_is_activation_event(event: InputEvent) -> bool {
    match event {
        InputEvent::Key(key) => key.action != KeyAction::Release && (key.code == KeyCode::Enter || (
        key.code == KeyCode::Character(' ') && key.modifiers == (Modifiers {
            shift: false,
            control: false,
            alt: false,
            meta: false,
        }))),
        InputEvent::Text(text) => text@ == seq![' '],
        InputEvent::Mouse { kind, button } => kind == MouseKind::Press && button
            == MouseButton::Left,
        InputEvent::Other => false,
    }
}

/// Reports whether an event activates a focused widget
pub fn is_activation_event(event: &InputEvent) -> (activates: bool)
    ensures
        activates == spec_is_activation_event(*event),
{
    match event {
        InputEvent::Key(key) => {
            if key.action == KeyAction::Release {
                return false;
            }
            match key.code {
                KeyCode::Enter => true,
                KeyCode::Character(character) => character == ' ' && key.modifiers
                    == Modifiers::none(),
                _ => false,
            }
        },
        InputEvent::Text(text) => {
            let mut space = String::new();
            space.push(' ');
            proof {
                assert(space@ =~= seq![' ']);
            }
            *text == space
        },
        InputEvent::Mouse { kind, button } => *kind == MouseKind::Press && *button
            == MouseButton::Left,
        InputEvent::Other => false,
    }
}

/// A key that is not a release and holds none of Alt, Control or Meta
pub open spec fn spec_usable_key(key: KeyEvent) -> bool {
    key.action != KeyAction::Release && !key.modifiers.alt && !key.modifiers.control
        && !key.modifiers.meta
}

/// Reports whether a key event may drive list navigation
pub fn usable_key(key: &KeyEvent) -> (usable: bool)
    ensures
        usable == spec_usable_key(*key),
{
    key.action != KeyAction::Release && !key.modifiers.alt && !key.modifiers.control
        && !key.modifiers.meta
}

} // verus!
