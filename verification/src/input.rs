use vstd::prelude::*;

verus! {

/// The key of a key press, as far as the interface tells keys apart.
#[derive(Debug, Clone, Copy, PartialEq, Eq, Structural)]
pub enum KeyCode {
    Up,
    Down,
    Left,
    Right,
    PageUp,
    PageDown,
    Enter,
    Esc,
    Tab,
    Backspace,
    Delete,
    Char(char),
    /// Any other key.
    Other,
}

/// The modifier keys held during a key press.
#[derive(Debug, Clone, Copy, PartialEq, Eq, Structural)]
pub struct KeyModifiers {
    pub shift: bool,
    pub control: bool,
}

impl KeyModifiers {
    /// No modifier held.
    pub fn none() -> (m: KeyModifiers)
        ensures
            !m.shift && !m.control,
    {
        KeyModifiers { shift: false, control: false }
    }

    /// Shift held.
    pub fn shift() -> (m: KeyModifiers)
        ensures
            m.shift && !m.control,
    {
        KeyModifiers { shift: true, control: false }
    }

    /// Control held.
    pub fn control() -> (m: KeyModifiers)
        ensures
            !m.shift && m.control,
    {
        KeyModifiers { shift: false, control: true }
    }
}

/// One key press.
#[derive(Debug, Clone, Copy, PartialEq, Eq, Structural)]
pub struct KeyEvent {
    pub code: KeyCode,
    pub modifiers: KeyModifiers,
}

impl KeyEvent {
    pub fn new(code: KeyCode, modifiers: KeyModifiers) -> (k: KeyEvent)
        ensures
            k.code == code,
            k.modifiers == modifiers,
    {
        KeyEvent { code, modifiers }
    }
}

} // verus!
