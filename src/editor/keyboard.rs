//! Key presses as the editor reads them.
use vstd::prelude::*;

verus! {

/// The source of key presses; reading them is done outside the library.
pub struct Keyboard {}

/// The modifier bits of a key press.
pub const SHIFT: u8 = 0x01;
pub const CONTROL: u8 = 0x02;

/// The key of a key press, as far as the editor tells keys apart.
#[derive(Clone, Copy, Debug, PartialEq, Eq, Structural)]
pub enum Key {
    Char(char),
    Esc,
    Tab,
    Up,
    Down,
    Left,
    Right,
    PageUp,
    PageDown,
    Home,
    End,
    Enter,
    Delete,
    Insert,
    CapsLock,
    Backspace,
    Other,
}

/// A key together with the set of modifiers held, as bits.
#[derive(Clone, Copy, Debug, PartialEq, Eq, Structural)]
pub struct KeyPress {
    pub key: Key,
    pub modifiers: u8,
}

} // verus!
