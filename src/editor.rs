//! The editor: its text core, its window, and the table from key presses
//! to commands.
use vstd::prelude::*;
use crate::editor::keyboard::{Key, KeyPress, CONTROL, SHIFT};
use crate::editor::window::Mode;

pub mod keyboard;
pub mod piece_table;
pub mod replay;
pub mod window;

verus! {

/// What the editor does in answer to a key press.
#[derive(Clone, Copy, Debug, PartialEq, Eq, Structural)]
pub enum Command {
    Quit,
    Save,
    Undo,
    Redo,
    SwitchMode(Mode),
    TabBackward,
    TabForward,
    GoDown,
    GoUp,
    GoWordLeft,
    GoLeft,
    GoWordRight,
    GoRight,
    PageUp,
    PageDown,
    LineStart,
    LineEnd,
    Newline,
    RemoveAtCursor,
    RemoveBeforeCursor,
    DrawChar(char),
    Ignore,
}

/// The key table. Where a modifier is named it must be the only one held;
/// the first matching row wins.
pub open spec fn command_of(k: KeyPress) -> Command {
    let ctrl = k.modifiers == CONTROL;
    match k.key {
        Key::Esc => Command::Quit,
        Key::Char(c) => if ctrl && c == 's' {
            Command::Save
        } else if ctrl && c == 'z' {
            Command::Undo
        } else if ctrl && c == 'y' {
            Command::Redo
        } else if ctrl && c == 'n' {
            Command::SwitchMode(Mode::Normal)
        } else {
            Command::DrawChar(c)
        },
        Key::Tab => if k.modifiers == SHIFT {
            Command::TabBackward
        } else {
            Command::TabForward
        },
        Key::Down => Command::GoDown,
        Key::Up => Command::GoUp,
        Key::Left => if ctrl {
            Command::GoWordLeft
        } else {
            Command::GoLeft
        },
        Key::Right => if ctrl {
            Command::GoWordRight
        } else {
            Command::GoRight
        },
        Key::PageUp => Command::PageUp,
        Key::PageDown => Command::PageDown,
        Key::Home => Command::LineStart,
        Key::End => Command::LineEnd,
        Key::Enter => Command::Newline,
        Key::Delete => Command::RemoveAtCursor,
        Key::Insert => Command::SwitchMode(Mode::Insert),
        Key::CapsLock => Command::SwitchMode(Mode::CapsLock),
        Key::Backspace => Command::RemoveBeforeCursor,
        Key::Other => Command::Ignore,
    }
}

/// The command for a key press.
pub fn command_for(k: KeyPress) -> (r: Command)
    ensures
        r == command_of(k),
{
    let ctrl = k.modifiers == CONTROL;
    match k.key {
        Key::Esc => Command::Quit,
        Key::Char(c) => {
            if ctrl && c == 's' {
                Command::Save
            } else if ctrl && c == 'z' {
                Command::Undo
            } else if ctrl && c == 'y' {
                Command::Redo
            } else if ctrl && c == 'n' {
                Command::SwitchMode(Mode::Normal)
            } else {
                Command::DrawChar(c)
            }
        },
        Key::Tab => {
            if k.modifiers == SHIFT {
                Command::TabBackward
            } else {
                Command::TabForward
            }
        },
        Key::Down => Command::GoDown,
        Key::Up => Command::GoUp,
        Key::Left => {
            if ctrl {
                Command::GoWordLeft
            } else {
                Command::GoLeft
            }
        },
        Key::Right => {
            if ctrl {
                Command::GoWordRight
            } else {
                Command::GoRight
            }
        },
        Key::PageUp => Command::PageUp,
        Key::PageDown => Command::PageDown,
        Key::Home => Command::LineStart,
        Key::End => Command::LineEnd,
        Key::Enter => Command::Newline,
        Key::Delete => Command::RemoveAtCursor,
        Key::Insert => Command::SwitchMode(Mode::Insert),
        Key::CapsLock => Command::SwitchMode(Mode::CapsLock),
        Key::Backspace => Command::RemoveBeforeCursor,
        Key::Other => Command::Ignore,
    }
}

} // verus!
