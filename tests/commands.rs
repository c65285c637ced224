use pedit::editor::keyboard::{Key, KeyPress, CONTROL, SHIFT};
use pedit::editor::window::Mode;
use pedit::editor::{command_for, Command};

fn press(key: Key, modifiers: u8) -> Command {
    command_for(KeyPress { key, modifiers })
}

#[test]
fn escape_quits() {
    assert_eq!(press(Key::Esc, 0), Command::Quit);
    assert_eq!(press(Key::Esc, CONTROL), Command::Quit);
}

#[test]
fn control_letters_are_commands() {
    assert_eq!(press(Key::Char('s'), CONTROL), Command::Save);
    assert_eq!(press(Key::Char('z'), CONTROL), Command::Undo);
    assert_eq!(press(Key::Char('y'), CONTROL), Command::Redo);
    assert_eq!(press(Key::Char('n'), CONTROL), Command::SwitchMode(Mode::Normal));
}

#[test]
fn other_characters_are_drawn() {
    assert_eq!(press(Key::Char('s'), 0), Command::DrawChar('s'));
    assert_eq!(press(Key::Char('S'), SHIFT), Command::DrawChar('S'));
    assert_eq!(press(Key::Char('s'), CONTROL | SHIFT), Command::DrawChar('s'));
    assert_eq!(press(Key::Char('q'), CONTROL), Command::DrawChar('q'));
}

#[test]
fn tab_and_arrows() {
    assert_eq!(press(Key::Tab, SHIFT), Command::TabBackward);
    assert_eq!(press(Key::Tab, 0), Command::TabForward);
    assert_eq!(press(Key::Left, CONTROL), Command::GoWordLeft);
    assert_eq!(press(Key::Left, 0), Command::GoLeft);
    assert_eq!(press(Key::Right, CONTROL), Command::GoWordRight);
    assert_eq!(press(Key::Right, SHIFT), Command::GoRight);
    assert_eq!(press(Key::Up, 0), Command::GoUp);
    assert_eq!(press(Key::Down, 0), Command::GoDown);
}

#[test]
fn page_line_and_editing_keys() {
    assert_eq!(press(Key::PageUp, 0), Command::PageUp);
    assert_eq!(press(Key::PageDown, 0), Command::PageDown);
    assert_eq!(press(Key::Home, 0), Command::LineStart);
    assert_eq!(press(Key::End, 0), Command::LineEnd);
    assert_eq!(press(Key::Enter, 0), Command::Newline);
    assert_eq!(press(Key::Delete, 0), Command::RemoveAtCursor);
    assert_eq!(press(Key::Backspace, 0), Command::RemoveBeforeCursor);
    assert_eq!(press(Key::Insert, 0), Command::SwitchMode(Mode::Insert));
    assert_eq!(press(Key::CapsLock, 0), Command::SwitchMode(Mode::CapsLock));
    assert_eq!(press(Key::Other, 0), Command::Ignore);
}
