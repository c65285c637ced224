use pedit::editor::window::{is_drawable, Mode, Window};

#[test]
fn window_reports_its_state() {
    let mut w = Window::with_size((80, 24), (3, 0));
    assert_eq!(w.window_width(), 80);
    assert_eq!(w.window_height(), 24);
    assert_eq!(w.position(), (3, 0));
    assert!(!w.is_line_wrapping());
    assert!(!w.is_line_numbers());
    w.set_position((4, 0));
    assert_eq!(w.position(), (4, 0));
    assert_eq!(w.window_width(), 80);
}

#[test]
fn placeholder_commands_leave_the_window_alone() {
    let w = Window::with_size((40, 10), (0, 0));
    w.go_down();
    w.go_word_right();
    w.switch_mode(Mode::Insert);
    w.newline();
    assert_eq!(w.position(), (0, 0));
}

#[test]
fn control_characters_are_not_drawn() {
    assert!(is_drawable('a'));
    assert!(is_drawable(' '));
    assert!(is_drawable('\u{a0}'));
    assert!(!is_drawable('\n'));
    assert!(!is_drawable('\u{0}'));
    assert!(!is_drawable('\u{7f}'));
    assert!(!is_drawable('\u{9f}'));
    for c in ['a', '\t', '\u{85}', 'é', '\u{1f}'] {
        assert_eq!(is_drawable(c), !c.is_control());
    }
}
