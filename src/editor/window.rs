//! The state of the editor window: its size, the cursor position and the
//! display options. Drawing on the terminal is left to the caller.
use vstd::prelude::*;

verus! {

/// The editing mode, which decides how keys are read.
#[derive(Clone, Copy, Debug, PartialEq, Eq, Structural)]
pub enum Mode {
    Insert,
    CapsLock,
    Normal,
}

pub struct Window {
    window_dimensions: (u16, u16),
    position: (u16, u16),
    editor_dimensions: (u16, u16),
    line_wrapping: bool,
    line_numbers: bool,
}

/// The abstract state of a window.
pub struct WindowView {
    pub window_dimensions: (u16, u16),
    pub position: (u16, u16),
    pub editor_dimensions: (u16, u16),
    pub line_wrapping: bool,
    pub line_numbers: bool,
}

impl View for Window {
    type V = WindowView;

    closed spec fn view(&self) -> WindowView {
        WindowView {
            window_dimensions: self.window_dimensions,
            position: self.position,
            editor_dimensions: self.editor_dimensions,
            line_wrapping: self.line_wrapping,
            line_numbers: self.line_numbers,
        }
    }
}

/// A control character: general category Cc, the ranges U+0000 to U+001F
/// and U+007F to U+009F.
pub open spec fn is_control_char(c: char) -> bool {
    (c as u32) <= 0x1f || (0x7f <= (c as u32) && (c as u32) <= 0x9f)
}

/// Whether `c` is drawn at the cursor when typed: control characters are not.
pub fn is_drawable(c: char) -> (r: bool)
    ensures
        r == !is_control_char(c),
{
    let code = c as u32;
    !(code <= 0x1f || (0x7f <= code && code <= 0x9f))
}

impl Window {
    /// A window of the given terminal size, with the cursor at `position`,
    /// the editor area as large as the window, and no line wrapping or line
    /// numbers.
    pub fn with_size(dimensions: (u16, u16), position: (u16, u16)) -> (r: Window)
        ensures
            r@.window_dimensions == dimensions,
            r@.editor_dimensions == dimensions,
            r@.position == position,
            !r@.line_wrapping,
            !r@.line_numbers,
    {
        Window {
            window_dimensions: dimensions,
            position,
            editor_dimensions: dimensions,
            line_wrapping: false,
            line_numbers: false,
        }
    }

    /// Records where the cursor now stands.
    pub fn set_position(&mut self, position: (u16, u16))
        ensures
            final(self)@.position == position,
            final(self)@.window_dimensions == old(self)@.window_dimensions,
            final(self)@.editor_dimensions == old(self)@.editor_dimensions,
            final(self)@.line_wrapping == old(self)@.line_wrapping,
            final(self)@.line_numbers == old(self)@.line_numbers,
    {
        self.position = position;
    }

    pub fn window_width(&self) -> (r: u16)
        ensures
            r == self@.window_dimensions.0,
    {
        self.window_dimensions.0
    }

    pub fn window_height(&self) -> (r: u16)
        ensures
            r == self@.window_dimensions.1,
    {
        self.window_dimensions.1
    }

    pub fn position(&self) -> (r: (u16, u16))
        ensures
            r == self@.position,
    {
        self.position
    }

    pub fn is_line_wrapping(&self) -> (r: bool)
        ensures
            r == self@.line_wrapping,
    {
        self.line_wrapping
    }

    pub fn is_line_numbers(&self) -> (r: bool)
        ensures
            r == self@.line_numbers,
    {
        self.line_numbers
    }

    // The navigation and editing commands below are not implemented yet:
    // each leaves the window as it is.
    pub fn tab_backward(&self) {
    }

    pub fn tab_forward(&self) {
    }

    pub fn go_down(&self) {
    }

    pub fn go_up(&self) {
    }

    pub fn go_left(&self) {
    }

    pub fn go_word_left(&self) {
    }

    pub fn go_right(&self) {
    }

    pub fn go_word_right(&self) {
    }

    pub fn move_page_up(&self) {
    }

    pub fn move_page_down(&self) {
    }

    pub fn goto_start_of_line(&self) {
    }

    pub fn goto_end_of_line(&self) {
    }

    pub fn switch_mode(&self, mode: Mode) {
        match mode {
            Mode::CapsLock => {},
            Mode::Insert => {},
            // back to normal
            Mode::Normal => {},
        }
    }

    pub fn remove_char_at_cursor(&self) {
    }

    pub fn remove_char_before_cursor(&self) {
    }

    pub fn newline(&self) {
    }

    /// Draws the wrap markers; nothing to draw yet.
    pub fn draw_wrap_lines(&self) {
    }

    /// Redraws the window.
    fn redraw(&self) {
    }

    /// Moves the pointer up and down, keeping the column it had.
    fn move_pointer(&self) {
    }
}

} // verus!
