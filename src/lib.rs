//! Editable-text core of a terminal text editor: a piece table over two
//! append-only buffers, a key-to-command table, and the window state.
pub mod editor;
