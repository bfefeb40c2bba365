//! The editing core of a terminal text editor: grapheme-accurate lines and
//! buffers, a scrolling cursor, and the panes that turn them into a grid of
//! cells for a display backend.

pub mod text;
pub mod buffer;
pub mod error;
pub mod cursor;
pub mod pane;
pub mod ui;
pub mod highlight;
pub mod render;
pub mod prompt;
pub mod config;
pub mod language;
