//! Errors that the editing operations report.

use vstd::prelude::*;

verus! {

/// Why an edit or a cursor movement was refused.
#[derive(Debug, Clone, Copy, PartialEq, Eq, Structural)]
pub enum EditError {
    /// The pane's buffer id names no buffer.
    BufferClosedPrematurely(usize),
    /// The viewport has no room for a row of text.
    InvalidHeight,
    /// The viewport starts after the cursor.
    OffsetGreaterThanCursor,
    /// The cursor lies beyond the viewport's width or height.
    CursorOffScreen,
    /// The cursor lies beyond its line or beyond the last line.
    CursorPastEnd,
}

} // verus!
