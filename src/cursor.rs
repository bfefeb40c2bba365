//! The cursor, the viewport offset, and how moving the one scrolls the other.

use crate::buffer::Buffer;
use crate::error::EditError;
use crate::text::glen;
use vstd::prelude::*;

verus! {

/// The buffer position shown at the viewport's top-left corner.
#[derive(Debug, Clone, Copy, PartialEq, Eq, Structural)]
pub struct Offset {
    pub row: usize,
    pub col: usize,
}

/// The edit position, in lines and grapheme columns.
#[derive(Debug, Clone, Copy, PartialEq, Eq, Structural)]
pub struct Cursor {
    pub row: usize,
    pub col: usize,
}

impl Default for Offset {
    fn default() -> (r: Offset)
        ensures
            r == (Offset { row: 0, col: 0 }),
    {
        Offset { row: 0, col: 0 }
    }
}

impl Default for Cursor {
    fn default() -> (r: Cursor)
        ensures
            r == (Cursor { row: 0, col: 0 }),
    {
        Cursor { row: 0, col: 0 }
    }
}

/// The number of grapheme clusters of each of `texts`.
pub open spec fn lens_of(texts: Seq<Seq<char>>) -> Seq<nat> {
    texts.map_values(|t: Seq<char>| glen(t))
}

/// `pos + dist`, kept within `0..=max`.
pub open spec fn clamp(pos: int, dist: int, max: int) -> int {
    if pos + dist < 0 {
        0
    } else if pos + dist > max {
        max
    } else {
        pos + dist
    }
}

/// The viewport start after the viewport follows position `pos` in a window
/// of `size`: it moves back to `pos` when `pos` lies before it, forward just
/// enough when `pos` lies past its end, and stays otherwise.
pub open spec fn follow(pos: int, off: int, size: int) -> int {
    if pos < off || size <= 0 {
        pos
    } else if pos - off >= size {
        pos - size + 1
    } else {
        off
    }
}

/// The cursor lies within the `width` by `height` viewport at `off`.
pub open spec fn in_view(c: Cursor, off: Offset, width: int, height: int) -> bool {
    &&& off.row <= c.row < off.row + height
    &&& off.col <= c.col < off.col + width
}

/// Outcome of moving the cursor `dist` columns along its line of a buffer
/// whose line lengths are `lens`, with a viewport `width` columns wide.
pub open spec fn move_lr(c: Cursor, off: Offset, lens: Seq<nat>, width: int, dist: int) -> Result<
    (Cursor, Offset),
    EditError,
> {
    if c.row >= lens.len() {
        Err(EditError::CursorPastEnd)
    } else if c.col < off.col {
        Err(EditError::OffsetGreaterThanCursor)
    } else if c.col - off.col >= width {
        Err(EditError::CursorOffScreen)
    } else if c.col > lens[c.row as int] {
        Err(EditError::CursorPastEnd)
    } else {
        let col = clamp(c.col as int, dist, lens[c.row as int] as int);
        Ok(
            (
                Cursor { row: c.row, col: col as usize },
                Offset { row: off.row, col: follow(col, off.col as int, width) as usize },
            ),
        )
    }
}

/// Outcome of moving the cursor `dist` lines, with a viewport `height` rows
/// tall; the column is pulled back to the end of a shorter line.
pub open spec fn move_ud(c: Cursor, off: Offset, lens: Seq<nat>, height: int, dist: int) -> Result<
    (Cursor, Offset),
    EditError,
> {
    if height <= 0 {
        Err(EditError::InvalidHeight)
    } else if c.row >= lens.len() {
        Err(EditError::CursorPastEnd)
    } else if c.row < off.row {
        Err(EditError::OffsetGreaterThanCursor)
    } else if c.row - off.row >= height {
        Err(EditError::CursorOffScreen)
    } else {
        let row = clamp(c.row as int, dist, lens.len() - 1);
        let len = lens[row];
        let col = if len < c.col {
            len as int
        } else {
            c.col as int
        };
        let ocol = if len < c.col && col < off.col {
            col
        } else {
            off.col as int
        };
        Ok(
            (
                Cursor { row: row as usize, col: col as usize },
                Offset { row: follow(row, off.row as int, height) as usize, col: ocol as usize },
            ),
        )
    }
}

/// What a movement does to the cursor and the offset: on success they take
/// the new values, on failure they stay as they were.
pub open spec fn moved(
    m: Result<(Cursor, Offset), EditError>,
    r: Result<(), EditError>,
    c0: Cursor,
    o0: Offset,
    c1: Cursor,
    o1: Offset,
) -> bool {
    match m {
        Ok(p) => r == Ok::<(), EditError>(()) && c1 == p.0 && o1 == p.1,
        Err(e) => r == Err::<(), EditError>(e) && c1 == c0 && o1 == o0,
    }
}

/// Movements keep the cursor in view: a sideways move that succeeds leaves
/// it within the width (and the rows untouched), and an up or down move that
/// succeeds leaves it within the height and keeps it within the width.
pub proof fn lemma_moves_keep_view(
    c: Cursor,
    off: Offset,
    lens: Seq<nat>,
    width: int,
    height: int,
    dist: int,
)
    requires
        in_view(c, off, width, height),
        lens.len() <= usize::MAX,
        forall|i: int| 0 <= i < lens.len() ==> lens[i] <= usize::MAX,
    ensures
        move_lr(c, off, lens, width, dist) matches Ok(p) ==> in_view(p.0, p.1, width, height),
        move_ud(c, off, lens, height, dist) matches Ok(p) ==> in_view(p.0, p.1, width, height),
{
}

impl Offset {
    /// Moves the offset `amount` columns right (or left), saturating.
    fn scroll_left_right(&mut self, right: bool, amount: usize)
        ensures
            final(self).row == old(self).row,
            final(self).col == if right {
                if old(self).col + amount > usize::MAX {
                    usize::MAX as int
                } else {
                    old(self).col + amount
                }
            } else {
                if old(self).col < amount {
                    0
                } else {
                    old(self).col - amount
                }
            },
    {
        if right {
            self.col = self.col.saturating_add(amount);
        } else {
            self.col = self.col.saturating_sub(amount);
        }
    }

    /// Moves the offset `amount` rows down (or up), saturating.
    fn scroll_up_down(&mut self, down: bool, amount: usize)
        ensures
            final(self).col == old(self).col,
            final(self).row == if down {
                if old(self).row + amount > usize::MAX {
                    usize::MAX as int
                } else {
                    old(self).row + amount
                }
            } else {
                if old(self).row < amount {
                    0
                } else {
                    old(self).row - amount
                }
            },
    {
        if down {
            self.row = self.row.saturating_add(amount);
        } else {
            self.row = self.row.saturating_sub(amount);
        }
    }
}

/// The size of a signed distance.
pub(crate) fn magnitude(dist: isize) -> (r: usize)
    ensures
        r == if dist < 0 {
            -dist
        } else {
            dist as int
        },
{
    if dist >= 0 {
        dist as usize
    } else if dist == isize::MIN {
        (isize::MAX as usize) + 1
    } else {
        (-dist) as usize
    }
}

impl Cursor {
    /// Moves the cursor `dist` grapheme columns right (left when negative),
    /// stopping at the ends of its line and scrolling `offset` so that the
    /// cursor stays within `width` columns of it.
    pub fn move_left_right(&mut self, buffer: &Buffer, offset: &mut Offset, width: usize, dist: isize) -> (r: Result<(), EditError>)
        requires
            buffer.wf(),
        ensures
            moved(
                move_lr(*old(self), *old(offset), lens_of(buffer.texts()), width as int, dist as int),
                r,
                *old(self),
                *old(offset),
                *final(self),
                *final(offset),
            ),
    {
        let line = match buffer.get(self.row) {
            Some(line) => line,
            None => return Err(EditError::CursorPastEnd),
        };
        proof {
            assert(buffer.rows()[self.row as int].wf());
            assert(lens_of(buffer.texts())[self.row as int] == glen(line@));
        }
        if self.col < offset.col {
            return Err(EditError::OffsetGreaterThanCursor);
        }
        if self.col - offset.col >= width {
            return Err(EditError::CursorOffScreen);
        }
        let len = line.len();
        if self.col > len {
            return Err(EditError::CursorPastEnd);
        }
        if dist > 0 {
            // distance from the cursor's screen column to the right edge
            let old_edge_dist = width - (self.col - offset.col);
            let dist_right = if magnitude(dist) < len - self.col {
                magnitude(dist)
            } else {
                len - self.col
            };
            if old_edge_dist <= dist_right {
                offset.scroll_left_right(true, dist_right - old_edge_dist + 1);
            }
            self.col = self.col + dist_right;
        } else {
            // distance from the cursor's screen column to the left edge
            let old_edge_dist = self.col - offset.col;
            let dist_left = if magnitude(dist) < self.col {
                magnitude(dist)
            } else {
                self.col
            };
            if old_edge_dist < dist_left {
                offset.scroll_left_right(false, dist_left - old_edge_dist);
            }
            self.col = self.col - dist_left;
        }
        Ok(())
    }

    /// Moves the cursor `dist` lines down (up when negative), stopping at the
    /// first and last lines and scrolling `offset` so that the cursor stays
    /// within `height` rows of it; the column is pulled back to the end of a
    /// shorter line, and the offset with it.
    pub fn move_up_down(
        &mut self,
        buffer: &Buffer,
        offset: &mut Offset,
        height: usize,
        width: usize,
        dist: isize,
    ) -> (r: Result<(), EditError>)
        requires
            buffer.wf(),
        ensures
            moved(
                move_ud(*old(self), *old(offset), lens_of(buffer.texts()), height as int, dist as int),
                r,
                *old(self),
                *old(offset),
                *final(self),
                *final(offset),
            ),
    {
        let n = buffer.lines();
        if height == 0 {
            return Err(EditError::InvalidHeight);
        }
        if self.row >= n {
            return Err(EditError::CursorPastEnd);
        }
        if self.row < offset.row {
            return Err(EditError::OffsetGreaterThanCursor);
        }
        if self.row - offset.row >= height {
            return Err(EditError::CursorOffScreen);
        }
        if dist > 0 {
            // distance from the cursor's screen row to the bottom edge
            let old_edge_dist = height - (self.row - offset.row);
            let dist_down = if magnitude(dist) < n - self.row - 1 {
                magnitude(dist)
            } else {
                n - self.row - 1
            };
            if old_edge_dist <= dist_down {
                offset.scroll_up_down(true, dist_down - old_edge_dist + 1);
            }
            self.row = self.row + dist_down;
        } else {
            // distance from the cursor's screen row to the top edge
            let old_edge_dist = self.row - offset.row;
            let dist_up = if magnitude(dist) < self.row {
                magnitude(dist)
            } else {
                self.row
            };
            if old_edge_dist <= dist_up {
                offset.scroll_up_down(false, dist_up - old_edge_dist);
            }
            self.row = self.row - dist_up;
        }
        assert(self.row == clamp(old(self).row as int, dist as int, n - 1));
        assert(offset.row == follow(self.row as int, old(offset).row as int, height as int));
        let new_line_len = match buffer.get(self.row) {
            Some(line) => {
                proof {
                    assert(buffer.rows()[self.row as int].wf());
                    assert(lens_of(buffer.texts())[self.row as int] == glen(line@));
                }
                line.len()
            },
            None => 0,
        };
        assert(lens_of(buffer.texts()).len() == n);
        assert(new_line_len == lens_of(buffer.texts())[self.row as int]);
        if new_line_len < self.col {
            self.col = new_line_len;
            if self.col < offset.col {
                offset.scroll_left_right(false, offset.col - self.col);
            }
        }
        Ok(())
    }
}

} // verus!
