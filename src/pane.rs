//! A pane: a viewport onto one buffer, with the edits and movements made
//! through it.

use crate::buffer::Buffer;
use crate::cursor::{follow, lens_of, move_lr, move_ud, moved, Cursor, Offset};
use crate::error::EditError;
use crate::text::{byte_len, chars_of, glen, prefix, suffix};
use vstd::prelude::*;
use vstd::utf8::encode_utf8;

verus! {

/// A viewport of `width` by `height` cells onto buffer `buffer_id`.
#[derive(Debug, Clone, Copy)]
pub struct Pane {
    pub buffer_id: usize,
    pub width: usize,
    pub height: usize,
    pub offset: Offset,
    pub cursor: Cursor,
}

/// Every buffer is well formed.
pub open spec fn buffers_wf(bs: Seq<Buffer>) -> bool {
    forall|i: int| 0 <= i < bs.len() ==> #[trigger] bs[i].wf()
}

/// Whether `g` is the carriage return that splits a line.
pub open spec fn is_newline(g: Seq<char>) -> bool {
    g == seq!['\r']
}

/// Buffer `id` of `new` holds `texts` and is marked dirty; everything else
/// is as in `old`.
pub open spec fn edited(old: Seq<Buffer>, new: Seq<Buffer>, id: int, texts: Seq<Seq<char>>) -> bool {
    &&& new.len() == old.len()
    &&& forall|j: int| 0 <= j < old.len() && j != id ==> #[trigger] new[j] == old[j]
    &&& new[id].texts() == texts
    &&& new[id].spec_dirty()
    &&& new[id].spec_file_name() == old[id].spec_file_name()
    &&& new[id].spec_file_type() == old[id].spec_file_type()
    &&& new[id].spec_norm() == old[id].spec_norm()
}

/// The texts after typing `g` at cursor `c`: a carriage return splits the
/// line, anything else is inserted into it; past the last line, a line is added.
pub open spec fn texts_after_insert(t: Seq<Seq<char>>, c: Cursor, g: Seq<char>) -> Seq<Seq<char>> {
    let row = c.row as int;
    if row < t.len() {
        if is_newline(g) {
            t.take(row).push(prefix(t[row], c.col as int)).push(suffix(t[row], c.col as int)) + t.skip(
                row + 1,
            )
        } else {
            t.update(row, prefix(t[row], c.col as int) + g + suffix(t[row], c.col as int))
        }
    } else if is_newline(g) {
        t.push(seq![])
    } else {
        t.push(g)
    }
}

/// Where the cursor goes after typing `g`: down to the start of the next line
/// after a carriage return, one column right after anything else.
pub open spec fn view_after_insert(
    t2: Seq<Seq<char>>,
    c: Cursor,
    o: Offset,
    g: Seq<char>,
    width: int,
    height: int,
    had_row: bool,
) -> Result<(Cursor, Offset), EditError> {
    if is_newline(g) {
        match move_ud(c, o, lens_of(t2), height, 1) {
            Ok(p) => if had_row {
                Ok((Cursor { row: p.0.row, col: 0 }, Offset { row: p.1.row, col: 0 }))
            } else {
                Ok(p)
            },
            Err(e) => Err(e),
        }
    } else if had_row {
        move_lr(c, o, lens_of(t2), width, 1)
    } else {
        Ok((c, o))
    }
}

/// The texts after a backspace at cursor `c`: at the start of a line other
/// than the first, the line joins the one above; elsewhere in a line, the
/// cluster before the cursor goes.
pub open spec fn texts_after_backspace(t: Seq<Seq<char>>, c: Cursor) -> Seq<Seq<char>> {
    let row = c.row as int;
    if row < t.len() && c.col == 0 && row > 0 {
        t.take(row - 1).push(t[row - 1] + t[row]) + t.skip(row + 1)
    } else if row < t.len() && c.col > 0 {
        t.update(row, prefix(t[row], c.col - 1) + suffix(t[row], c.col as int))
    } else {
        t
    }
}

/// Where the cursor goes after a backspace at the start of a line: to the
/// old end of the line above after a join; past the last line it moves up.
/// (Elsewhere in a line the cursor first moves one column left, and the
/// cluster it passes is deleted.)
pub open spec fn view_after_backspace(
    t: Seq<Seq<char>>,
    c: Cursor,
    o: Offset,
    width: int,
    height: int,
) -> Result<(Cursor, Offset), EditError> {
    let row = c.row as int;
    if row < t.len() {
        if c.col == 0 {
            if row == 0 {
                Ok((c, o))
            } else {
                let col = glen(t[row - 1]) as int;
                Ok(
                    (
                        Cursor { row: (row - 1) as usize, col: col as usize },
                        Offset {
                            row: follow(row - 1, o.row as int, height) as usize,
                            col: follow(col, o.col as int, width) as usize,
                        },
                    ),
                )
            }
        } else {
            Ok((c, o))
        }
    } else {
        move_ud(c, o, lens_of(t), height, -1)
    }
}

/// The cursor lies past the end of its line.
pub open spec fn past_line_end(t: Seq<Seq<char>>, c: Cursor) -> bool {
    c.row < t.len() && c.col > glen(t[c.row as int])
}

/// A carriage return takes one byte.
proof fn lemma_byte_len_cr()
    ensures
        byte_len(seq!['\r']) == 1,
{
    let cr = seq!['\r'];
    assert(cr.drop_first() =~= Seq::<char>::empty());
    assert(cr[0] == '\r');
    assert(('\r' as u32) == 13);
    assert(encode_utf8(Seq::<char>::empty()) =~= Seq::<u8>::empty());
    assert(vstd::utf8::encode_scalar(13u32).len() == 1);
}

/// Whether `g` is a carriage return.
fn is_carriage_return(g: &str) -> (r: bool)
    ensures
        r == is_newline(g@),
{
    let cs = chars_of(g);
    let r = cs.len() == 1 && cs[0] == '\r';
    proof {
        if r {
            assert(cs@ =~= seq!['\r']);
        }
    }
    r
}

/// What typing `g` into pane `p0` over buffers `b0` leaves: the pane `p1`,
/// the buffers `b1` and the result `r`. Nothing changes when the buffer is
/// missing or the cursor lies past the end of its line.
pub open spec fn inserted(p0: Pane, p1: Pane, b0: Seq<Buffer>, b1: Seq<Buffer>, g: Seq<char>, r: Result<(), EditError>) -> bool {
    let id = p0.buffer_id as int;
    let c = p0.cursor;
    if id >= b0.len() {
        &&& r == Err::<(), EditError>(EditError::BufferClosedPrematurely(id as usize))
        &&& b1 == b0
        &&& p1 == p0
    } else if past_line_end(b0[id].texts(), c) {
        &&& r == Err::<(), EditError>(EditError::CursorPastEnd)
        &&& b1 == b0
        &&& p1 == p0
    } else {
        let t = b0[id].texts();
        let t2 = texts_after_insert(t, c, g);
        &&& edited(b0, b1, id, t2)
        &&& c.row < t.len() ==> b1[id].size() == b0[id].size()
            + byte_len(g)
        &&& moved(
            view_after_insert(
                t2,
                c,
                p0.offset,
                g,
                p0.text_width(b0),
                p0.text_height(b0),
                c.row < t.len(),
            ),
            r,
            c,
            p0.offset,
            p1.cursor,
            p1.offset,
        )
    }
}

/// What a backspace in pane `p0` over buffers `b0` leaves: the pane `p1`, the
/// buffers `b1` and the result `r`. Nothing changes when the buffer is missing
/// or the cursor lies past the end of its line.
pub open spec fn backspaced(p0: Pane, p1: Pane, b0: Seq<Buffer>, b1: Seq<Buffer>, r: Result<(), EditError>) -> bool {
    let id = p0.buffer_id as int;
    let c = p0.cursor;
    if id >= b0.len() {
        &&& r == Err::<(), EditError>(EditError::BufferClosedPrematurely(id as usize))
        &&& b1 == b0
        &&& p1 == p0
    } else if past_line_end(b0[id].texts(), c) {
        &&& r == Err::<(), EditError>(EditError::CursorPastEnd)
        &&& b1 == b0
        &&& p1 == p0
    } else {
        let t = b0[id].texts();
        if c.row < t.len() && c.col > 0 {
            match move_lr(c, p0.offset, lens_of(t), p0.text_width(b0), -1) {
                Ok(v) => {
                    &&& r == Ok::<(), EditError>(())
                    &&& p1.cursor == v.0
                    &&& p1.offset == v.1
                    &&& edited(b0, b1, id, texts_after_backspace(t, c))
                },
                Err(e) => {
                    &&& r == Err::<(), EditError>(e)
                    &&& b1 == b0
                    &&& p1 == p0
                },
            }
        } else {
            &&& edited(b0, b1, id, texts_after_backspace(t, c))
            &&& moved(
                view_after_backspace(t, c, p0.offset, p0.text_width(b0), p0.text_height(b0)),
                r,
                c,
                p0.offset,
                p1.cursor,
                p1.offset,
            )
        }
    }
}

impl Pane {
    /// Whether the pane's buffer is a file buffer, which is drawn with a
    /// line-number gutter and a status bar; a missing buffer counts as one.
    pub open spec fn framed(&self, bs: Seq<Buffer>) -> bool {
        !(self.buffer_id < bs.len() && !bs[self.buffer_id as int].spec_norm())
    }

    /// Columns left for text: the gutter takes four for a file buffer.
    pub open spec fn text_width(&self, bs: Seq<Buffer>) -> int {
        if !self.framed(bs) {
            self.width as int
        } else if self.width >= 4 {
            self.width - 4
        } else {
            0
        }
    }

    /// Rows left for text: the status bar takes one for a file buffer.
    pub open spec fn text_height(&self, bs: Seq<Buffer>) -> int {
        if !self.framed(bs) {
            self.height as int
        } else if self.height >= 1 {
            self.height - 1
        } else {
            0
        }
    }

    /// The text area's width and height over `buffers`.
    fn text_area(&self, buffers: &[Buffer]) -> (r: (usize, usize))
        ensures
            r.0 == self.text_width(buffers@),
            r.1 == self.text_height(buffers@),
    {
        if self.buffer_id < buffers.len() && !buffers[self.buffer_id].is_norm() {
            (self.width, self.height)
        } else {
            (self.width.saturating_sub(4), self.height.saturating_sub(1))
        }
    }

    /// `self` and `other` view the same buffer through the same window.
    pub open spec fn same_frame(&self, other: &Pane) -> bool {
        &&& self.buffer_id == other.buffer_id
        &&& self.width == other.width
        &&& self.height == other.height
    }

    /// Outcome of a sideways move through this pane.
    pub open spec fn lr_outcome(&self, bs: Seq<Buffer>, dist: int) -> Result<(Cursor, Offset), EditError> {
        if self.buffer_id < bs.len() {
            move_lr(
                self.cursor,
                self.offset,
                lens_of(bs[self.buffer_id as int].texts()),
                self.text_width(bs),
                dist,
            )
        } else {
            Err(EditError::BufferClosedPrematurely(self.buffer_id))
        }
    }

    /// Outcome of an up or down move through this pane.
    pub open spec fn ud_outcome(&self, bs: Seq<Buffer>, dist: int) -> Result<(Cursor, Offset), EditError> {
        if self.buffer_id < bs.len() {
            move_ud(
                self.cursor,
                self.offset,
                lens_of(bs[self.buffer_id as int].texts()),
                self.text_height(bs),
                dist,
            )
        } else {
            Err(EditError::BufferClosedPrematurely(self.buffer_id))
        }
    }

    /// Moves the cursor `dist` columns along its line.
    pub fn move_cursor_left_right(&mut self, buffers: &[Buffer], dist: isize) -> (r: Result<(), EditError>)
        requires
            buffers_wf(buffers@),
        ensures
            final(self).same_frame(old(self)),
            moved(
                old(self).lr_outcome(buffers@, dist as int),
                r,
                old(self).cursor,
                old(self).offset,
                final(self).cursor,
                final(self).offset,
            ),
    {
        if self.buffer_id >= buffers.len() {
            return Err(EditError::BufferClosedPrematurely(self.buffer_id));
        }
        let (width, _) = self.text_area(buffers);
        let buffer = &buffers[self.buffer_id];
        self.cursor.move_left_right(buffer, &mut self.offset, width, dist)
    }

    /// Moves the cursor `dist` lines up or down.
    pub fn move_cursor_up_down(&mut self, buffers: &[Buffer], dist: isize) -> (r: Result<(), EditError>)
        requires
            buffers_wf(buffers@),
        ensures
            final(self).same_frame(old(self)),
            moved(
                old(self).ud_outcome(buffers@, dist as int),
                r,
                old(self).cursor,
                old(self).offset,
                final(self).cursor,
                final(self).offset,
            ),
    {
        if self.buffer_id >= buffers.len() {
            return Err(EditError::BufferClosedPrematurely(self.buffer_id));
        }
        let (width, height) = self.text_area(buffers);
        let buffer = &buffers[self.buffer_id];
        self.cursor.move_up_down(buffer, &mut self.offset, height, width, dist)
    }

    /// Types `g` at the cursor: a carriage return splits the line and moves to
    /// the start of the next one; anything else is inserted before the cursor,
    /// which moves past it. With the cursor past the last line, `g` becomes a
    /// new last line. The buffer is marked dirty.
    pub fn insert_grapheme(&mut self, buffers: &mut [Buffer], g: &str) -> (r: Result<(), EditError>)
        requires
            buffers_wf(old(buffers)@),
            old(self).buffer_id < old(buffers)@.len() ==> old(buffers)@[old(self).buffer_id as int].size()
                + byte_len(g@) + 1 <= usize::MAX,
        ensures
            buffers_wf(final(buffers)@),
            final(self).same_frame(old(self)),
            inserted(*old(self), *final(self), old(buffers)@, final(buffers)@, g@, r),
    {
        let id = self.buffer_id;
        if id >= buffers.len() {
            return Err(EditError::BufferClosedPrematurely(id));
        }
        let row = self.cursor.row;
        let col = self.cursor.col;
        let newline = is_carriage_return(g);
        let ghost old_bs = buffers@;
        proof {
            assert(old_bs[id as int].wf());
        }
        if row < buffers[id].lines() {
            let len = match buffers[id].get(row) {
                Some(line) => {
                    proof {
                        assert(old_bs[id as int].rows()[row as int].wf());
                    }
                    line.len()
                },
                None => 0,
            };
            if col > len {
                return Err(EditError::CursorPastEnd);
            }
            buffers[id].mark_dirty();
            if newline {
                proof {
                    lemma_byte_len_cr();
                }
                buffers[id].split_line(row, col);
                proof {
                    assert forall|j: int| 0 <= j < buffers@.len() implies #[trigger] buffers@[j].wf() by {
                        if j != id {
                            assert(buffers@[j] == old_bs[j]);
                        }
                    }
                }
                match self.move_cursor_up_down(buffers, 1) {
                    Ok(()) => {
                        self.offset.col = 0;
                        self.cursor.col = 0;
                        Ok(())
                    },
                    Err(e) => Err(e),
                }
            } else {
                buffers[id].insert_char(row, col, g);
                proof {
                    assert forall|j: int| 0 <= j < buffers@.len() implies #[trigger] buffers@[j].wf() by {
                        if j != id {
                            assert(buffers@[j] == old_bs[j]);
                        }
                    }
                }
                self.move_cursor_left_right(buffers, 1)
            }
        } else {
            buffers[id].mark_dirty();
            if newline {
                buffers[id].append_string(String::new());
                proof {
                    assert forall|j: int| 0 <= j < buffers@.len() implies #[trigger] buffers@[j].wf() by {
                        if j != id {
                            assert(buffers@[j] == old_bs[j]);
                        }
                    }
                }
                self.move_cursor_up_down(buffers, 1)
            } else {
                buffers[id].append_string(g.to_owned());
                proof {
                    assert forall|j: int| 0 <= j < buffers@.len() implies #[trigger] buffers@[j].wf() by {
                        if j != id {
                            assert(buffers@[j] == old_bs[j]);
                        }
                    }
                }
                Ok(())
            }
        }
    }

    /// Deletes backwards from the cursor: at the start of a line other than the
    /// first, joins the line to the one above and puts the cursor at the join;
    /// elsewhere in a line, deletes the cluster before the cursor and moves left.
    /// The buffer is marked dirty.
    pub fn backspace(&mut self, buffers: &mut [Buffer]) -> (r: Result<(), EditError>)
        requires
            buffers_wf(old(buffers)@),
        ensures
            buffers_wf(final(buffers)@),
            final(self).same_frame(old(self)),
            backspaced(*old(self), *final(self), old(buffers)@, final(buffers)@, r),
    {
        let id = self.buffer_id;
        if id >= buffers.len() {
            return Err(EditError::BufferClosedPrematurely(id));
        }
        let row = self.cursor.row;
        let col = self.cursor.col;
        let ghost old_bs = buffers@;
        proof {
            assert(old_bs[id as int].wf());
        }
        let n = buffers[id].lines();
        if row < n {
            let len = match buffers[id].get(row) {
                Some(line) => {
                    proof {
                        assert(old_bs[id as int].rows()[row as int].wf());
                    }
                    line.len()
                },
                None => 0,
            };
            if col > len {
                return Err(EditError::CursorPastEnd);
            }
        }
        if row < n && col > 0 {
            // move first, over the line as it is, then delete what was passed
            match self.move_cursor_left_right(buffers, -1) {
                Ok(()) => {},
                Err(e) => {
                    return Err(e);
                },
            }
            buffers[id].mark_dirty();
            proof {
                assert(buffers@[id as int].wf());
            }
            buffers[id].delete_char(row, col);
            proof {
                assert forall|j: int| 0 <= j < buffers@.len() implies #[trigger] buffers@[j].wf() by {
                    if j != id {
                        assert(buffers@[j] == old_bs[j]);
                    }
                }
            }
            return Ok(());
        }
        buffers[id].mark_dirty();
        proof {
            assert forall|j: int| 0 <= j < buffers@.len() implies #[trigger] buffers@[j].wf() by {
                if j != id {
                    assert(buffers@[j] == old_bs[j]);
                }
            }
            assert(buffers@[id as int].texts() == old_bs[id as int].texts());
        }
        if row < n {
            if row == 0 {
                Ok(())
            } else {
                let prev_len = match buffers[id].get(row - 1) {
                    Some(line) => {
                        proof {
                            assert(old_bs[id as int].rows()[row - 1].wf());
                        }
                        line.len()
                    },
                    None => 0,
                };
                self.set_cursor(buffers, row - 1, prev_len);
                buffers[id].merge_with_above(row);
                proof {
                    assert forall|j: int| 0 <= j < buffers@.len() implies #[trigger] buffers@[j].wf() by {
                        if j != id {
                            assert(buffers@[j] == old_bs[j]);
                        }
                    }
                }
                Ok(())
            }
        } else {
            self.move_cursor_up_down(buffers, -1)
        }
    }

    /// Puts the cursor at `row`, `col`, and scrolls just enough to show it
    /// in the text area over `buffers`.
    pub fn set_cursor(&mut self, buffers: &[Buffer], row: usize, col: usize)
        ensures
            final(self).same_frame(old(self)),
            final(self).cursor == (Cursor { row, col }),
            final(self).offset == (Offset {
                row: follow(row as int, old(self).offset.row as int, old(self).text_height(buffers@)) as usize,
                col: follow(col as int, old(self).offset.col as int, old(self).text_width(buffers@)) as usize,
            }),
    {
        let (width, height) = self.text_area(buffers);
        if col < self.offset.col || width == 0 {
            self.offset.col = col;
        } else if col - self.offset.col >= width {
            self.offset.col = col - width + 1;
        }
        if row < self.offset.row || height == 0 {
            self.offset.row = row;
        } else if row - self.offset.row >= height {
            self.offset.row = row - height + 1;
        }
        self.cursor.col = col;
        self.cursor.row = row;
    }
}

} // verus!
