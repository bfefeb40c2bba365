//! A one-line input prompt: a pane over a buffer that starts with a fixed
//! prefix, which the cursor may not move into.

use crate::buffer::{lemma_line_len_fits, Buffer, Line};
use crate::cursor::{clamp, lens_of, magnitude, move_lr, moved, Cursor, Offset};
use crate::error::EditError;
use crate::highlight::TextHighlighting;
use crate::pane::{
    backspaced, buffers_wf, inserted, past_line_end, texts_after_insert, view_after_insert, Pane,
};
use crate::render::{displayed, Iter};
use crate::text::{byte_len, clusters, glen, graphemes_of, lemma_encode_concat, str_views, suffix};
use vstd::prelude::*;

verus! {

/// The texts, and the cursor and offset or the error, after typing each of
/// `gs` in turn at cursor `c` into a pane with viewport `o` and a text area
/// `width` by `height`; typing stops at the first error.
pub open spec fn typed(
    t: Seq<Seq<char>>,
    c: Cursor,
    o: Offset,
    gs: Seq<Seq<char>>,
    width: int,
    height: int,
) -> (Seq<Seq<char>>, Result<(Cursor, Offset), EditError>)
    decreases gs.len(),
{
    if gs.len() == 0 {
        (t, Ok((c, o)))
    } else if past_line_end(t, c) {
        (t, Err(EditError::CursorPastEnd))
    } else {
        let t2 = texts_after_insert(t, c, gs[0]);
        match view_after_insert(t2, c, o, gs[0], width, height, c.row < t.len()) {
            Ok(p) => typed(t2, p.0, p.1, gs.drop_first(), width, height),
            Err(e) => (t2, Err(e)),
        }
    }
}

/// The distance a prompt moves its cursor for a requested `dist`: leftward
/// moves stop at column `limit`.
pub open spec fn limited(dist: int, col: int, limit: int) -> int {
    if dist >= 0 {
        dist
    } else if col <= limit {
        0
    } else if dist < -(col - limit) {
        -(col - limit)
    } else {
        dist
    }
}

/// A prompt's cursor never moves into its prefix: from a column at or after
/// the prefix's end `limit`, a move by the limited distance that succeeds
/// leaves the cursor at or after `limit`, whatever distance was asked for.
pub proof fn lemma_prompt_clamp(
    c: Cursor,
    o: Offset,
    lens: Seq<nat>,
    width: int,
    dist: int,
    limit: int,
)
    requires
        c.col >= limit,
        forall|i: int| 0 <= i < lens.len() ==> lens[i] <= usize::MAX,
    ensures
        move_lr(c, o, lens, width, limited(dist, c.col as int, limit)) matches Ok(p) ==> p.0.col
            >= limit,
{
    let d = limited(dist, c.col as int, limit);
    if c.row < lens.len() && c.col <= lens[c.row as int] {
        let col = clamp(c.col as int, d, lens[c.row as int] as int);
        assert(col >= limit);
    }
}

/// A pane of one row whose buffer starts with a prefix of
/// `prompt_text_len` grapheme clusters.
#[derive(Debug, Clone)]
pub struct Prompt {
    pane: Pane,
    prompt_text_len: usize,
}

impl Prompt {
    pub closed spec fn pane(&self) -> Pane {
        self.pane
    }

    /// Number of grapheme clusters of the prefix.
    pub closed spec fn prefix_len(&self) -> nat {
        self.prompt_text_len as nat
    }

    /// A prompt `width` wide over buffer `buffer_id`, with `text` typed into
    /// it cluster by cluster.
    pub fn new(width: usize, buffer_id: usize, buffers: &mut [Buffer], text: &str) -> (r: Result<
        Prompt,
        EditError,
    >)
        requires
            buffers_wf(old(buffers)@),
            buffer_id < old(buffers)@.len() ==> old(buffers)@[buffer_id as int].size() + byte_len(
                text@,
            ) + 1 <= usize::MAX,
        ensures
            buffers_wf(final(buffers)@),
            ({
                let p0 = Pane {
                    buffer_id,
                    width,
                    height: 1,
                    offset: Offset { row: 0, col: 0 },
                    cursor: Cursor { row: 0, col: 0 },
                };
                let gs = graphemes_of(text@);
                let id = buffer_id as int;
                if gs.len() == 0 {
                    &&& final(buffers)@ == old(buffers)@
                    &&& r matches Ok(p)
                    &&& r->Ok_0.pane() == p0
                    &&& r->Ok_0.prefix_len() == 0
                } else if id >= old(buffers)@.len() {
                    &&& final(buffers)@ == old(buffers)@
                    &&& r == Err::<Prompt, EditError>(EditError::BufferClosedPrematurely(buffer_id))
                } else {
                    let res = typed(
                        old(buffers)@[id].texts(),
                        p0.cursor,
                        p0.offset,
                        gs,
                        p0.text_width(old(buffers)@),
                        p0.text_height(old(buffers)@),
                    );
                    &&& final(buffers)@.len() == old(buffers)@.len()
                    &&& forall|j: int|
                        0 <= j < old(buffers)@.len() && j != id ==> #[trigger] final(buffers)@[j]
                            == old(buffers)@[j]
                    &&& final(buffers)@[id].texts() == res.0
                    &&& final(buffers)@[id].spec_file_name() == old(buffers)@[id].spec_file_name()
                    &&& final(buffers)@[id].spec_norm() == old(buffers)@[id].spec_norm()
                    &&& match res.1 {
                        Ok(v) => {
                            &&& r matches Ok(p)
                            &&& r->Ok_0.pane() == Pane { cursor: v.0, offset: v.1, ..p0 }
                            &&& r->Ok_0.prefix_len() == gs.len()
                        },
                        Err(e) => r == Err::<Prompt, EditError>(e),
                    }
                }
            }),
    {
        let mut pane = Pane {
            buffer_id,
            cursor: Cursor::default(),
            offset: Offset::default(),
            height: 1,
            width,
        };
        let parts = clusters(text);
        let ghost gs = str_views(parts@);
        let ghost p0 = pane;
        let ghost b0 = buffers@;
        if parts.len() == 0 {
            return Ok(Prompt { pane, prompt_text_len: 0 });
        }
        if buffer_id >= buffers.len() {
            return Err(EditError::BufferClosedPrematurely(buffer_id));
        }
        let ghost id = buffer_id as int;
        proof {
            assert(b0[id].wf());
            assert(gs.skip(0) =~= gs);
            assert(gs.take(0).flatten() =~= Seq::<char>::empty());
            assert(byte_len(Seq::<char>::empty()) == 0) by {
                assert(vstd::utf8::encode_utf8(Seq::<char>::empty()) =~= Seq::<u8>::empty());
            }
        }
        let mut k: usize = 0;
        while k < parts.len()
            invariant
                k <= parts@.len(),
                gs == str_views(parts@),
                gs == graphemes_of(text@),
                gs.flatten() == text@,
                id == buffer_id,
                id < b0.len(),
                b0 == old(buffers)@,
                p0 == (Pane {
                    buffer_id,
                    width,
                    height: 1,
                    offset: Offset { row: 0, col: 0 },
                    cursor: Cursor { row: 0, col: 0 },
                }),
                buffers_wf(buffers@),
                buffers@.len() == b0.len(),
                forall|j: int| 0 <= j < b0.len() && j != id ==> #[trigger] buffers@[j] == b0[j],
                buffers@[id].spec_file_name() == b0[id].spec_file_name(),
                buffers@[id].spec_norm() == b0[id].spec_norm(),
                pane.buffer_id == buffer_id,
                pane.width == width,
                pane.height == 1,
                pane.cursor.row < buffers@[id].texts().len(),
                buffers@[id].size() == b0[id].size() + byte_len(gs.take(k as int).flatten()),
                b0[id].size() + byte_len(text@) + 1 <= usize::MAX,
                typed(b0[id].texts(), p0.cursor, p0.offset, gs, p0.text_width(b0), p0.text_height(b0))
                    == typed(
                    buffers@[id].texts(),
                    pane.cursor,
                    pane.offset,
                    gs.skip(k as int),
                    p0.text_width(b0),
                    p0.text_height(b0),
                ),
            decreases parts@.len() - k,
        {
            let g = parts[k];
            let ghost t = buffers@[id].texts();
            let ghost pb = pane;
            proof {
                let v = gs;
                assert(v.take(k + 1) =~= v.take(k as int).push(v[k as int]));
                v.take(k as int).lemma_flatten_push(v[k as int]);
                lemma_encode_concat(v.take(k as int).flatten(), v[k as int]);
                vstd::seq_lib::lemma_flatten_concat(v.take(k + 1), v.skip(k + 1));
                assert(v.take(k + 1) + v.skip(k + 1) =~= v);
                lemma_encode_concat(v.take(k + 1).flatten(), v.skip(k + 1).flatten());
                assert(g@ == gs[k as int]);
                assert(gs.skip(k as int)[0] == gs[k as int]);
                assert(gs.skip(k as int).drop_first() =~= gs.skip(k + 1));
            }
            let res = pane.insert_grapheme(buffers, g);
            proof {
                let w = p0.text_width(b0);
                let h = p0.text_height(b0);
                assert(pb.text_width(buffers@) == w);
                assert(pb.text_height(buffers@) == h);
                let rest = gs.skip(k as int);
                assert(rest.len() > 0);
                if past_line_end(t, pb.cursor) {
                    assert(typed(t, pb.cursor, pb.offset, rest, w, h) == (t, Err::<(Cursor, Offset), EditError>(EditError::CursorPastEnd)));
                } else {
                    let t2 = texts_after_insert(t, pb.cursor, g@);
                    assert(buffers@[id].texts() == t2);
                    let m = view_after_insert(t2, pb.cursor, pb.offset, g@, w, h, pb.cursor.row < t.len());
                    match m {
                        Ok(v) => {
                            assert(typed(t, pb.cursor, pb.offset, rest, w, h) == typed(t2, v.0, v.1, rest.drop_first(), w, h));
                        },
                        Err(e) => {
                            assert(typed(t, pb.cursor, pb.offset, rest, w, h) == (t2, Err::<(Cursor, Offset), EditError>(e)));
                        },
                    }
                }
            }
            match res {
                Ok(()) => {},
                Err(e) => {
                    proof {
                        let full = typed(b0[id].texts(), p0.cursor, p0.offset, gs, p0.text_width(b0), p0.text_height(b0));
                        assert(full.0 == buffers@[id].texts());
                        assert(full.1 == Err::<(Cursor, Offset), EditError>(e));
                    }
                    return Err(e);
                },
            }
            k += 1;
        }
        proof {
            assert(gs.skip(k as int) =~= Seq::<Seq<char>>::empty());
        }
        Ok(Prompt { pane, prompt_text_len: parts.len() })
    }

    /// Moves the cursor `dist` columns along the line, never leftward past
    /// the end of the prefix.
    pub fn move_cursor_left_right(&mut self, buffers: &[Buffer], dist: isize) -> (r: Result<(), EditError>)
        requires
            buffers_wf(buffers@),
        ensures
            final(self).prefix_len() == old(self).prefix_len(),
            final(self).pane().same_frame(&old(self).pane()),
            moved(
                old(self).pane().lr_outcome(
                    buffers@,
                    limited(dist as int, old(self).pane().cursor.col as int, old(self).prefix_len() as int),
                ),
                r,
                old(self).pane().cursor,
                old(self).pane().offset,
                final(self).pane().cursor,
                final(self).pane().offset,
            ),
            old(self).pane().cursor.col >= old(self).prefix_len() ==> final(self).pane().cursor.col
                >= old(self).prefix_len(),
    {
        proof {
            if self.pane.buffer_id < buffers@.len() {
                let lens = lens_of(buffers@[self.pane.buffer_id as int].texts());
                assert forall|i: int| 0 <= i < lens.len() implies lens[i] <= usize::MAX by {
                    assert(buffers@[self.pane.buffer_id as int].wf());
                    assert(buffers@[self.pane.buffer_id as int].rows()[i].wf());
                    lemma_line_len_fits(buffers@[self.pane.buffer_id as int].rows()[i]);
                }
                if self.pane.cursor.col >= self.prompt_text_len {
                    lemma_prompt_clamp(
                        self.pane.cursor,
                        self.pane.offset,
                        lens,
                        self.pane.text_width(buffers@),
                        dist as int,
                        self.prompt_text_len as int,
                    );
                }
            }
        }
        if dist < 0 {
            let col = self.pane.cursor.col;
            let limit = self.prompt_text_len;
            let d: isize = if col <= limit {
                0
            } else if magnitude(dist) > col - limit {
                -((col - limit) as isize)
            } else {
                dist
            };
            self.pane.move_cursor_left_right(buffers, d)
        } else {
            self.pane.move_cursor_left_right(buffers, dist)
        }
    }

    /// Types `g` as a pane does.
    pub fn insert_grapheme(&mut self, buffers: &mut [Buffer], g: &str) -> (r: Result<(), EditError>)
        requires
            buffers_wf(old(buffers)@),
            old(self).pane().buffer_id < old(buffers)@.len() ==> old(buffers)@[old(
                self,
            ).pane().buffer_id as int].size() + byte_len(g@) + 1 <= usize::MAX,
        ensures
            buffers_wf(final(buffers)@),
            final(self).prefix_len() == old(self).prefix_len(),
            final(self).pane().same_frame(&old(self).pane()),
            inserted(old(self).pane(), final(self).pane(), old(buffers)@, final(buffers)@, g@, r),
    {
        self.pane.insert_grapheme(buffers, g)
    }

    /// Deletes backwards as a pane does, except that the prefix is kept: at
    /// or before its end on the first line, nothing happens.
    pub fn backspace(&mut self, buffers: &mut [Buffer]) -> (r: Result<(), EditError>)
        requires
            buffers_wf(old(buffers)@),
        ensures
            buffers_wf(final(buffers)@),
            final(self).prefix_len() == old(self).prefix_len(),
            final(self).pane().same_frame(&old(self).pane()),
            if old(self).pane().cursor.row == 0 && old(self).pane().cursor.col <= old(self).prefix_len() {
                &&& r == Ok::<(), EditError>(())
                &&& final(buffers)@ == old(buffers)@
                &&& *final(self) == *old(self)
            } else {
                backspaced(old(self).pane(), final(self).pane(), old(buffers)@, final(buffers)@, r)
            },
    {
        if self.pane.cursor.row == 0 && self.pane.cursor.col <= self.prompt_text_len {
            return Ok(());
        }
        self.pane.backspace(buffers)
    }

    /// The prompt's output, without highlighting.
    pub fn display<'a>(&self, buffers: &'a [Buffer]) -> (r: Result<Iter<'a>, EditError>)
        requires
            buffers_wf(buffers@),
            self.pane().width + 2 <= usize::MAX,
        ensures
            displayed(
                self.pane(),
                buffers@,
                Seq::<Seq<char>>::empty(),
                Map::<usize, Map<usize, crate::highlight::Type>>::empty(),
                r,
            ),
    {
        let none: &'a [Line] = &[];
        let r = self.pane.display(buffers, none, TextHighlighting::default());
        proof {
            assert(none@.map_values(|l: Line| l@) =~= Seq::<Seq<char>>::empty());
        }
        r
    }

    /// What was typed after the prefix.
    pub fn take(&self, buffers: &[Buffer]) -> (r: Result<String, EditError>)
        requires
            buffers_wf(buffers@),
        ensures
            ({
                let id = self.pane().buffer_id as int;
                if id >= buffers@.len() {
                    r == Err::<String, EditError>(EditError::BufferClosedPrematurely(id as usize))
                } else {
                    let t = buffers@[id].texts()[0];
                    if self.prefix_len() <= glen(t) {
                        r matches Ok(s) && s@ == suffix(t, self.prefix_len() as int)
                    } else {
                        r == Err::<String, EditError>(EditError::CursorPastEnd)
                    }
                }
            }),
    {
        let id = self.pane.buffer_id;
        if id >= buffers.len() {
            return Err(EditError::BufferClosedPrematurely(id));
        }
        let buffer = &buffers[id];
        proof {
            assert(buffer.wf());
        }
        match buffer.get(0) {
            Some(line) => {
                proof {
                    assert(buffer.rows()[0].wf());
                }
                if self.prompt_text_len <= line.len() {
                    Ok(line.skip(self.prompt_text_len))
                } else {
                    Err(EditError::CursorPastEnd)
                }
            },
            None => Err(EditError::CursorPastEnd),
        }
    }
}

} // verus!
