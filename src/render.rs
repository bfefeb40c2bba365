//! Rendering a pane: a lazily produced grid of cells, row by row, with a
//! line-number gutter, markers past the end of the file, and a status bar.

use crate::buffer::{Buffer, Line};
use crate::error::EditError;
use crate::highlight::{carried, LineHighlighting, TextHighlighting, Type};
use crate::pane::{buffers_wf, Pane};
use crate::text::{chars_of, clusters, glen, graphemes_of, str_views};
use crate::ui::Colour;
use vstd::prelude::*;

verus! {

/// One cell of output.
#[derive(Debug, Clone)]
pub enum Char<'a> {
    Grapheme(&'a str),
    Normal(char),
    Foreground(Colour),
    Background(Colour),
}

/// What a cell shows.
pub enum Cell {
    Grapheme(Seq<char>),
    Normal(char),
    Foreground(Colour),
    Background(Colour),
}

/// The cell that `c` stands for.
pub open spec fn cell_of(c: Char) -> Cell {
    match c {
        Char::Grapheme(s) => Cell::Grapheme(s@),
        Char::Normal(ch) => Cell::Normal(ch),
        Char::Foreground(k) => Cell::Foreground(k),
        Char::Background(k) => Cell::Background(k),
    }
}

/// What a row of output shows.
pub enum RowKind {
    /// Text of a line: its clusters from the horizontal offset on.
    Text(Seq<Seq<char>>),
    /// A line of the file with nothing left of it after the horizontal offset.
    Blank,
    /// A row past the end of the file.
    PastEnd,
    /// The status bar.
    Status(Seq<char>),
}

/// The last decimal digit of `n`.
pub open spec fn digit(n: nat) -> char {
    ((n % 10) + 48) as u8 as char
}

/// The decimal digits of `n`.
pub open spec fn decimal(n: nat) -> Seq<char>
    decreases n,
{
    if n < 10 {
        seq![digit(n)]
    } else {
        decimal(n / 10).push(digit(n))
    }
}

/// Cell `k` of the gutter of line number `ln`: hundreds, tens, units, blank.
pub open spec fn gutter_cell(ln: nat, k: int) -> Cell {
    if k == 0 {
        if ln > 99 {
            Cell::Normal(digit(ln / 100))
        } else {
            Cell::Normal(' ')
        }
    } else if k == 1 {
        if ln > 9 {
            Cell::Normal(digit(ln / 10))
        } else {
            Cell::Normal(' ')
        }
    } else if k == 2 {
        Cell::Normal(digit(ln))
    } else {
        Cell::Normal(' ')
    }
}

/// Cell `k` of a row of kind `kind`, `width` wide, with a gutter for line
/// number `ln` when `gutter` holds.
pub open spec fn row_cell(kind: RowKind, width: nat, gutter: bool, ln: nat, k: int) -> Cell {
    match kind {
        RowKind::Status(sb) => if k == 0 {
            Cell::Background(Colour::Red)
        } else if k <= width {
            Cell::Normal(
                if k - 1 < sb.len() {
                    sb[k - 1]
                } else {
                    ' '
                },
            )
        } else {
            Cell::Background(Colour::Reset)
        },
        RowKind::PastEnd => if k == 0 {
            Cell::Normal('~')
        } else {
            Cell::Normal(' ')
        },
        RowKind::Text(vis) => if gutter && k < 4 {
            gutter_cell(ln, k)
        } else {
            let j = if gutter {
                k - 4
            } else {
                k
            };
            Cell::Grapheme(
                if j < vis.len() {
                    vis[j]
                } else {
                    seq![' ']
                },
            )
        },
        RowKind::Blank => if gutter && k < 4 {
            gutter_cell(ln, k)
        } else {
            Cell::Normal(' ')
        },
    }
}

/// The cells of a row: `width` of them, and two more for the status bar,
/// which has a colour marker at each end.
pub open spec fn row_cells(kind: RowKind, width: nat, gutter: bool, ln: nat) -> Seq<Cell> {
    let len: nat = if kind is Status {
        width + 2
    } else {
        width
    };
    Seq::new(len, |k: int| row_cell(kind, width, gutter, ln, k))
}

/// The kind of output row `r`: the status bar last when there is one, else
/// line `start + r` of `lines`, seen from column `col_offset`.
pub open spec fn row_kind(
    lines: Seq<Seq<char>>,
    start: int,
    col_offset: int,
    height: int,
    status: Option<Seq<char>>,
    r: int,
) -> RowKind {
    if r == height - 1 && status is Some {
        RowKind::Status(status->Some_0)
    } else if start + r < lines.len() {
        let t = lines[start + r];
        if col_offset >= glen(t) {
            RowKind::Blank
        } else {
            RowKind::Text(graphemes_of(t).skip(col_offset))
        }
    } else {
        RowKind::PastEnd
    }
}

/// The status bar: the file name, a dirty marker, the cursor's line (from 1)
/// and the number of lines.
pub open spec fn status_text(name: Option<Seq<char>>, dirty: bool, row: nat, lines: nat) -> Seq<char> {
    let n = match name {
        Some(s) => s,
        None => "[No Name]"@,
    };
    let d = if dirty {
        " | + | "@
    } else {
        " "@
    };
    n + d + decimal(row + 1) + seq![':'] + decimal(lines)
}

/// The highlighting handed to output row `r`.
pub open spec fn row_highlight(h: Map<usize, Map<usize, Type>>, row: int) -> Option<(Type, Map<usize, Type>)> {
    if 0 <= row <= usize::MAX && h.contains_key(row as usize) {
        Some((carried(h, row), h[row as usize]))
    } else {
        None
    }
}


/// Whether a buffer holding `texts` is untouched: one empty line.
pub open spec fn untouched(texts: Seq<Seq<char>>) -> bool {
    texts == seq![Seq::<char>::empty()]
}

/// Output row `k` of pane `p` over buffer `b`; an untouched buffer shows
/// `default` instead of its text.
pub open spec fn pane_row(p: Pane, b: Buffer, default: Seq<Seq<char>>, k: int) -> Seq<Cell> {
    let t = b.texts();
    let status = if b.spec_norm() {
        Some(
            status_text(
                match b.spec_file_name() {
                    Some(s) => Some(s@),
                    None => None,
                },
                b.spec_dirty(),
                p.cursor.row as nat,
                t.len(),
            ),
        )
    } else {
        None
    };
    row_cells(
        row_kind(
            if untouched(t) {
                default
            } else {
                t
            },
            if untouched(t) {
                0
            } else {
                p.offset.row as int
            },
            p.offset.col as int,
            p.height as int,
            status,
            k,
        ),
        p.width as nat,
        b.spec_norm(),
        (k + 1 + p.offset.row) as nat,
    )
}

/// The highlighting handed to output row `k` of pane `p` over buffer `b`.
pub open spec fn pane_row_highlight(p: Pane, b: Buffer, h: Map<usize, Map<usize, Type>>, k: int) -> Option<
    (Type, Map<usize, Type>),
> {
    if k == p.height - 1 && b.spec_norm() {
        None
    } else {
        row_highlight(h, k + p.offset.row)
    }
}

/// The rows of a pane's output, one after another.
pub struct Iter<'a> {
    text: &'a [Line],
    start: usize,
    col_offset: usize,
    width: usize,
    height: usize,
    status_bar: Option<String>,
    row: usize,
    draw_tildes: bool,
    highlighting: TextHighlighting,
    row_offset: usize,
}

/// What a row shows.
pub enum Row<'a> {
    Normal(Vec<&'a str>),
    Empty { part_of_file: bool },
    StatusBar(String),
}

/// The cells of one row, one after another, with the row's highlighting.
pub struct RowIter<'a> {
    row: Row<'a>,
    col: usize,
    line: u128,
    width: usize,
    draw_tildes: bool,
    pub highlighting: Option<LineHighlighting>,
}

impl<'a> Iter<'a> {
    pub closed spec fn wf(&self) -> bool {
        forall|i: int| 0 <= i < self.text@.len() ==> #[trigger] self.text@[i].wf()
    }

    /// The index of the next row.
    pub closed spec fn pos(&self) -> nat {
        self.row as nat
    }

    /// Number of rows.
    pub closed spec fn rows(&self) -> nat {
        self.height as nat
    }

    /// The cells of output row `r`.
    pub closed spec fn row_view(&self, r: int) -> Seq<Cell> {
        row_cells(
            row_kind(
                self.text@.map_values(|l: Line| l@),
                self.start as int,
                self.col_offset as int,
                self.height as int,
                match self.status_bar {
                    Some(s) => Some(s@),
                    None => None,
                },
                r,
            ),
            self.width as nat,
            self.draw_tildes,
            (r + 1 + self.row_offset) as nat,
        )
    }

    /// The highlighting of output row `r`.
    pub closed spec fn row_highlight(&self, r: int) -> Option<(Type, Map<usize, Type>)> {
        if r == self.height - 1 && self.status_bar is Some {
            None
        } else {
            row_highlight(self.highlighting@, r + self.row_offset)
        }
    }
}

impl<'a> RowIter<'a> {
    /// The cells of the row.
    pub closed spec fn cells(&self) -> Seq<Cell> {
        row_cells(self.kind(), self.width as nat, self.draw_tildes, self.line as nat)
    }

    /// What the row shows.
    pub closed spec fn kind(&self) -> RowKind {
        match self.row {
            Row::Normal(v) => RowKind::Text(str_views(v@)),
            Row::Empty { part_of_file } => if part_of_file {
                RowKind::Blank
            } else {
                RowKind::PastEnd
            },
            Row::StatusBar(s) => RowKind::Status(s@),
        }
    }

    /// The index of the next cell.
    pub closed spec fn pos(&self) -> nat {
        self.col as nat
    }

    /// The row's highlighting.
    pub closed spec fn highlight_view(&self) -> Option<(Type, Map<usize, Type>)> {
        match self.highlighting {
            Some(l) => Some(l@),
            None => None,
        }
    }
}

/// `r` is the output of pane `p` over `bs`: an error when the buffer is
/// missing, else rows that start at the top and show what `pane_row` and
/// `pane_row_highlight` say.
pub open spec fn displayed<'a>(
    p: Pane,
    bs: Seq<Buffer>,
    default: Seq<Seq<char>>,
    h: Map<usize, Map<usize, Type>>,
    r: Result<Iter<'a>, EditError>,
) -> bool {
    if p.buffer_id >= bs.len() {
        r == Err::<Iter<'a>, EditError>(EditError::BufferClosedPrematurely(p.buffer_id))
    } else {
        &&& r matches Ok(it)
        &&& r->Ok_0.wf()
        &&& r->Ok_0.width_ok()
        &&& r->Ok_0.pos() == 0
        &&& r->Ok_0.rows() == p.height
        &&& forall|k: int|
            0 <= k < p.height ==> r->Ok_0.row_view(k) == pane_row(p, bs[p.buffer_id as int], default, k)
                && r->Ok_0.row_highlight(k) == pane_row_highlight(p, bs[p.buffer_id as int], h, k)
    }
}

impl Pane {
    /// The pane's output: `height` rows of cells over its buffer, the last of
    /// them the status bar for a file buffer, with `highlighting` handed to
    /// each row.
    pub fn display<'a>(
        &self,
        buffers: &'a [Buffer],
        default: &'a [Line],
        highlighting: TextHighlighting,
    ) -> (r: Result<Iter<'a>, EditError>)
        requires
            buffers_wf(buffers@),
            forall|i: int| 0 <= i < default@.len() ==> #[trigger] default@[i].wf(),
            self.width + 2 <= usize::MAX,
        ensures
            displayed(*self, buffers@, default@.map_values(|l: Line| l@), highlighting@, r),
    {
        if self.buffer_id >= buffers.len() {
            return Err(EditError::BufferClosedPrematurely(self.buffer_id));
        }
        let buffer = &buffers[self.buffer_id];
        proof {
            assert(buffer.wf());
        }
        let status_bar = if buffer.is_norm() {
            let mut s = match buffer.file_name() {
                Some(name) => name.clone(),
                None => "[No Name]".to_owned(),
            };
            if buffer.is_dirty() {
                s.push_str(" | + | ");
            } else {
                s.push_str(" ");
            }
            push_decimal(&mut s, (self.cursor.row as u128) + 1);
            s.push(':');
            push_decimal(&mut s, buffer.lines() as u128);
            Some(s)
        } else {
            None
        };
        let empty = buffer.is_empty();
        proof {
            if empty {
                assert(buffer.texts()[0] =~= Seq::<char>::empty());
                assert(buffer.texts() =~= seq![Seq::<char>::empty()]);
            } else if buffer.texts().len() == 1 {
                assert(buffer.texts()[0].len() != 0);
                assert(buffer.texts() != seq![Seq::<char>::empty()]);
            }
        }
        let text: &'a [Line] = if empty {
            default
        } else {
            buffer.as_slice()
        };
        let start = if empty {
            0
        } else {
            self.offset.row
        };
        let it = Iter {
            text,
            start,
            col_offset: self.offset.col,
            width: self.width,
            height: self.height,
            status_bar,
            row: 0,
            draw_tildes: buffer.is_norm(),
            highlighting,
            row_offset: self.offset.row,
        };
        proof {
            assert forall|k: int| 0 <= k < self.height implies it.row_view(k) == pane_row(
                *self,
                buffers@[self.buffer_id as int],
                default@.map_values(|l: Line| l@),
                k,
            ) by {
                if !empty {
                    assert(text@.map_values(|l: Line| l@) == buffer.texts());
                } else {
                    assert(text@.map_values(|l: Line| l@) == default@.map_values(|l: Line| l@));
                }
            }
        }
        Ok(it)
    }
}

/// The last decimal digit of `n`.
fn digit_char(n: u128) -> (r: char)
    ensures
        r == digit(n as nat),
{
    ((n % 10) as u8 + 48) as char
}

/// Appends the decimal digits of `n`.
fn push_decimal(s: &mut String, n: u128)
    ensures
        final(s)@ == old(s)@ + decimal(n as nat),
    decreases n,
{
    if n >= 10 {
        push_decimal(s, n / 10);
    }
    s.push(digit_char(n));
    proof {
        if n >= 10 {
            assert(old(s)@ + decimal(n as nat) =~= old(s)@ + decimal((n / 10) as nat) + seq![digit(n as nat)]);
        } else {
            assert(old(s)@ + decimal(n as nat) =~= old(s)@ + seq![digit(n as nat)]);
        }
    }
}

/// Gutter cell `k` of line number `ln`.
fn gutter_char(ln: u128, k: usize) -> (r: char)
    requires
        k < 4,
    ensures
        Cell::Normal(r) == gutter_cell(ln as nat, k as int),
{
    if k == 0 {
        if ln > 99 {
            digit_char(ln / 100)
        } else {
            ' '
        }
    } else if k == 1 {
        if ln > 9 {
            digit_char(ln / 10)
        } else {
            ' '
        }
    } else if k == 2 {
        digit_char(ln)
    } else {
        ' '
    }
}

impl<'a> RowIter<'a> {
    pub closed spec fn wf(&self) -> bool {
        &&& self.width + 2 <= usize::MAX
        &&& self.col <= self.cells().len()
    }

    /// The next cell of the row.
    pub fn next(&mut self) -> (r: Option<Char<'a>>)
        requires
            old(self).wf(),
        ensures
            final(self).wf(),
            final(self).cells() == old(self).cells(),
            old(self).pos() < old(self).cells().len() ==> (r matches Some(c) && cell_of(c)
                == old(self).cells()[old(self).pos() as int] && final(self).pos() == old(self).pos()
                + 1),
            old(self).pos() >= old(self).cells().len() ==> r is None && final(self).pos() == old(
                self,
            ).pos(),
    {
        let k = self.col;
        let len = match &self.row {
            Row::StatusBar(_) => self.width + 2,
            _ => self.width,
        };
        if k < len {
            let c = self.cell_at(k);
            self.col = k + 1;
            Some(c)
        } else {
            None
        }
    }

    /// Cell `k` of the row.
    fn cell_at(&self, k: usize) -> (r: Char<'a>)
        requires
            k < self.cells().len(),
        ensures
            cell_of(r) == self.cells()[k as int],
    {
        proof {
            assert(self.cells()[k as int] == row_cell(
                self.kind(),
                self.width as nat,
                self.draw_tildes,
                self.line as nat,
                k as int,
            ));
        }
        let ghost want = self.cells()[k as int];
        match &self.row {
            Row::StatusBar(sb) => {
                if k == 0 {
                    assert(want == Cell::Background(Colour::Red));
                    Char::Background(Colour::Red)
                } else if k - 1 < self.width {
                    let cs = chars_of(sb.as_str());
                    let c = if k - 1 < cs.len() {
                        cs[k - 1]
                    } else {
                        ' '
                    };
                    assert(cell_of(Char::Normal(c)) == want);
                    Char::Normal(c)
                } else {
                    assert(want == Cell::Background(Colour::Reset));
                    Char::Background(Colour::Reset)
                }
            },
            Row::Empty { part_of_file } => {
                if !*part_of_file {
                    if k == 0 {
                        assert(want == Cell::Normal('~'));
                        Char::Normal('~')
                    } else {
                        assert(want == Cell::Normal(' '));
                        Char::Normal(' ')
                    }
                } else if self.draw_tildes && k < 4 {
                    let c = gutter_char(self.line, k);
                    assert(want == Cell::Normal(c));
                    Char::Normal(c)
                } else {
                    assert(want == Cell::Normal(' '));
                    Char::Normal(' ')
                }
            },
            Row::Normal(v) => {
                if self.draw_tildes && k < 4 {
                    let c = gutter_char(self.line, k);
                    assert(want == Cell::Normal(c));
                    Char::Normal(c)
                } else {
                    let j = if self.draw_tildes {
                        k - 4
                    } else {
                        k
                    };
                    if j < v.len() {
                        proof {
                            assert(str_views(v@)[j as int] == v@[j as int]@);
                        }
                        assert(want == Cell::Grapheme(v@[j as int]@));
                        Char::Grapheme(v[j])
                    } else {
                        proof {
                            reveal_strlit(" ");
                            assert(" "@ =~= seq![' ']);
                        }
                        assert(want == Cell::Grapheme(" "@));
                        Char::Grapheme(" ")
                    }
                }
            },
        }
    }
}

impl<'a> Iter<'a> {
    /// `self` and `other` produce the same rows.
    pub closed spec fn same_output(&self, other: &Iter<'a>) -> bool {
        &&& self.text == other.text
        &&& self.start == other.start
        &&& self.col_offset == other.col_offset
        &&& self.width == other.width
        &&& self.height == other.height
        &&& self.status_bar == other.status_bar
        &&& self.draw_tildes == other.draw_tildes
        &&& self.highlighting@ == other.highlighting@
        &&& self.row_offset == other.row_offset
    }

    /// The next row.
    pub fn next(&mut self) -> (r: Option<RowIter<'a>>)
        requires
            old(self).wf(),
            old(self).width_ok(),
        ensures
            final(self).wf(),
            final(self).width_ok(),
            final(self).same_output(old(self)),
            old(self).pos() < old(self).rows() ==> (r matches Some(ri) && ri.wf() && ri.pos() == 0
                && ri.cells() == old(self).row_view(old(self).pos() as int) && final(self).pos()
                == old(self).pos() + 1 && ri.highlight_view() == old(self).row_highlight(
                old(self).pos() as int,
            )),
            old(self).pos() >= old(self).rows() ==> r is None && final(self).pos() == old(self).pos(),
    {
        if self.row >= self.height {
            return None;
        }
        let r = self.row;
        self.row = r + 1;
        let line_no: u128 = (r as u128) + 1 + (self.row_offset as u128);
        if r == self.height - 1 && self.status_bar.is_some() {
            let sb = match &self.status_bar {
                Some(s) => s.clone(),
                None => String::new(),
            };
            return Some(
                RowIter {
                    row: Row::StatusBar(sb),
                    col: 0,
                    line: line_no,
                    width: self.width,
                    draw_tildes: self.draw_tildes,
                    highlighting: None,
                },
            );
        }
        let text: &'a [Line] = self.text;
        let row = if self.start <= text.len() && r < text.len() - self.start {
            let line: &'a Line = &text[self.start + r];
            proof {
                assert(text@[self.start + r].wf());
            }
            if self.col_offset >= line.len() {
                Row::Empty { part_of_file: true }
            } else {
                let parts = clusters(line.as_str());
                let mut vis: Vec<&'a str> = Vec::new();
                let mut k = self.col_offset;
                while k < parts.len()
                    invariant
                        self.col_offset <= k <= parts@.len(),
                        str_views(vis@) == str_views(parts@).subrange(self.col_offset as int, k as int),
                    decreases parts@.len() - k,
                {
                    let ghost prev = vis@;
                    vis.push(parts[k]);
                    proof {
                        assert(vis@ == prev.push(parts@[k as int]));
                        assert(str_views(vis@) =~= str_views(prev).push(parts@[k as int]@));
                        assert(str_views(vis@) =~= str_views(parts@).subrange(self.col_offset as int, k + 1));
                    }
                    k += 1;
                }
                proof {
                    assert(str_views(parts@).subrange(self.col_offset as int, parts@.len() as int)
                        =~= str_views(parts@).skip(self.col_offset as int));
                }
                Row::Normal(vis)
            }
        } else {
            Row::Empty { part_of_file: false }
        };
        let highlighting = if r <= usize::MAX - self.row_offset {
            self.highlighting.get_line(r + self.row_offset)
        } else {
            None
        };
        proof {
            assert(text@.map_values(|l: Line| l@).len() == text@.len());
        }
        Some(
            RowIter {
                row,
                col: 0,
                line: line_no,
                width: self.width,
                draw_tildes: self.draw_tildes,
                highlighting,
            },
        )
    }

    pub closed spec fn width_ok(&self) -> bool {
        self.width + 2 <= usize::MAX
    }
}

} // verus!
