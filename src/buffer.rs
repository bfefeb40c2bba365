//! Lines of text addressed by grapheme cluster, and the buffer that holds them.

use crate::text::{
    byte_len, chars_of, clusters, decode_lossy, glen, lossy_utf8, graphemes_of, lemma_encode_concat,
    lemma_prefix_suffix, lemma_suffix_step, prefix, str_views, suffix,
};
use crate::highlight::{Highlighter, TextHighlighting};
use vstd::prelude::*;
use vstd::utf8::{decode_utf8, encode_utf8, valid_utf8};

verus! {

/// The characters of `parts[from..to]`, one after the other.
fn concat_range(parts: &Vec<&str>, from: usize, to: usize) -> (r: String)
    requires
        from <= to <= parts@.len(),
    ensures
        r@ == str_views(parts@).subrange(from as int, to as int).flatten(),
{
    let mut r = String::new();
    let mut k = from;
    while k < to
        invariant
            from <= k <= to <= parts@.len(),
            r@ == str_views(parts@).subrange(from as int, k as int).flatten(),
        decreases to - k,
    {
        proof {
            let v = str_views(parts@);
            assert(v.subrange(from as int, k + 1) =~= v.subrange(from as int, k as int).push(v[k as int]));
            v.subrange(from as int, k as int).lemma_flatten_push(v[k as int]);
        }
        r.push_str(parts[k]);
        k += 1;
    }
    r
}

/// Byte length of the first `n` of `parts`.
fn prefix_bytes(parts: &Vec<&str>, n: usize, total: usize) -> (r: usize)
    requires
        n <= parts@.len(),
        total == byte_len(str_views(parts@).flatten()),
    ensures
        r == byte_len(str_views(parts@).take(n as int).flatten()),
{
    let ghost v = str_views(parts@);
    let mut sum: usize = 0;
    let mut k: usize = 0;
    while k < n
        invariant
            k <= n <= parts@.len(),
            v == str_views(parts@),
            total == byte_len(v.flatten()),
            sum == byte_len(v.take(k as int).flatten()),
        decreases n - k,
    {
        proof {
            assert(v.take(k + 1) =~= v.take(k as int).push(v[k as int]));
            v.take(k as int).lemma_flatten_push(v[k as int]);
            lemma_encode_concat(v.take(k as int).flatten(), v[k as int]);
            vstd::seq_lib::lemma_flatten_concat(v.take(k + 1), v.skip(k + 1));
            assert(v.take(k + 1) + v.skip(k + 1) =~= v);
            lemma_encode_concat(v.take(k + 1).flatten(), v.skip(k + 1).flatten());
        }
        sum = sum + parts[k].len();
        k += 1;
    }
    sum
}

/// One row of text, with its count of grapheme clusters and the byte offset
/// at which it starts in the whole buffer.
#[derive(Debug)]
pub struct Line {
    text: String,
    graphemes: usize,
    offset: usize,
}

impl View for Line {
    type V = Seq<char>;

    closed spec fn view(&self) -> Seq<char> {
        self.text@
    }
}

/// Two lines are equal when they hold the same text (and so the same number
/// of clusters); where a line starts in its buffer is not part of it.
impl PartialEq for Line {
    fn eq(&self, other: &Line) -> (r: bool) {
        self.text == other.text && self.graphemes == other.graphemes
    }
}

impl vstd::std_specs::cmp::PartialEqSpecImpl for Line {
    open spec fn obeys_eq_spec() -> bool {
        false
    }

    open spec fn eq_spec(&self, other: &Line) -> bool {
        self@ == other@ && self.count() == other.count()
    }
}

impl Eq for Line {}

impl Clone for Line {
    fn clone(&self) -> (r: Line)
        ensures
            r@ == self@,
            r.start() == self.start(),
            r.count() == self.count(),
    {
        Line { text: self.text.clone(), graphemes: self.graphemes, offset: self.offset }
    }
}

impl Default for Line {
    fn default() -> (r: Line)
        ensures
            r@ == Seq::<char>::empty(),
            r.start() == 0,
            r.wf(),
    {
        Line::new(String::new(), 0)
    }
}

impl Line {
    /// Byte offset of the line's first byte from the start of the buffer.
    pub closed spec fn start(&self) -> nat {
        self.offset as nat
    }

    /// The cached number of grapheme clusters.
    pub closed spec fn count(&self) -> nat {
        self.graphemes as nat
    }

    /// The cached count agrees with the text, and the text's bytes fit in a `usize`.
    pub closed spec fn wf(&self) -> bool {
        &&& self.graphemes == glen(self.text@)
        &&& byte_len(self.text@) <= usize::MAX
        &&& graphemes_of(self.text@).flatten() == self.text@
    }

    /// Byte length of the line's text.
    pub open spec fn bytes_len(&self) -> nat {
        byte_len(self@)
    }

    fn count_of(text: &String) -> (r: usize)
        ensures
            r == glen(text@),
            graphemes_of(text@).flatten() == text@,
    {
        clusters(text.as_str()).len()
    }

    fn byte_count(text: &String) -> (r: usize)
        ensures
            r == byte_len(text@),
    {
        text.as_str().as_bytes().len()
    }

    pub fn new(text: String, offset: usize) -> (r: Line)
        ensures
            r@ == text@,
            r.start() == offset,
            r.wf(),
    {
        let graphemes = Line::count_of(&text);
        let _ = Line::byte_count(&text);
        Line { text, graphemes, offset }
    }

    /// Byte offset of the line's first byte from the start of its buffer.
    pub fn start_offset(&self) -> (r: usize)
        ensures
            r == self.start(),
    {
        self.offset
    }

    /// Number of grapheme clusters in the line.
    pub fn len(&self) -> (r: usize)
        requires
            self.wf(),
        ensures
            r == glen(self@),
    {
        self.graphemes
    }

    /// The text of the line.
    pub fn as_str(&self) -> (r: &str)
        ensures
            r@ == self@,
    {
        self.text.as_str()
    }

    /// The UTF-8 bytes of the line.
    pub fn bytes(&self) -> (r: &[u8])
        ensures
            r@ == encode_utf8(self@),
    {
        self.text.as_str().as_bytes()
    }

    /// Byte index at which grapheme cluster `idx` starts (the text's byte length
    /// when `idx` is the number of clusters).
    pub fn to_byte_idx(&self, idx: usize) -> (r: usize)
        requires
            self.wf(),
            idx <= glen(self@),
        ensures
            r == byte_len(prefix(self@, idx as int)),
    {
        let parts = clusters(self.text.as_str());
        let total = Line::byte_count(&self.text);
        prefix_bytes(&parts, idx, total)
    }

    /// The text from grapheme cluster `idx` on.
    pub fn skip(&self, idx: usize) -> (r: String)
        requires
            self.wf(),
            idx <= glen(self@),
        ensures
            r@ == suffix(self@, idx as int),
    {
        let parts = clusters(self.text.as_str());
        let r = concat_range(&parts, idx, parts.len());
        proof {
            let v = str_views(parts@);
            assert(v.subrange(idx as int, v.len() as int) =~= v.skip(idx as int));
        }
        r
    }

    /// Inserts `grapheme` before cluster `idx` (at the end when `idx` is the length).
    pub fn insert_grapheme(&mut self, idx: usize, grapheme: &str)
        requires
            old(self).wf(),
            idx <= glen(old(self)@),
        ensures
            final(self).wf(),
            final(self)@ == prefix(old(self)@, idx as int) + grapheme@ + suffix(old(self)@, idx as int),
            final(self).start() == old(self).start(),
    {
        let parts = clusters(self.text.as_str());
        let mut text = concat_range(&parts, 0, idx);
        text.push_str(grapheme);
        let rest = concat_range(&parts, idx, parts.len());
        text.push_str(rest.as_str());
        proof {
            let v = str_views(parts@);
            assert(v.subrange(0, idx as int) =~= v.take(idx as int));
            assert(v.subrange(idx as int, v.len() as int) =~= v.skip(idx as int));
        }
        self.graphemes = Line::count_of(&text);
        let _ = Line::byte_count(&text);
        self.text = text;
    }

    /// Removes grapheme cluster `idx`.
    pub fn remove(&mut self, idx: usize)
        requires
            old(self).wf(),
            idx < glen(old(self)@),
        ensures
            final(self).wf(),
            final(self)@ == prefix(old(self)@, idx as int) + suffix(old(self)@, idx + 1),
            final(self).start() == old(self).start(),
    {
        let parts = clusters(self.text.as_str());
        let mut text = concat_range(&parts, 0, idx);
        let rest = concat_range(&parts, idx + 1, parts.len());
        text.push_str(rest.as_str());
        proof {
            let v = str_views(parts@);
            assert(v.subrange(0, idx as int) =~= v.take(idx as int));
            assert(v.subrange(idx + 1, v.len() as int) =~= v.skip(idx + 1));
        }
        self.graphemes = Line::count_of(&text);
        let _ = Line::byte_count(&text);
        self.text = text;
    }

    /// Cuts the line before cluster `idx`: the line keeps what comes before and
    /// the rest is returned as a line that starts where the kept part ends.
    pub fn split_at(&mut self, idx: usize) -> (r: Line)
        requires
            old(self).wf(),
            idx <= glen(old(self)@),
            old(self).start() + old(self).bytes_len() <= usize::MAX,
        ensures
            final(self).wf(),
            r.wf(),
            final(self)@ == prefix(old(self)@, idx as int),
            r@ == suffix(old(self)@, idx as int),
            final(self).start() == old(self).start(),
            r.start() == old(self).start() + byte_len(prefix(old(self)@, idx as int)),
    {
        let parts = clusters(self.text.as_str());
        let total = Line::byte_count(&self.text);
        let cut = prefix_bytes(&parts, idx, total);
        let head = concat_range(&parts, 0, idx);
        let rest = concat_range(&parts, idx, parts.len());
        proof {
            let v = str_views(parts@);
            assert(v.subrange(0, idx as int) =~= v.take(idx as int));
            assert(v.subrange(idx as int, v.len() as int) =~= v.skip(idx as int));
            lemma_prefix_suffix(self.text@, idx as int);
            lemma_encode_concat(head@, rest@);
        }
        let r = Line::new(rest, self.offset + cut);
        self.graphemes = Line::count_of(&head);
        let _ = Line::byte_count(&head);
        self.text = head;
        r
    }

    /// The grapheme column of the byte `rel` bytes into the line.
    fn col_at(&self, rel: usize) -> (r: usize)
        requires
            self.wf(),
        ensures
            is_col_at(self@, rel as nat, r as nat),
    {
        let parts = clusters(self.text.as_str());
        let total = Line::byte_count(&self.text);
        let ghost v = str_views(parts@);
        let mut sum: usize = 0;
        let mut k: usize = 0;
        loop
            invariant
                k <= parts@.len(),
                v == str_views(parts@),
                v == graphemes_of(self.text@),
                total == byte_len(v.flatten()),
                sum == byte_len(v.take(k as int).flatten()),
                sum <= rel,
            ensures
                k <= parts@.len(),
                sum == byte_len(v.take(k as int).flatten()),
                sum <= rel,
                k < parts@.len() ==> byte_len(v.take(k + 1).flatten()) > rel,
            decreases parts@.len() - k,
        {
            if k >= parts.len() {
                break;
            }
            proof {
                assert(v.take(k + 1) =~= v.take(k as int).push(v[k as int]));
                v.take(k as int).lemma_flatten_push(v[k as int]);
                lemma_encode_concat(v.take(k as int).flatten(), v[k as int]);
                vstd::seq_lib::lemma_flatten_concat(v.take(k + 1), v.skip(k + 1));
                assert(v.take(k + 1) + v.skip(k + 1) =~= v);
                lemma_encode_concat(v.take(k + 1).flatten(), v.skip(k + 1).flatten());
            }
            let w = parts[k].len();
            if sum + w > rel {
                break;
            }
            sum = sum + w;
            k += 1;
        }
        k
    }

    /// Appends the text of `other`.
    pub fn merge(&mut self, other: &Line)
        requires
            old(self).wf(),
        ensures
            final(self).wf(),
            final(self)@ == old(self)@ + other@,
            final(self).start() == old(self).start(),
    {
        self.text.push_str(other.text.as_str());
        self.graphemes = Line::count_of(&self.text);
        let _ = Line::byte_count(&self.text);
    }

    /// Appends each of `parts` in turn.
    pub fn extend(&mut self, parts: &[&str])
        requires
            old(self).wf(),
        ensures
            final(self).wf(),
            final(self)@ == old(self)@ + str_views(parts@).flatten(),
            final(self).start() == old(self).start(),
    {
        let ghost first = self.text@;
        let mut k: usize = 0;
        while k < parts.len()
            invariant
                k <= parts@.len(),
                self.text@ == first + str_views(parts@).take(k as int).flatten(),
                self.offset == old(self).offset,
            decreases parts@.len() - k,
        {
            proof {
                let v = str_views(parts@);
                assert(v.take(k + 1) =~= v.take(k as int).push(v[k as int]));
                v.take(k as int).lemma_flatten_push(v[k as int]);
            }
            self.text.push_str(parts[k]);
            k += 1;
        }
        proof {
            let v = str_views(parts@);
            assert(v.take(v.len() as int) =~= v);
        }
        self.graphemes = Line::count_of(&self.text);
        let _ = Line::byte_count(&self.text);
    }
}


/// Byte offset at which line `i` of `texts` starts when the lines are joined
/// with one newline between each two.
pub open spec fn line_start(texts: Seq<Seq<char>>, i: int) -> nat
    decreases i,
{
    if i <= 0 {
        0
    } else {
        line_start(texts, i - 1) + byte_len(texts[i - 1]) + 1
    }
}

/// Byte length of `texts` joined with one newline between each two.
pub open spec fn text_size(texts: Seq<Seq<char>>) -> nat {
    if texts.len() == 0 {
        0
    } else {
        line_start(texts, texts.len() - 1) + byte_len(texts.last())
    }
}

/// The characters of `texts` joined with one newline between each two.
pub open spec fn joined(texts: Seq<Seq<char>>) -> Seq<char>
    decreases texts.len(),
{
    if texts.len() == 0 {
        seq![]
    } else if texts.len() == 1 {
        texts[0]
    } else {
        joined(texts.drop_last()) + seq!['\n'] + texts.last()
    }
}

/// The lines of `s`: the pieces between its newlines.
pub open spec fn split_lines(s: Seq<char>) -> Seq<Seq<char>>
    decreases s.len(),
{
    if s.len() == 0 {
        seq![seq![]]
    } else {
        let rest = split_lines(s.drop_last());
        if s.last() == '\n' {
            rest.push(seq![])
        } else {
            rest.update(rest.len() - 1, rest.last().push(s.last()))
        }
    }
}

/// Every line's offset is where it starts in the joined text.
pub open spec fn offsets_consistent(rows: Seq<Line>) -> bool {
    forall|i: int|
        0 <= i < rows.len() ==> #[trigger] rows[i].start() == line_start(
            rows.map_values(|l: Line| l@),
            i,
        )
}

pub proof fn lemma_line_start_mono(texts: Seq<Seq<char>>, i: int, j: int)
    requires
        i <= j,
    ensures
        line_start(texts, i) <= line_start(texts, j),
    decreases j - i,
{
    if i < j {
        lemma_line_start_mono(texts, i, j - 1);
    }
}

/// A line's start depends on the lines before it only.
pub proof fn lemma_line_start_prefix(a: Seq<Seq<char>>, b: Seq<Seq<char>>, i: int)
    requires
        0 <= i <= a.len(),
        i <= b.len(),
        a.take(i) == b.take(i),
    ensures
        line_start(a, i) == line_start(b, i),
    decreases i,
{
    if i > 0 {
        assert(a.take(i - 1) =~= a.take(i).take(i - 1));
        assert(b.take(i - 1) =~= b.take(i).take(i - 1));
        assert(a[i - 1] == a.take(i)[i - 1]);
        assert(b[i - 1] == b.take(i)[i - 1]);
        lemma_line_start_prefix(a, b, i - 1);
    }
}

/// The UTF-8 encoding of a newline is the single byte 10.
pub proof fn lemma_encode_newline()
    ensures
        encode_utf8(seq!['\n']) == seq![10u8],
{
    let nl = seq!['\n'];
    assert(nl.drop_first() =~= Seq::<char>::empty());
    assert(('\n' as u32) == 10);
    assert((10u32 & 0x7F) == 10) by (bit_vector);
    assert(vstd::utf8::encode_scalar(10u32) =~= seq![10u8]);
    assert(nl[0] == '\n');
    assert(encode_utf8(Seq::<char>::empty()) =~= Seq::<u8>::empty());
    assert(encode_utf8(nl) =~= seq![10u8]);
}

/// The byte length of the joined lines is the size given by the line starts.
pub proof fn lemma_text_size_joined(texts: Seq<Seq<char>>)
    ensures
        text_size(texts) == byte_len(joined(texts)),
    decreases texts.len(),
{
    if texts.len() > 1 {
        let init = texts.drop_last();
        lemma_text_size_joined(init);
        assert(texts.take(texts.len() - 2) =~= init.take(texts.len() - 2));
        lemma_line_start_prefix(texts, init, texts.len() - 2);
        lemma_encode_newline();
        lemma_encode_concat(joined(init), seq!['\n']);
        lemma_encode_concat(joined(init) + seq!['\n'], texts.last());
    }
}

/// Joining the lines of `s` gives back `s`.
pub proof fn lemma_joined_split(s: Seq<char>)
    ensures
        joined(split_lines(s)) == s,
        split_lines(s).len() >= 1,
    decreases s.len(),
{
    if s.len() > 0 {
        let init = s.drop_last();
        lemma_joined_split(init);
        let rest = split_lines(init);
        if s.last() == '\n' {
            assert(rest.push(seq![]).drop_last() =~= rest);
            assert(joined(rest.push(seq![])) =~= s);
        } else {
            let up = rest.update(rest.len() - 1, rest.last().push(s.last()));
            if rest.len() == 1 {
                assert(joined(up) =~= s);
            } else {
                assert(up.drop_last() =~= rest.drop_last());
                assert(up.last() == rest.last().push(s.last()));
                assert(joined(rest) == joined(rest.drop_last()) + seq!['\n'] + rest.last());
                assert(s =~= init.push(s.last()));
                assert(joined(up) =~= s);
            }
        }
    }
}


/// Saving what was loaded gives the bytes back: for valid UTF-8, the lines
/// that `from_bytes` makes, joined as `to_chunk` joins them, encode to the
/// same bytes.
pub proof fn lemma_chunk_round_trip(b: Seq<u8>)
    requires
        valid_utf8(b),
    ensures
        encode_utf8(joined(split_lines(decode_utf8(b)))) == b,
{
    lemma_joined_split(decode_utf8(b));
    vstd::utf8::decode_utf8_encode_utf8(b);
}

/// A line's length is the number of grapheme clusters in its text, whatever
/// insertions, removals, splits and merges made it: each of them leaves the
/// line well formed.
pub proof fn lemma_len_counts_clusters(l: Line)
    requires
        l.wf(),
    ensures
        l.count() == glen(l@),
{
}

/// Splitting a line at cluster `i` and merging the rest back gives the
/// line's text, and so its number of clusters.
pub proof fn lemma_split_merge_inverse(l: Line, i: int)
    requires
        l.wf(),
        0 <= i <= glen(l@),
    ensures
        prefix(l@, i) + suffix(l@, i) == l@,
        glen(prefix(l@, i) + suffix(l@, i)) == glen(l@),
{
    lemma_prefix_suffix(l@, i);
}

/// In a well-formed buffer the first line starts at byte 0 and every other
/// line starts one byte (the newline) after the end of the line before it.
/// Every edit of a buffer leaves it well formed.
pub proof fn lemma_offsets_consistent(b: Buffer)
    requires
        b.wf(),
    ensures
        b.rows()[0].start() == 0,
        forall|i: int|
            1 <= i < b.rows().len() ==> #[trigger] b.rows()[i].start() == b.rows()[i - 1].start()
                + byte_len(b.texts()[i - 1]) + 1,
{
    assert(b.rows()[0].start() == line_start(b.texts(), 0));
    assert forall|i: int| 1 <= i < b.rows().len() implies #[trigger] b.rows()[i].start()
        == b.rows()[i - 1].start() + byte_len(b.texts()[i - 1]) + 1 by {
        assert(b.rows()[i].start() == line_start(b.texts(), i));
        assert(b.rows()[i - 1].start() == line_start(b.texts(), i - 1));
    }
}

/// A well-formed line's cluster count fits in a `usize`.
pub proof fn lemma_line_len_fits(l: Line)
    requires
        l.wf(),
    ensures
        glen(l@) <= usize::MAX,
{
}

/// Total bytes of all the lines, newlines not counted.
pub open spec fn total_bytes(texts: Seq<Seq<char>>) -> nat
    decreases texts.len(),
{
    if texts.len() == 0 {
        0
    } else {
        total_bytes(texts.drop_last()) + byte_len(texts.last())
    }
}

pub proof fn lemma_total_concat(a: Seq<Seq<char>>, b: Seq<Seq<char>>)
    ensures
        total_bytes(a + b) == total_bytes(a) + total_bytes(b),
    decreases b.len(),
{
    if b.len() == 0 {
        assert(a + b =~= a);
    } else {
        assert((a + b).drop_last() =~= a + b.drop_last());
        assert((a + b).last() == b.last());
        lemma_total_concat(a, b.drop_last());
    }
}

pub proof fn lemma_total_single(x: Seq<char>)
    ensures
        total_bytes(seq![x]) == byte_len(x),
{
    assert(seq![x].drop_last() =~= Seq::<Seq<char>>::empty());
    assert(total_bytes(Seq::<Seq<char>>::empty()) == 0);
    assert(seq![x].last() == x);
}

pub proof fn lemma_line_start_total(t: Seq<Seq<char>>, i: int)
    requires
        0 <= i <= t.len(),
    ensures
        line_start(t, i) == total_bytes(t.take(i)) + i,
    decreases i,
{
    if i > 0 {
        lemma_line_start_total(t, i - 1);
        assert(t.take(i).drop_last() =~= t.take(i - 1));
    }
}

/// The joined size is the bytes of all lines plus one newline between each two.
pub proof fn lemma_size_total(t: Seq<Seq<char>>)
    requires
        t.len() >= 1,
    ensures
        text_size(t) == total_bytes(t) + t.len() - 1,
{
    lemma_line_start_total(t, t.len() - 1);
    assert(t.take(t.len() - 1) =~= t.drop_last());
}

/// The bytes of the lines around position `r`, and of line `r` itself.
pub proof fn lemma_total_split(t: Seq<Seq<char>>, r: int)
    requires
        0 <= r < t.len(),
    ensures
        total_bytes(t) == total_bytes(t.take(r)) + byte_len(t[r]) + total_bytes(t.skip(r + 1)),
{
    assert(t =~= t.take(r) + seq![t[r]] + t.skip(r + 1));
    lemma_total_concat(t.take(r) + seq![t[r]], t.skip(r + 1));
    lemma_total_concat(t.take(r), seq![t[r]]);
    lemma_total_single(t[r]);
}

pub proof fn lemma_total_update(t: Seq<Seq<char>>, r: int, x: Seq<char>)
    requires
        0 <= r < t.len(),
    ensures
        total_bytes(t.update(r, x)) + byte_len(t[r]) == total_bytes(t) + byte_len(x),
{
    let u = t.update(r, x);
    lemma_total_split(t, r);
    lemma_total_split(u, r);
    assert(u.take(r) =~= t.take(r));
    assert(u.skip(r + 1) =~= t.skip(r + 1));
}

/// Lines `0..k` kept their offsets and the texts before them: their offsets
/// still are where they start.
proof fn lemma_starts_kept(old_rows: Seq<Line>, new_rows: Seq<Line>, k: int)
    requires
        offsets_consistent(old_rows),
        0 <= k <= old_rows.len(),
        k <= new_rows.len(),
        forall|i: int| 0 <= i < k ==> #[trigger] new_rows[i].start() == old_rows[i].start(),
        old_rows.map_values(|l: Line| l@).take(k) == new_rows.map_values(|l: Line| l@).take(k),
    ensures
        forall|i: int|
            0 <= i < k ==> #[trigger] new_rows[i].start() == line_start(
                new_rows.map_values(|l: Line| l@),
                i,
            ),
{
    let a = old_rows.map_values(|l: Line| l@);
    let b = new_rows.map_values(|l: Line| l@);
    assert forall|i: int| 0 <= i < k implies #[trigger] new_rows[i].start() == line_start(b, i) by {
        assert(a.take(i) =~= a.take(k).take(i));
        assert(b.take(i) =~= b.take(k).take(i));
        lemma_line_start_prefix(a, b, i);
    }
}

/// The buffer is well formed when it holds at least one line, every line is
/// well formed, every offset is where its line starts, and the whole text's
/// size fits in a `usize`.
pub open spec fn rows_wf(rows: Seq<Line>) -> bool {
    &&& rows.len() >= 1
    &&& forall|i: int| 0 <= i < rows.len() ==> #[trigger] rows[i].wf()
    &&& offsets_consistent(rows)
    &&& text_size(rows.map_values(|l: Line| l@)) <= usize::MAX
}

/// Whether `c` is the grapheme column of the byte `rel` bytes into `s`: the
/// number of whole clusters that end at or before it.
pub open spec fn is_col_at(s: Seq<char>, rel: nat, c: nat) -> bool {
    &&& c <= glen(s)
    &&& byte_len(prefix(s, c as int)) <= rel
    &&& c < glen(s) ==> byte_len(prefix(s, c as int + 1)) > rel
}

/// A buffer of lines with its file metadata.
#[derive(Debug)]
pub struct Buffer {
    lines: Vec<Line>,
    pub file_name: Option<String>,
    pub file_type: Option<String>,
    pub dirty: bool,
    pub is_norm: bool,
}

impl Buffer {
    pub closed spec fn rows(&self) -> Seq<Line> {
        self.lines@
    }

    /// The name of the buffer's file.
    pub closed spec fn spec_file_name(&self) -> Option<String> {
        self.file_name
    }

    /// The type of the buffer's file.
    pub closed spec fn spec_file_type(&self) -> Option<String> {
        self.file_type
    }

    /// Whether the buffer has changes not yet saved.
    pub closed spec fn spec_dirty(&self) -> bool {
        self.dirty
    }

    /// Whether the buffer holds a file rather than auxiliary text.
    pub closed spec fn spec_norm(&self) -> bool {
        self.is_norm
    }

    /// The texts of the lines, in order.
    pub open spec fn texts(&self) -> Seq<Seq<char>> {
        self.rows().map_values(|l: Line| l@)
    }

    pub open spec fn wf(&self) -> bool {
        rows_wf(self.rows())
    }

    /// Byte size of the lines joined with newlines.
    pub open spec fn size(&self) -> nat {
        text_size(self.texts())
    }

    /// The metadata of `self` and `other` agree.
    pub open spec fn same_meta(&self, other: &Buffer) -> bool {
        &&& self.spec_file_name() == other.spec_file_name()
        &&& self.spec_file_type() == other.spec_file_type()
        &&& self.spec_dirty() == other.spec_dirty()
        &&& self.spec_norm() == other.spec_norm()
    }

    /// Marks the buffer as holding unsaved changes.
    pub fn mark_dirty(&mut self)
        ensures
            final(self).rows() == old(self).rows(),
            final(self).spec_dirty(),
            final(self).spec_file_name() == old(self).spec_file_name(),
            final(self).spec_file_type() == old(self).spec_file_type(),
            final(self).spec_norm() == old(self).spec_norm(),
    {
        self.dirty = true;
    }

    /// Whether the buffer has changes not yet saved.
    pub fn is_dirty(&self) -> (r: bool)
        ensures
            r == self.spec_dirty(),
    {
        self.dirty
    }

    /// The name of the buffer's file.
    pub fn file_name(&self) -> (r: &Option<String>)
        ensures
            *r == self.spec_file_name(),
    {
        &self.file_name
    }

    /// Sets the offsets of lines `from..` from the lines before them.
    fn renumber(&mut self, from: usize)
        requires
            1 <= from <= old(self).rows().len(),
            forall|i: int| 0 <= i < old(self).rows().len() ==> #[trigger] old(self).rows()[i].wf(),
            forall|i: int|
                0 <= i < from ==> #[trigger] old(self).rows()[i].start() == line_start(
                    old(self).texts(),
                    i,
                ),
            text_size(old(self).texts()) <= usize::MAX,
        ensures
            final(self).wf(),
            final(self).texts() == old(self).texts(),
            final(self).same_meta(old(self)),
    {
        let ghost t = self.texts();
        let n = self.lines.len();
        let mut i = from;
        while i < n
            invariant
                1 <= from <= i <= n,
                n == self.lines@.len(),
                self.texts() == t,
                self.same_meta(old(self)),
                forall|j: int| 0 <= j < n ==> #[trigger] self.lines@[j].wf(),
                forall|j: int| 0 <= j < i ==> #[trigger] self.lines@[j].start() == line_start(t, j),
                text_size(t) <= usize::MAX,
            decreases n - i,
        {
            proof {
                lemma_line_start_mono(t, i as int, n - 1);
                assert(t.len() == n);
                assert(t[i - 1] == self.lines@[i - 1]@);
                assert(self.lines@[i - 1].wf());
                assert(line_start(t, i as int) == line_start(t, i - 1) + byte_len(t[i - 1]) + 1);
                assert(text_size(t) == line_start(t, n - 1) + byte_len(t.last()));
            }
            let before = self.lines[i - 1].offset;
            let width = self.lines[i - 1].text.as_str().len();
            assert(width == byte_len(t[i - 1]));
            assert(self.lines@[i - 1].start() == line_start(t, i - 1));
            assert(before == line_start(t, i - 1));
            let prev = before + width + 1;
            let ghost rows = self.lines@;
            assert(rows[i as int].wf());
            self.lines[i].offset = prev;
            proof {
                assert(self.lines@[i as int].wf());
                assert forall|j: int| 0 <= j < n implies #[trigger] self.lines@[j].wf() by {
                    if j != i {
                        assert(self.lines@[j] == rows[j]);
                    }
                }
                assert(self.texts() =~= t);
            }
            i += 1;
        }
        proof {
            assert(self.texts() =~= t);
        }
    }

    pub fn new(lines: Vec<Line>, is_norm: bool, file_name: Option<String>) -> (r: Buffer)
        requires
            rows_wf(lines@),
        ensures
            r.wf(),
            r.rows() == lines@,
            r.spec_norm() == is_norm,
            r.spec_file_name() == file_name,
            r.spec_file_type() is None,
            !r.spec_dirty(),
    {
        Buffer { lines, is_norm, file_name, file_type: None, dirty: false }
    }

    /// Leaves the buffer with one empty line.
    pub fn clear(&mut self)
        ensures
            final(self).wf(),
            final(self).texts() == seq![Seq::<char>::empty()],
            final(self).same_meta(old(self)),
    {
        self.lines = vec![Line::default()];
        proof {
            assert(self.texts() =~= seq![Seq::<char>::empty()]);
            assert(line_start(self.texts(), 0) == 0);
        }
    }

    /// Inserts grapheme `g` before cluster `col` of line `row`.
    pub fn insert_char(&mut self, row: usize, col: usize, g: &str)
        requires
            old(self).wf(),
            row < old(self).texts().len(),
            col <= glen(old(self).texts()[row as int]),
            old(self).size() + byte_len(g@) <= usize::MAX,
        ensures
            final(self).wf(),
            final(self).texts() == old(self).texts().update(
                row as int,
                prefix(old(self).texts()[row as int], col as int) + g@ + suffix(
                    old(self).texts()[row as int],
                    col as int,
                ),
            ),
            final(self).same_meta(old(self)),
            final(self).size() == old(self).size() + byte_len(g@),
    {
        let ghost t = self.texts();
        let ghost rows = self.lines@;
        proof {
            assert(rows[row as int].wf());
            lemma_prefix_suffix(t[row as int], col as int);
        }
        self.lines[row].insert_grapheme(col, g);
        proof {
            let x = self.lines@[row as int]@;
            let p = prefix(t[row as int], col as int);
            let q = suffix(t[row as int], col as int);
            assert(self.texts() =~= t.update(row as int, x));
            lemma_encode_concat(p, q);
            lemma_encode_concat(p + g@, q);
            lemma_encode_concat(p, g@);
            lemma_total_update(t, row as int, x);
            lemma_size_total(t);
            lemma_size_total(self.texts());
            assert(t.take(row as int) =~= self.texts().take(row as int));
            lemma_starts_kept(rows, self.lines@, row as int);
            lemma_line_start_prefix(t, self.texts(), row as int);
        }
        let _ = self.lines.len();
        self.renumber(row + 1);
    }

    /// Deletes the grapheme cluster before column `col` of line `row`.
    pub fn delete_char(&mut self, row: usize, col: usize)
        requires
            old(self).wf(),
            row < old(self).texts().len(),
            0 < col <= glen(old(self).texts()[row as int]),
        ensures
            final(self).wf(),
            final(self).texts() == old(self).texts().update(
                row as int,
                prefix(old(self).texts()[row as int], col - 1) + suffix(
                    old(self).texts()[row as int],
                    col as int,
                ),
            ),
            final(self).same_meta(old(self)),
    {
        let ghost t = self.texts();
        let ghost rows = self.lines@;
        proof {
            assert(rows[row as int].wf());
            lemma_prefix_suffix(t[row as int], col - 1);
            lemma_suffix_step(t[row as int], col - 1);
        }
        self.lines[row].remove(col - 1);
        proof {
            let x = self.lines@[row as int]@;
            let p = prefix(t[row as int], col - 1);
            let c = graphemes_of(t[row as int])[col - 1];
            let q = suffix(t[row as int], col as int);
            assert(t[row as int] =~= p + (c + q));
            assert(self.texts() =~= t.update(row as int, x));
            lemma_encode_concat(p, q);
            lemma_encode_concat(p, c + q);
            lemma_encode_concat(c, q);
            lemma_total_update(t, row as int, x);
            lemma_size_total(t);
            lemma_size_total(self.texts());
            assert(t.take(row as int) =~= self.texts().take(row as int));
            lemma_starts_kept(rows, self.lines@, row as int);
            lemma_line_start_prefix(t, self.texts(), row as int);
        }
        let _ = self.lines.len();
        self.renumber(row + 1);
    }

    /// The line at `index`, if there is one.
    pub fn get(&self, index: usize) -> (r: Option<&Line>)
        ensures
            r == (if index < self.rows().len() {
                Some(&self.rows()[index as int])
            } else {
                None
            }),
    {
        if index < self.lines.len() {
            Some(&self.lines[index])
        } else {
            None
        }
    }

    /// Appends line `index` to the line above it and removes it; nothing
    /// happens for the first line.
    pub fn merge_with_above(&mut self, index: usize)
        requires
            old(self).wf(),
            index < old(self).texts().len(),
        ensures
            final(self).wf(),
            final(self).texts() == (if index == 0 {
                old(self).texts()
            } else {
                old(self).texts().take(index - 1).push(
                    old(self).texts()[index - 1] + old(self).texts()[index as int],
                ) + old(self).texts().skip(index + 1)
            }),
            final(self).same_meta(old(self)),
    {
        if index == 0 {
            return;
        }
        let ghost t = self.texts();
        let ghost rows = self.lines@;
        let line = self.lines.remove(index);
        proof {
            assert(rows[index - 1].wf());
        }
        self.lines[index - 1].merge(&line);
        proof {
            let x = t[index - 1] + t[index as int];
            let mid = t.take(index as int) + t.skip(index + 1);
            assert(self.lines@.map_values(|l: Line| l@) =~= mid.update(index - 1, x));
            assert(self.texts() =~= t.take(index - 1).push(x) + t.skip(index + 1));
            lemma_total_split(t, index as int);
            lemma_total_concat(t.take(index as int), t.skip(index + 1));
            assert(mid[index - 1] == t[index - 1]);
            lemma_total_update(mid, index - 1, x);
            lemma_encode_concat(t[index - 1], t[index as int]);
            lemma_size_total(t);
            lemma_size_total(self.texts());
            assert(t.take(index - 1) =~= self.texts().take(index - 1));
            lemma_starts_kept(rows, self.lines@, index - 1);
            lemma_line_start_prefix(t, self.texts(), index - 1);
            assert forall|i: int| 0 <= i < self.lines@.len() implies #[trigger] self.lines@[i].wf() by {
                if i < index - 1 {
                    assert(self.lines@[i] == rows[i]);
                } else if i >= index {
                    assert(self.lines@[i] == rows[i + 1]);
                }
            }
        }
        self.renumber(index);
    }

    /// The lines, in order.
    pub fn as_slice(&self) -> (r: &[Line])
        ensures
            r@ == self.rows(),
    {
        self.lines.as_slice()
    }

    /// Whether the buffer holds one empty line and nothing else.
    pub fn is_empty(&self) -> (r: bool)
        requires
            self.wf(),
        ensures
            r == (self.texts().len() == 1 && self.texts()[0].len() == 0),
    {
        self.lines.len() == 1 && self.lines[0].text.as_str().is_empty()
    }

    /// Byte size of the lines joined with newlines.
    pub fn byte_size(&self) -> (r: usize)
        requires
            self.wf(),
        ensures
            r == self.size(),
    {
        let n = self.lines.len();
        let last = &self.lines[n - 1];
        proof {
            assert(self.rows()[n - 1].wf());
            assert(last.start() == line_start(self.texts(), n - 1));
        }
        last.offset + last.text.as_str().len()
    }

    /// Number of lines.
    pub fn lines(&self) -> (r: usize)
        ensures
            r == self.rows().len(),
    {
        self.lines.len()
    }

    /// Whether this is a file buffer rather than an auxiliary one.
    pub fn is_norm(&self) -> (r: bool)
        ensures
            r == self.spec_norm(),
    {
        self.is_norm
    }

    /// The lines joined with newlines, as UTF-8 bytes.
    pub fn to_chunk(&self) -> (r: Vec<u8>)
        requires
            self.wf(),
        ensures
            r@ == encode_utf8(joined(self.texts())),
    {
        let ghost t = self.texts();
        let mut out: Vec<u8> = Vec::new();
        let mut k: usize = 0;
        while k < self.lines.len()
            invariant
                k <= self.lines@.len(),
                t == self.texts(),
                k == 0 ==> out@.len() == 0,
                k > 0 ==> out@ == encode_utf8(joined(t.take(k as int))),
            decreases self.lines@.len() - k,
        {
            let ghost before = out@;
            if k > 0 {
                out.push(10u8);
            }
            out.extend_from_slice(self.lines[k].bytes());
            proof {
                let tk = t.take(k + 1);
                if k == 0 {
                    assert(tk.len() == 1);
                    assert(joined(tk) == tk[0]);
                    assert(out@ =~= encode_utf8(joined(tk)));
                } else {
                    assert(tk.drop_last() =~= t.take(k as int));
                    assert(joined(tk) == joined(t.take(k as int)) + seq!['\n'] + t[k as int]);
                    lemma_encode_newline();
                    lemma_encode_concat(joined(t.take(k as int)), seq!['\n']);
                    lemma_encode_concat(joined(t.take(k as int)) + seq!['\n'], t[k as int]);
                    assert(out@ =~= encode_utf8(joined(tk)));
                }
            }
            k += 1;
        }
        proof {
            assert(t.take(k as int) =~= t);
        }
        out
    }

    /// The line and grapheme column of byte `offset` of the joined text.
    pub fn to_pos(&self, offset: usize) -> (r: (usize, usize))
        requires
            self.wf(),
        ensures
            r.0 < self.texts().len(),
            line_start(self.texts(), r.0 as int) <= offset,
            r.0 + 1 < self.texts().len() ==> offset < line_start(self.texts(), r.0 + 1),
            is_col_at(
                self.texts()[r.0 as int],
                (offset - line_start(self.texts(), r.0 as int)) as nat,
                r.1 as nat,
            ),
    {
        let ghost t = self.texts();
        let mut i = self.lines.len() - 1;
        while self.lines[i].offset > offset
            invariant
                self.wf(),
                t == self.texts(),
                i < self.lines@.len(),
                forall|j: int| i < j < self.lines@.len() ==> offset < line_start(t, j),
            decreases i,
        {
            proof {
                assert(self.lines@[i as int].start() == line_start(t, i as int));
                assert(self.lines@[0].start() == line_start(t, 0));
            }
            i -= 1;
        }
        proof {
            assert(self.lines@[i as int].start() == line_start(t, i as int));
            assert(self.lines@[i as int].wf());
        }
        let col = self.lines[i].col_at(offset - self.lines[i].offset);
        (i, col)
    }

    /// A file buffer holding `bytes`, decoded lossily and split at each newline.
    pub fn from_bytes(bytes: &[u8], file_name: Option<String>) -> (r: Buffer)
        ensures
            r.wf(),
            r.texts() == split_lines(lossy_utf8(bytes@)),
            valid_utf8(bytes@) ==> r.texts() == split_lines(decode_utf8(bytes@)),
            r.spec_file_name() == file_name,
            r.spec_file_type() is None,
            !r.spec_dirty(),
            r.spec_norm(),
    {
        let text = decode_lossy(bytes);
        let total = Line::byte_count(&text);
        let cs = chars_of(text.as_str());
        let ghost s = cs@;
        let mut lines: Vec<Line> = Vec::new();
        let mut cur = String::new();
        let mut offset: usize = 0;
        let mut k: usize = 0;
        proof {
            assert(s.take(0) =~= Seq::<char>::empty());
            assert(lines@.map_values(|l: Line| l@).push(cur@) =~= seq![Seq::<char>::empty()]);
        }
        while k < cs.len()
            invariant
                k <= s.len(),
                s == cs@,
                total == byte_len(s),
                split_lines(s.take(k as int)) == lines@.map_values(|l: Line| l@).push(cur@),
                forall|j: int| 0 <= j < lines@.len() ==> #[trigger] lines@[j].wf(),
                forall|j: int|
                    0 <= j < lines@.len() ==> #[trigger] lines@[j].start() == line_start(
                        lines@.map_values(|l: Line| l@),
                        j,
                    ),
                offset == line_start(lines@.map_values(|l: Line| l@), lines@.len() as int),
            decreases s.len() - k,
        {
            let c = cs[k];
            let ghost d = lines@.map_values(|l: Line| l@);
            let ghost rows = lines@;
            proof {
                assert(s.take(k + 1).drop_last() =~= s.take(k as int));
                assert(s.take(k + 1).last() == c);
            }
            if c == '\n' {
                let ghost d2 = d.push(cur@);
                let ghost sp = d2.push(Seq::<char>::empty());
                proof {
                    assert(split_lines(s.take(k + 1)) == sp);
                    lemma_joined_split(s.take(k + 1));
                    lemma_text_size_joined(sp);
                    lemma_encode_concat(s.take(k + 1), s.skip(k + 1));
                    assert(s.take(k + 1) + s.skip(k + 1) =~= s);
                    assert(sp.take(d2.len() as int) =~= d2.take(d2.len() as int));
                    lemma_line_start_prefix(sp, d2, d2.len() as int);
                    assert(d2.take(d.len() as int) =~= d.take(d.len() as int));
                    lemma_line_start_prefix(d2, d, d.len() as int);
                    assert(text_size(sp) == line_start(sp, d2.len() as int) + byte_len(sp.last()));
                    assert(byte_len(Seq::<char>::empty()) == 0);
                }
                let width = Line::byte_count(&cur);
                let line = Line::new(cur, offset);
                offset = offset + width + 1;
                lines.push(line);
                cur = String::new();
                proof {
                    assert(lines@.map_values(|l: Line| l@) =~= d2);
                    assert forall|j: int| 0 <= j < lines@.len() implies #[trigger] lines@[j].start()
                        == line_start(d2, j) by {
                        if j < d.len() {
                            assert(d2.take(j) =~= d.take(j));
                            lemma_line_start_prefix(d2, d, j);
                            assert(lines@[j] == rows[j]);
                        }
                    }
                    assert(lines@.map_values(|l: Line| l@).push(cur@) =~= sp);
                }
            } else {
                cur.push(c);
                proof {
                    assert(lines@.map_values(|l: Line| l@) =~= d);
                    assert(lines@.map_values(|l: Line| l@).push(cur@) =~= split_lines(s.take(k + 1)));
                }
            }
            k += 1;
        }
        let ghost d = lines@.map_values(|l: Line| l@);
        let ghost rows = lines@;
        let ghost fin = d.push(cur@);
        proof {
            assert(s.take(s.len() as int) =~= s);
            lemma_joined_split(s);
            lemma_text_size_joined(fin);
            assert(fin.take(d.len() as int) =~= d.take(d.len() as int));
            lemma_line_start_prefix(fin, d, d.len() as int);
        }
        lines.push(Line::new(cur, offset));
        proof {
            assert(lines@.map_values(|l: Line| l@) =~= fin);
            assert forall|j: int| 0 <= j < lines@.len() implies #[trigger] lines@[j].start()
                == line_start(fin, j) by {
                if j < d.len() {
                    assert(fin.take(j) =~= d.take(j));
                    lemma_line_start_prefix(fin, d, j);
                    assert(lines@[j] == rows[j]);
                }
            }
            assert(s == lossy_utf8(bytes@));
        }
        Buffer { lines, file_name, file_type: None, dirty: false, is_norm: true }
    }

    /// The highlighting that `h` makes of this buffer.
    pub fn highlight<H: Highlighter>(&self, h: &mut H) -> TextHighlighting {
        h.highlight(self)
    }

    /// Adds a line holding `s` after the last one.
    pub fn append_string(&mut self, s: String)
        requires
            old(self).wf(),
            old(self).size() + 1 + byte_len(s@) <= usize::MAX,
        ensures
            final(self).wf(),
            final(self).texts() == old(self).texts().push(s@),
            final(self).same_meta(old(self)),
            final(self).size() == old(self).size() + 1 + byte_len(s@),
    {
        let ghost t = self.texts();
        let ghost rows = self.lines@;
        let n = self.lines.len();
        self.lines.push(Line::new(s, 0));
        proof {
            assert(self.texts() =~= t.push(s@));
            assert(t.push(s@).drop_last() =~= t);
            lemma_size_total(t);
            lemma_size_total(self.texts());
            assert(t =~= self.texts().take(n as int));
            assert(t.take(n as int) =~= t);
            lemma_starts_kept(rows, self.lines@, n as int);
        }
        self.renumber(n);
    }

    /// Splits line `index` before cluster `split_col`; the rest becomes the next line.
    pub fn split_line(&mut self, index: usize, split_col: usize)
        requires
            old(self).wf(),
            index < old(self).texts().len(),
            split_col <= glen(old(self).texts()[index as int]),
            old(self).size() + 1 <= usize::MAX,
        ensures
            final(self).wf(),
            final(self).texts() == old(self).texts().take(index as int).push(
                prefix(old(self).texts()[index as int], split_col as int),
            ).push(suffix(old(self).texts()[index as int], split_col as int)) + old(
                self,
            ).texts().skip(index + 1),
            final(self).same_meta(old(self)),
            final(self).size() == old(self).size() + 1,
    {
        let ghost t = self.texts();
        let ghost rows = self.lines@;
        let ghost n = t.len();
        proof {
            assert(rows[index as int].wf());
            lemma_prefix_suffix(t[index as int], split_col as int);
            assert(text_size(t) == line_start(t, n - 1) + byte_len(t.last()));
            if index + 1 < n {
                lemma_line_start_mono(t, index + 1, n - 1);
                assert(line_start(t, index + 1) == line_start(t, index as int) + byte_len(t[index as int]) + 1);
            }
            assert(rows[index as int].start() == line_start(t, index as int));
        }
        let _ = self.lines.len();
        let rest = self.lines[index].split_at(split_col);
        self.lines.insert(index + 1, rest);
        proof {
            let p = prefix(t[index as int], split_col as int);
            let q = suffix(t[index as int], split_col as int);
            let u = t.take(index as int).push(p).push(q) + t.skip(index + 1);
            assert(self.texts() =~= u);
            lemma_encode_concat(p, q);
            lemma_total_split(t, index as int);
            lemma_total_concat(t.take(index as int).push(p).push(q), t.skip(index + 1));
            lemma_total_concat(t.take(index as int).push(p), seq![q]);
            lemma_total_concat(t.take(index as int), seq![p]);
            assert(t.take(index as int).push(p).push(q) =~= t.take(index as int).push(p) + seq![q]);
            assert(t.take(index as int).push(p) =~= t.take(index as int) + seq![p]);
            lemma_total_single(p);
            lemma_total_single(q);
            lemma_size_total(t);
            lemma_size_total(u);
            assert(t.take(index as int) =~= u.take(index as int));
            lemma_starts_kept(rows, self.lines@, index as int);
            lemma_line_start_prefix(t, u, index as int);
            assert forall|i: int| 0 <= i < self.lines@.len() implies #[trigger] self.lines@[i].wf() by {
                if i < index {
                    assert(self.lines@[i] == rows[i]);
                } else if i > index + 1 {
                    assert(self.lines@[i] == rows[i - 1]);
                }
            }
        }
        let _ = self.lines.len();
        self.renumber(index + 1);
    }
}

} // verus!
