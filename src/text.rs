//! Grapheme clusters and UTF-8 lengths of character sequences.

use unicode_segmentation::UnicodeSegmentation;
use vstd::prelude::*;
use vstd::utf8::{decode_utf8, encode_utf8, valid_utf8};

verus! {

/// The extended grapheme clusters of a character sequence, in order.
pub uninterp spec fn graphemes_of(s: Seq<char>) -> Seq<Seq<char>>;

/// The character sequences that a sequence of string slices holds.
pub open spec fn str_views(v: Seq<&str>) -> Seq<Seq<char>> {
    v.map_values(|c: &str| c@)
}

/// Number of grapheme clusters in `s`.
pub open spec fn glen(s: Seq<char>) -> nat {
    graphemes_of(s).len()
}

/// The characters of the first `i` grapheme clusters of `s`.
pub open spec fn prefix(s: Seq<char>, i: int) -> Seq<char> {
    graphemes_of(s).take(i).flatten()
}

/// The characters of `s` from grapheme cluster `i` on.
pub open spec fn suffix(s: Seq<char>, i: int) -> Seq<char> {
    graphemes_of(s).skip(i).flatten()
}

/// Number of bytes in the UTF-8 encoding of `s`.
pub open spec fn byte_len(s: Seq<char>) -> nat {
    encode_utf8(s).len()
}

/// Relies on `UnicodeSegmentation::graphemes` with extended clusters: it yields
/// the clusters of `s` in order, and together they spell `s`.
#[verifier::external_body]
pub(crate) fn clusters(s: &str) -> (r: Vec<&str>)
    ensures
        str_views(r@) == graphemes_of(s@),
        str_views(r@).flatten() == s@,
{
    s.graphemes(true).collect()
}

/// The characters that lossy UTF-8 decoding makes of a byte sequence.
pub uninterp spec fn lossy_utf8(b: Seq<u8>) -> Seq<char>;

/// Relies on `String::from_utf8_lossy`: decodes `b`, replacing each invalid
/// sequence with U+FFFD; valid UTF-8 is decoded as it is.
#[verifier::external_body]
pub(crate) fn decode_lossy(b: &[u8]) -> (r: String)
    ensures
        r@ == lossy_utf8(b@),
        valid_utf8(b@) ==> r@ == decode_utf8(b@),
{
    String::from_utf8_lossy(b).into_owned()
}

/// Relies on `str::chars`: the characters of `s`, in order.
#[verifier::external_body]
pub(crate) fn chars_of(s: &str) -> (r: Vec<char>)
    ensures
        r@ == s@,
{
    s.chars().collect()
}

/// Relies on `String::push`: appends one character.
pub assume_specification[ String::push ](s: &mut String, c: char)
    ensures
        final(s)@ == old(s)@.push(c),
;

/// Relies on `String::push_str`: appends the characters of `t`.
pub assume_specification[ String::push_str ](s: &mut String, t: &str)
    ensures
        final(s)@ == old(s)@ + t@,
;

/// Whether `a` and `b` hold the same characters.
pub fn same_text(a: &str, b: &str) -> (r: bool)
    ensures
        r == (a@ == b@),
{
    let x = chars_of(a);
    let y = chars_of(b);
    if x.len() != y.len() {
        return false;
    }
    let mut k: usize = 0;
    while k < x.len()
        invariant
            k <= x@.len(),
            x@.len() == y@.len(),
            x@ == a@,
            y@ == b@,
            forall|j: int| 0 <= j < k ==> x@[j] == y@[j],
        decreases x@.len() - k,
    {
        if x[k] != y[k] {
            return false;
        }
        k += 1;
    }
    assert(x@ =~= y@);
    true
}

pub proof fn lemma_encode_concat(a: Seq<char>, b: Seq<char>)
    ensures
        encode_utf8(a + b) == encode_utf8(a) + encode_utf8(b),
    decreases a.len(),
{
    if a.len() == 0 {
        assert(a + b =~= b);
    } else {
        assert((a + b).drop_first() =~= a.drop_first() + b);
        lemma_encode_concat(a.drop_first(), b);
        assert(encode_utf8(a + b) =~= encode_utf8(a) + encode_utf8(b));
    }
}

/// The clusters before `i` and those from `i` on spell the whole sequence.
pub proof fn lemma_prefix_suffix(s: Seq<char>, i: int)
    requires
        graphemes_of(s).flatten() == s,
        0 <= i <= glen(s),
    ensures
        prefix(s, i) + suffix(s, i) == s,
{
    let g = graphemes_of(s);
    vstd::seq_lib::lemma_flatten_concat(g.take(i), g.skip(i));
    assert(g.take(i) + g.skip(i) =~= g);
}

/// Dropping one cluster removes it from the front of the suffix.
pub proof fn lemma_suffix_step(s: Seq<char>, i: int)
    requires
        0 <= i < glen(s),
    ensures
        suffix(s, i) == graphemes_of(s)[i] + suffix(s, i + 1),
{
    let g = graphemes_of(s);
    assert(g.skip(i) =~= seq![g[i]] + g.skip(i + 1));
    vstd::seq_lib::lemma_flatten_concat(seq![g[i]], g.skip(i + 1));
    seq![g[i]].lemma_flatten_one_element();
}

} // verus!
