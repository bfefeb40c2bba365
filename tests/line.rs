use purport::buffer::Line;

#[test]
fn insert() {
    let mut l = Line::default();
    l.insert_grapheme(0, "a");
    l.insert_grapheme(1, "b");
    assert_eq!(l.len(), 2);
    assert_eq!(l.as_str(), "ab");

    let mut l = Line::default();
    l.insert_grapheme(0, "\u{2606}");
    l.insert_grapheme(0, "!");
    l.insert_grapheme(2, "!");
    assert_eq!(l.len(), 3);
    assert_eq!(l.as_str(), "!\u{2606}!");
}

#[test]
fn split() {
    let mut l = Line::new(String::from("abcdefg"), 0);
    let rest = l.split_at(4);

    assert_eq!(l, Line::new(String::from("abcd"), 0));
    assert_eq!(rest, Line::new(String::from("efg"), 0));
    assert_eq!(rest.start_offset(), 4);

    let mut l = Line::new(String::from("\u{2606}bcd\u{2606}fg"), 0);
    let rest = l.split_at(4);
    assert_eq!(l, Line::new(String::from("\u{2606}bcd"), 0));
    assert_eq!(rest, Line::new(String::from("\u{2606}fg"), 0));
    assert_eq!(rest.start_offset(), 6);
}

#[test]
fn remove() {
    let mut l = Line::new(String::from("abcdefg"), 0);
    l.remove(3);
    assert_eq!(l, Line::new(String::from("abcefg"), 0));
}

#[test]
fn to_byte_index() {
    let l = Line::new(String::from("abc"), 0);
    assert_eq!(l.to_byte_idx(2), 2);
    let l = Line::new(String::from("\u{2606}bc"), 0);
    assert_eq!(l.to_byte_idx(2), 4);
}

#[test]
fn len_counts_combined_clusters() {
    // "e" followed by a combining acute accent is one cluster
    let mut l = Line::new(String::from("e\u{301}x"), 0);
    assert_eq!(l.len(), 2);
    l.insert_grapheme(2, "\u{1F600}");
    assert_eq!(l.len(), 3);
    assert_eq!(l.as_str(), "e\u{301}x\u{1F600}");
    assert_eq!(l.to_byte_idx(1), 3);
    assert_eq!(l.to_byte_idx(3), 8);
}

#[test]
fn split_then_merge_restores_line() {
    for i in 0..=5 {
        let whole = Line::new(String::from("\u{2606}b\u{301}cd!"), 0);
        let mut l = Line::new(String::from("\u{2606}b\u{301}cd!"), 0);
        let rest = l.split_at(i);
        l.merge(&rest);
        assert_eq!(l, whole);
        assert_eq!(l.len(), 5);
    }
}

#[test]
fn split_at_end_starts_where_line_ends() {
    let mut l = Line::new(String::from("ab\u{2606}"), 10);
    let rest = l.split_at(3);
    assert_eq!(rest.as_str(), "");
    assert_eq!(rest.start_offset(), 15);
    assert_eq!(l.as_str(), "ab\u{2606}");
}

#[test]
fn skip_and_extend() {
    let mut l = Line::new(String::from("\u{2606}bc"), 0);
    assert_eq!(l.skip(1), "bc");
    assert_eq!(l.skip(3), "");
    l.extend(&["de", "\u{2606}"]);
    assert_eq!(l.as_str(), "\u{2606}bcde\u{2606}");
    assert_eq!(l.len(), 6);
    assert_eq!(l.bytes(), "\u{2606}bcde\u{2606}".as_bytes());
}

#[test]
fn remove_multibyte() {
    let mut l = Line::new(String::from("a\u{2606}b"), 0);
    l.remove(1);
    assert_eq!(l.as_str(), "ab");
    assert_eq!(l.len(), 2);
}
