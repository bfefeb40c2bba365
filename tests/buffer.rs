use purport::buffer::{Buffer, Line};

fn starts(b: &Buffer) -> Vec<usize> {
    b.as_slice().iter().map(|l| l.start_offset()).collect()
}

fn texts(b: &Buffer) -> Vec<String> {
    b.as_slice().iter().map(|l| l.as_str().to_string()).collect()
}

fn consistent(b: &Buffer) -> bool {
    let lines = b.as_slice();
    if lines[0].start_offset() != 0 {
        return false;
    }
    (1..lines.len()).all(|i| {
        lines[i].start_offset() == lines[i - 1].start_offset() + lines[i - 1].bytes().len() + 1
    })
}

#[test]
fn to_pos_maps_byte_offsets() {
    let b = Buffer::from_bytes(b"ab\ncd\n", None);
    assert_eq!(texts(&b), vec!["ab", "cd", ""]);
    assert_eq!(starts(&b), vec![0, 3, 6]);
    assert_eq!(b.to_pos(4), (1, 1));
    assert_eq!(b.to_pos(0), (0, 0));
    assert_eq!(b.to_pos(2), (0, 2));
    assert_eq!(b.to_pos(3), (1, 0));
    assert_eq!(b.to_pos(6), (2, 0));
}

#[test]
fn to_pos_counts_clusters() {
    let b = Buffer::from_bytes("x\n\u{2606}yz".as_bytes(), None);
    assert_eq!(b.to_pos(2), (1, 0));
    assert_eq!(b.to_pos(3), (1, 0));
    assert_eq!(b.to_pos(5), (1, 1));
    assert_eq!(b.to_pos(6), (1, 2));
}

#[test]
fn offsets_stay_consistent_through_edits() {
    let mut b = Buffer::from_bytes("ab\n\u{2606}c\nd".as_bytes(), Some(String::from("f.txt")));
    assert!(consistent(&b));
    assert_eq!(starts(&b), vec![0, 3, 8]);
    b.insert_char(0, 1, "\u{2606}");
    assert_eq!(texts(&b), vec!["a\u{2606}b", "\u{2606}c", "d"]);
    assert_eq!(starts(&b), vec![0, 6, 11]);
    assert!(consistent(&b));
    b.split_line(1, 1);
    assert_eq!(texts(&b), vec!["a\u{2606}b", "\u{2606}", "c", "d"]);
    assert_eq!(starts(&b), vec![0, 6, 10, 12]);
    assert!(consistent(&b));
    b.delete_char(0, 2);
    assert_eq!(texts(&b), vec!["ab", "\u{2606}", "c", "d"]);
    assert_eq!(starts(&b), vec![0, 3, 7, 9]);
    b.merge_with_above(2);
    assert_eq!(texts(&b), vec!["ab", "\u{2606}c", "d"]);
    assert_eq!(starts(&b), vec![0, 3, 8]);
    assert!(consistent(&b));
    b.merge_with_above(0);
    assert_eq!(texts(&b), vec!["ab", "\u{2606}c", "d"]);
    b.append_string(String::from("xyz"));
    assert_eq!(texts(&b), vec!["ab", "\u{2606}c", "d", "xyz"]);
    assert_eq!(starts(&b), vec![0, 3, 8, 10]);
    assert!(consistent(&b));
    assert_eq!(b.file_name.as_deref(), Some("f.txt"));
}

#[test]
fn chunk_joins_lines_with_newlines() {
    let bytes = "one\n\u{2606}two\n\nend".as_bytes();
    let b = Buffer::from_bytes(bytes, None);
    assert_eq!(b.lines(), 4);
    assert_eq!(b.to_chunk(), bytes.to_vec());
    let b = Buffer::from_bytes(b"", None);
    assert_eq!(b.lines(), 1);
    assert_eq!(b.to_chunk(), Vec::<u8>::new());
}

#[test]
fn invalid_utf8_is_replaced() {
    let b = Buffer::from_bytes(b"a\xffb\nc", None);
    assert_eq!(texts(&b), vec!["a\u{FFFD}b", "c"]);
    assert_eq!(starts(&b), vec![0, 6]);
    assert!(b.is_norm());
    assert!(!b.dirty);
}

#[test]
fn empty_and_clear() {
    let mut b = Buffer::new(vec![Line::default()], false, None);
    assert!(b.is_empty());
    assert!(!b.is_norm());
    b.append_string(String::from("x"));
    assert!(!b.is_empty());
    b.clear();
    assert!(b.is_empty());
    assert_eq!(b.lines(), 1);
    let b = Buffer::new(vec![Line::new(String::from("a"), 0)], true, None);
    assert!(!b.is_empty());
    assert!(b.get(0).is_some());
    assert!(b.get(1).is_none());
}
