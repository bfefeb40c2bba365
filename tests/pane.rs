use purport::buffer::Buffer;
use purport::cursor::{Cursor, Offset};
use purport::error::EditError;
use purport::highlight::TextHighlighting;
use purport::pane::Pane;
use purport::prompt::Prompt;
use purport::render::{Char, Iter};
use purport::ui::Colour;

fn pane(width: usize, height: usize) -> Pane {
    Pane { buffer_id: 0, width, height, offset: Offset::default(), cursor: Cursor::default() }
}

fn row_text(it: &mut Iter) -> String {
    let mut row = it.next().expect("a row");
    let mut s = String::new();
    while let Some(c) = row.next() {
        match c {
            Char::Grapheme(g) => s.push_str(g),
            Char::Normal(c) => s.push(c),
            Char::Foreground(_) => s.push('<'),
            Char::Background(Colour::Reset) => s.push(']'),
            Char::Background(_) => s.push('['),
        }
    }
    s
}

#[test]
fn moving_right_stops_at_end_of_line() {
    let buffers = vec![Buffer::from_bytes(b"abc\ndefgh\ni", None)];
    let mut p = pane(20, 10);
    for _ in 0..25 {
        p.move_cursor_left_right(&buffers, 1).unwrap();
    }
    assert_eq!((p.cursor.row, p.cursor.col), (0, 3));
    assert_eq!(p.offset.col, 0);
}

#[test]
fn moving_right_scrolls_narrow_pane() {
    let buffers = vec![Buffer::from_bytes(b"abcdefghij", None)];
    let mut p = pane(8, 3);
    p.move_cursor_left_right(&buffers, 25).unwrap();
    // 4 columns of text: the cursor ends in the last one
    assert_eq!(p.cursor.col, 10);
    assert_eq!(p.offset.col, 7);
    p.move_cursor_left_right(&buffers, -9).unwrap();
    assert_eq!(p.cursor.col, 1);
    assert_eq!(p.offset.col, 1);
    p.move_cursor_left_right(&buffers, isize::MIN).unwrap();
    assert_eq!(p.cursor.col, 0);
    assert_eq!(p.offset.col, 0);
}

#[test]
fn moving_down_scrolls_and_clamps_column() {
    let buffers = vec![Buffer::from_bytes(b"abcdef\nab\nabcd\nx\ny", None)];
    let mut p = pane(20, 3);
    p.move_cursor_left_right(&buffers, 5).unwrap();
    p.move_cursor_up_down(&buffers, 1).unwrap();
    assert_eq!((p.cursor.row, p.cursor.col), (1, 2));
    p.move_cursor_up_down(&buffers, 100).unwrap();
    assert_eq!((p.cursor.row, p.cursor.col), (4, 1));
    assert_eq!(p.offset.row, 3);
    p.move_cursor_up_down(&buffers, -4).unwrap();
    assert_eq!(p.cursor.row, 0);
    assert_eq!(p.offset.row, 0);
}

#[test]
fn viewport_keeps_cursor_visible() {
    let buffers = vec![Buffer::from_bytes(b"0123456789\n01\n0123456789abc\n\n0123", None)];
    let mut p = pane(9, 4);
    let moves: [(bool, isize); 10] =
        [(true, 7), (false, 2), (true, -3), (false, 1), (true, 20), (false, -1), (true, -2), (false, 3), (true, 4), (false, -9)];
    for (sideways, d) in moves {
        if sideways {
            p.move_cursor_left_right(&buffers, d).unwrap();
        } else {
            p.move_cursor_up_down(&buffers, d).unwrap();
        }
        assert!(p.cursor.row >= p.offset.row && p.cursor.row - p.offset.row < 3);
        assert!(p.cursor.col >= p.offset.col && p.cursor.col - p.offset.col < 5);
    }
}

#[test]
fn movement_errors() {
    let buffers = vec![Buffer::from_bytes(b"abc", None)];
    let mut p = pane(20, 10);
    p.buffer_id = 3;
    assert!(matches!(p.move_cursor_left_right(&buffers, 1), Err(EditError::BufferClosedPrematurely(3))));
    let mut p = pane(20, 1);
    assert!(matches!(p.move_cursor_up_down(&buffers, 1), Err(EditError::InvalidHeight)));
    let mut p = pane(20, 10);
    p.offset.col = 2;
    assert!(matches!(p.move_cursor_left_right(&buffers, 1), Err(EditError::OffsetGreaterThanCursor)));
    let mut p = pane(6, 10);
    p.cursor.col = 3;
    assert!(matches!(p.move_cursor_left_right(&buffers, 1), Err(EditError::CursorOffScreen)));
    let mut p = pane(20, 10);
    p.cursor.row = 1;
    assert!(matches!(p.move_cursor_left_right(&buffers, 1), Err(EditError::CursorPastEnd)));
    assert_eq!(p.cursor.row, 1);
}

#[test]
fn typing_and_backspace() {
    let mut buffers = vec![Buffer::from_bytes(b"ab", None)];
    let mut p = pane(20, 10);
    p.move_cursor_left_right(&buffers, 1).unwrap();
    p.insert_grapheme(&mut buffers, "\u{2606}").unwrap();
    assert_eq!(buffers[0].get(0).unwrap().as_str(), "a\u{2606}b");
    assert_eq!(p.cursor.col, 2);
    assert!(buffers[0].dirty);
    p.insert_grapheme(&mut buffers, "\r").unwrap();
    assert_eq!(buffers[0].lines(), 2);
    assert_eq!(buffers[0].get(1).unwrap().as_str(), "b");
    assert_eq!((p.cursor.row, p.cursor.col), (1, 0));
    assert_eq!(buffers[0].get(1).unwrap().start_offset(), 5);
    p.backspace(&mut buffers).unwrap();
    assert_eq!(buffers[0].lines(), 1);
    assert_eq!(buffers[0].get(0).unwrap().as_str(), "a\u{2606}b");
    assert_eq!((p.cursor.row, p.cursor.col), (0, 2));
    p.backspace(&mut buffers).unwrap();
    assert_eq!(buffers[0].get(0).unwrap().as_str(), "ab");
    assert_eq!(p.cursor.col, 1);
    p.move_cursor_left_right(&buffers, -1).unwrap();
    p.backspace(&mut buffers).unwrap();
    assert_eq!(buffers[0].get(0).unwrap().as_str(), "ab");
    assert_eq!((p.cursor.row, p.cursor.col), (0, 0));
}

#[test]
fn set_cursor_scrolls_to_show_it() {
    let mut p = pane(10, 5);
    p.set_cursor(&[], 20, 30);
    assert_eq!((p.cursor.row, p.cursor.col), (20, 30));
    assert_eq!((p.offset.row, p.offset.col), (17, 25));
    p.set_cursor(&[], 2, 1);
    assert_eq!((p.offset.row, p.offset.col), (2, 1));
}

#[test]
fn display_draws_gutter_tildes_and_status() {
    let buffers = vec![Buffer::from_bytes("ab\u{2606}\nc".as_bytes(), Some(String::from("f.rs")))];
    let p = pane(8, 4);
    let mut it = p.display(&buffers, &[], TextHighlighting::default()).unwrap();
    assert_eq!(row_text(&mut it), "  1 ab\u{2606} ");
    assert_eq!(row_text(&mut it), "  2 c   ");
    assert_eq!(row_text(&mut it), "~       ");
    assert_eq!(row_text(&mut it), "[f.rs 1:2]");
    assert!(it.next().is_none());
}

#[test]
fn display_marks_dirty_and_unnamed() {
    let mut buffers = vec![Buffer::from_bytes(b"x", None)];
    buffers[0].dirty = true;
    let p = pane(16, 2);
    let mut it = p.display(&buffers, &[], TextHighlighting::default()).unwrap();
    assert_eq!(row_text(&mut it), "  1 x           ");
    assert_eq!(row_text(&mut it), "[[No Name] | + | ]");
    let p = Pane { buffer_id: 1, ..pane(16, 2) };
    assert!(matches!(p.display(&buffers, &[], TextHighlighting::default()), Err(EditError::BufferClosedPrematurely(1))));
}

#[test]
fn prompt_keeps_cursor_out_of_prefix() {
    let mut buffers = vec![Buffer::new(vec![purport::buffer::Line::default()], false, None)];
    let mut p = Prompt::new(40, 0, &mut buffers, "> ").unwrap();
    assert_eq!(buffers[0].get(0).unwrap().as_str(), "> ");
    p.insert_grapheme(&mut buffers, "h").unwrap();
    p.insert_grapheme(&mut buffers, "i").unwrap();
    p.move_cursor_left_right(&buffers, -100).unwrap();
    p.move_cursor_left_right(&buffers, isize::MIN).unwrap();
    p.insert_grapheme(&mut buffers, "!").unwrap();
    assert_eq!(buffers[0].get(0).unwrap().as_str(), "> !hi");
    assert_eq!(p.take(&buffers).unwrap(), "!hi");
    let mut it = p.display(&buffers).unwrap();
    let mut row = it.next().unwrap();
    let mut s = String::new();
    while let Some(Char::Grapheme(g)) = row.next() {
        s.push_str(g);
    }
    assert!(s.starts_with("> !hi"));
    assert!(it.next().is_none());
}

#[test]
fn prompt_take_when_nothing_typed() {
    let mut buffers = vec![Buffer::new(vec![purport::buffer::Line::default()], false, None)];
    let p = Prompt::new(40, 0, &mut buffers, "name: ").unwrap();
    assert_eq!(p.take(&buffers).unwrap(), "");
}

#[test]
fn backspace_at_end_of_line() {
    let mut buffers = vec![Buffer::from_bytes("ab\u{2606}\ncd".as_bytes(), None)];
    let mut p = pane(20, 10);
    p.move_cursor_left_right(&buffers, 3).unwrap();
    p.backspace(&mut buffers).unwrap();
    assert_eq!(buffers[0].get(0).unwrap().as_str(), "ab");
    assert_eq!((p.cursor.row, p.cursor.col), (0, 2));
    assert_eq!(buffers[0].get(1).unwrap().start_offset(), 3);
    p.backspace(&mut buffers).unwrap();
    p.backspace(&mut buffers).unwrap();
    assert_eq!(buffers[0].get(0).unwrap().as_str(), "");
    assert_eq!((p.cursor.row, p.cursor.col), (0, 0));
    assert!(buffers[0].dirty);
}

#[test]
fn backspace_scrolls_left() {
    let mut buffers = vec![Buffer::from_bytes(b"abcdefghij", None)];
    let mut p = pane(8, 3);
    p.move_cursor_left_right(&buffers, 10).unwrap();
    assert_eq!(p.offset.col, 7);
    for _ in 0..4 {
        p.backspace(&mut buffers).unwrap();
    }
    assert_eq!(buffers[0].get(0).unwrap().as_str(), "abcdef");
    assert_eq!(p.cursor.col, 6);
    assert_eq!(p.offset.col, 6);
}

#[test]
fn prompt_backspace_keeps_prefix() {
    let mut buffers = vec![Buffer::new(vec![purport::buffer::Line::default()], false, None)];
    let mut p = Prompt::new(40, 0, &mut buffers, "> ").unwrap();
    p.backspace(&mut buffers).unwrap();
    assert_eq!(buffers[0].get(0).unwrap().as_str(), "> ");
    p.insert_grapheme(&mut buffers, "a").unwrap();
    p.backspace(&mut buffers).unwrap();
    p.backspace(&mut buffers).unwrap();
    assert_eq!(buffers[0].get(0).unwrap().as_str(), "> ");
    assert_eq!(p.take(&buffers).unwrap(), "");
}

#[test]
fn auxiliary_buffer_has_no_gutter_or_status_row() {
    let buffers = vec![Buffer::new(vec![purport::buffer::Line::new(String::from("abcdefgh"), 0)], false, None)];
    let mut p = pane(6, 1);
    p.move_cursor_left_right(&buffers, 5).unwrap();
    assert_eq!((p.cursor.col, p.offset.col), (5, 0));
    p.move_cursor_left_right(&buffers, 1).unwrap();
    assert_eq!((p.cursor.col, p.offset.col), (6, 1));
    p.move_cursor_up_down(&buffers, 1).unwrap();
    assert_eq!(p.cursor.row, 0);
}
