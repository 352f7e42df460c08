use notepada::commands::edit_cmds::{
    byte_range, delete_range, insert_text, line_col_to_byte_offset, redo, replace_range, undo, EditError,
    EditOutcome,
};
use notepada::document::Document;

fn doc(text: &str) -> Document {
    Document::from_file_bytes("tab".to_string(), text.as_bytes(), text.len() as u64, "f.txt".to_string())
        .expect("document")
}

fn text_of(d: &Document) -> String {
    d.content_string()
}

#[test]
fn byte_offset_of_line_and_column() {
    let c = "ab\ncd\r\nef".as_bytes();
    assert_eq!(line_col_to_byte_offset(c, 0, 0), Ok(0));
    assert_eq!(line_col_to_byte_offset(c, 0, 1), Ok(1));
    assert_eq!(line_col_to_byte_offset(c, 1, 1), Ok(4));
    assert_eq!(line_col_to_byte_offset(c, 2, 0), Ok(7));
    assert_eq!(line_col_to_byte_offset(c, 2, 5), Ok(9));
}

#[test]
fn byte_offset_counts_characters_not_bytes() {
    let c = "aé中😀b".as_bytes();
    assert_eq!(line_col_to_byte_offset(c, 0, 1), Ok(1));
    assert_eq!(line_col_to_byte_offset(c, 0, 2), Ok(3));
    assert_eq!(line_col_to_byte_offset(c, 0, 3), Ok(6));
    assert_eq!(line_col_to_byte_offset(c, 0, 4), Ok(10));
    assert_eq!(line_col_to_byte_offset(c, 0, 5), Ok(11));
}

#[test]
fn byte_offset_may_run_past_a_truncated_character() {
    // A lead byte announces more bytes than remain: the offset goes past the end.
    let c = [b'a', 0xF0u8];
    assert_eq!(line_col_to_byte_offset(&c, 0, 2), Ok(5));
}

#[test]
fn byte_offset_line_out_of_range() {
    let c = b"one\ntwo\n";
    assert_eq!(line_col_to_byte_offset(c, 2, 0), Ok(8));
    assert_eq!(
        line_col_to_byte_offset(c, 3, 0),
        Err(EditError::LineOutOfRange { line: 3, total: 2 })
    );
    assert_eq!(
        line_col_to_byte_offset(b"", 1, 0),
        Err(EditError::LineOutOfRange { line: 1, total: 0 })
    );
}

#[test]
fn insert_text_at_position() {
    let mut d = doc("hello\nworld\n");
    let out = insert_text(&mut d, 1, 2, "XY").unwrap();
    assert_eq!(text_of(&d), "hello\nwoXYrld\n");
    assert_eq!(
        out,
        EditOutcome {
            cursor_line: 1,
            cursor_col: 4,
            dirty: true,
            can_undo: true,
            can_redo: false,
            view_line: 0,
        }
    );
    assert!(d.dirty);
    assert_eq!(d.viewport.total_lines(), 2);
}

#[test]
fn insert_text_rejects_missing_line() {
    let mut d = doc("one line");
    let r = insert_text(&mut d, 5, 0, "x");
    assert_eq!(r, Err(EditError::LineOutOfRange { line: 5, total: 0 }));
    assert_eq!(text_of(&d), "one line");
    assert!(!d.dirty);
}

#[test]
fn insert_newline_updates_line_count() {
    let mut d = doc("ab");
    insert_text(&mut d, 0, 1, "\n\n").unwrap();
    assert_eq!(text_of(&d), "a\n\nb");
    assert_eq!(d.viewport.total_lines(), 3);
}

#[test]
fn view_line_is_25_above_the_cursor() {
    let mut content = String::new();
    for i in 0..40 {
        content.push_str(&format!("{}\n", i));
    }
    let mut d = doc(&content);
    let out = insert_text(&mut d, 30, 0, "x").unwrap();
    assert_eq!(out.view_line, 5);
    let out = insert_text(&mut d, 25, 0, "x").unwrap();
    assert_eq!(out.view_line, 0);
}

#[test]
fn delete_range_removes_text() {
    let mut d = doc("hello\nworld\n");
    let out = delete_range(&mut d, 0, 3, 1, 2).unwrap();
    assert_eq!(text_of(&d), "helrld\n");
    assert_eq!(out.cursor_line, 0);
    assert_eq!(out.cursor_col, 3);
    assert!(out.dirty);
    assert!(out.can_undo);
    assert!(!out.can_redo);
    assert_eq!(d.viewport.total_lines(), 1);
}

#[test]
fn delete_range_rejects_empty_or_reversed_range() {
    let mut d = doc("hello");
    assert_eq!(delete_range(&mut d, 0, 3, 0, 3), Err(EditError::InvalidRange));
    assert_eq!(delete_range(&mut d, 0, 3, 0, 1), Err(EditError::InvalidRange));
    assert_eq!(text_of(&d), "hello");
}

#[test]
fn delete_range_reports_first_bad_line() {
    let mut d = doc("a\nb");
    assert_eq!(
        delete_range(&mut d, 4, 0, 7, 0),
        Err(EditError::LineOutOfRange { line: 4, total: 1 })
    );
    assert_eq!(
        delete_range(&mut d, 0, 0, 7, 0),
        Err(EditError::LineOutOfRange { line: 7, total: 1 })
    );
}

#[test]
fn replace_range_replaces_text() {
    let mut d = doc("Hello, World!");
    let out = replace_range(&mut d, 0, 7, 0, 12, "Rust").unwrap();
    assert_eq!(text_of(&d), "Hello, Rust!");
    assert_eq!(out.cursor_col, 11);
    assert!(out.can_undo);
}

#[test]
fn replace_range_cursor_moves_by_bytes() {
    let mut d = doc("abc");
    let out = replace_range(&mut d, 0, 0, 0, 1, "é").unwrap();
    assert_eq!(text_of(&d), "ébc");
    assert_eq!(out.cursor_col, 2);
}

#[test]
fn undo_and_redo_commands() {
    let mut d = doc("abc");
    insert_text(&mut d, 0, 3, "d").unwrap();
    let out = undo(&mut d, 0);
    assert_eq!(text_of(&d), "abc");
    assert!(!out.dirty);
    assert!(!out.can_undo);
    assert!(out.can_redo);
    assert!(!d.dirty);
    let out = redo(&mut d, 0);
    assert_eq!(text_of(&d), "abcd");
    assert!(out.dirty);
    assert!(out.can_undo);
    assert!(out.can_redo);
}

#[test]
fn undo_with_nothing_to_undo() {
    let mut d = doc("abc");
    let out = undo(&mut d, 40);
    assert_eq!(
        out,
        EditOutcome {
            cursor_line: 40,
            cursor_col: 0,
            dirty: false,
            can_undo: false,
            can_redo: true,
            view_line: 15,
        }
    );
    assert_eq!(text_of(&d), "abc");
}

#[test]
fn redo_with_nothing_to_redo() {
    let mut d = doc("abc");
    let out = redo(&mut d, 3);
    assert_eq!(
        out,
        EditOutcome {
            cursor_line: 3,
            cursor_col: 0,
            dirty: false,
            can_undo: true,
            can_redo: false,
            view_line: 0,
        }
    );
}

#[test]
fn undo_keeps_line_index_in_step() {
    let mut d = doc("a\nb\nc\n");
    delete_range(&mut d, 0, 0, 2, 0).unwrap();
    assert_eq!(d.viewport.total_lines(), 1);
    undo(&mut d, 0);
    assert_eq!(d.viewport.total_lines(), 3);
}

#[test]
fn byte_range_of_positions() {
    let c = b"ab\ncd";
    assert_eq!(byte_range(c, 0, 1, 1, 1), Ok((1, 4)));
    assert_eq!(byte_range(c, 1, 1, 0, 1), Err(EditError::InvalidRange));
    assert_eq!(byte_range(c, 0, 0, 3, 0), Err(EditError::LineOutOfRange { line: 3, total: 1 }));
}
