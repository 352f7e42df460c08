use notepada::buffer::line_index::LineIndex;
use notepada::buffer::piece_table::PieceTable;
use notepada::commands::search_cmds::replace_matches;
use notepada::search::SearchMatch;

fn pt(text: &str) -> PieceTable {
    PieceTable::new(text.as_bytes().to_vec())
}

#[test]
fn undo_after_each_kind_of_edit_restores_the_text() {
    let mut p = pt("The quick fox");
    p.insert(4, b"very ");
    p.delete(0, 4);
    p.replace(5, 5, b"slow");
    let after = p.to_bytes();
    assert_eq!(after, b"very slow fox".to_vec());
    assert!(p.undo());
    assert_eq!(p.to_bytes(), b"very quick fox".to_vec());
    assert!(p.undo());
    assert_eq!(p.to_bytes(), b"The very quick fox".to_vec());
    assert!(p.undo());
    assert_eq!(p.to_bytes(), b"The quick fox".to_vec());
    assert!(!p.is_dirty());
}

#[test]
fn redo_after_undo_restores_the_text() {
    let mut p = pt("abcdef");
    p.replace(2, 2, b"XYZ");
    let edited = p.to_bytes();
    assert!(p.undo());
    assert!(p.redo());
    assert_eq!(p.to_bytes(), edited);
    assert!(p.is_dirty());
    assert!(!p.redo());
}

#[test]
fn line_offsets_are_line_starts() {
    let data = b"alpha\nbeta\r\n\ngamma";
    let mut idx = LineIndex::new(data, data.len() as u64);
    idx.build_full(data);
    for line in 0..idx.total_lines() {
        let off = idx.line_offset(data, line).expect("line exists") as usize;
        assert!(off == 0 || data[off - 1] == b'\n');
    }
}

#[test]
fn replacing_ordered_matches_from_the_back_replaces_each() {
    let content = b"one two\nthree two\ntwo".to_vec();
    let ms = vec![
        SearchMatch { line: 0, col: 4, length: 3, text: String::new() },
        SearchMatch { line: 1, col: 6, length: 3, text: String::new() },
        SearchMatch { line: 2, col: 0, length: 3, text: String::new() },
    ];
    let mut p = PieceTable::new(content.clone());
    replace_matches(&mut p, &content, &ms, b"2");
    assert_eq!(p.to_string_lossy(), "one 2\nthree 2\n2");
}

#[test]
fn line_count_is_newlines_plus_unterminated_last_line() {
    for (text, n) in [("", 0u64), ("a", 1), ("a\n", 1), ("a\nb", 2), ("\n\n", 2), ("a\r\nb\r\n", 2)] {
        let mut idx = LineIndex::new(text.as_bytes(), text.len() as u64);
        idx.build_full(text.as_bytes());
        assert_eq!(idx.total_lines(), n, "{:?}", text);
    }
}

#[test]
fn undo_after_redo_restores_the_text() {
    let mut p = pt("hello");
    p.delete(1, 3);
    assert!(p.undo());
    let before = p.to_bytes();
    assert!(p.redo());
    assert_eq!(p.to_bytes(), b"ho".to_vec());
    assert!(p.undo());
    assert_eq!(p.to_bytes(), before);
    assert!(p.redo());
    assert_eq!(p.to_bytes(), b"ho".to_vec());
}

#[test]
fn line_offset_at_and_past_the_line_count() {
    let data = b"ab\ncd\n";
    let mut idx = LineIndex::new(data, data.len() as u64);
    idx.build_full(data);
    assert_eq!(idx.total_lines(), 2);
    assert_eq!(idx.line_offset(data, 1), Some(3));
    assert_eq!(idx.line_offset(data, 2), Some(6));
    assert_eq!(idx.line_offset(data, 3), None);

    let data = b"ab\ncd";
    let mut idx = LineIndex::new(data, data.len() as u64);
    idx.build_full(data);
    assert_eq!(idx.total_lines(), 2);
    assert_eq!(idx.line_offset(data, 2), None);

    let mut idx = LineIndex::new(b"", 0);
    idx.build_full(b"");
    assert_eq!(idx.line_offset(b"", 0), Some(0));
}

#[test]
fn get_lines_count_is_bounded_by_the_lines_left() {
    let data = b"a\nb\nc\nd";
    let mut idx = LineIndex::new(data, data.len() as u64);
    idx.build_full(data);
    let total = idx.total_lines();
    for start in 0..6u64 {
        for count in 0..6u32 {
            let expected = if start < total { (count as u64).min(total - start) } else { 0 };
            assert_eq!(idx.get_lines(data, start, count).len() as u64, expected);
        }
    }
}
