use notepada::buffer::piece_table::PieceTable;
use notepada::commands::search_cmds::{next_match, replace_all, replace_matches, search, search_next};
use notepada::document::Document;
use notepada::search::{SearchMatch, SearchOptions};

fn doc(text: &str) -> Document {
    Document::from_file_bytes("tab".to_string(), text.as_bytes(), text.len() as u64, "f.txt".to_string())
        .expect("document")
}

fn plain() -> SearchOptions {
    SearchOptions { case_sensitive: true, whole_word: false, regex: false }
}

fn m(line: u64, col: u32, length: u32) -> SearchMatch {
    SearchMatch { line, col, length, text: String::new() }
}

#[test]
fn search_dispatches_on_regex_option() {
    let d = doc("a1 b22\nc333");
    let plain_hits = search(&d, r"\d+", &plain());
    assert!(plain_hits.is_empty());
    let rx = SearchOptions { case_sensitive: true, whole_word: false, regex: true };
    let hits = search(&d, r"\d+", &rx);
    let at: Vec<(u64, u32, u32)> = hits.iter().map(|m| (m.line, m.col, m.length)).collect();
    assert_eq!(at, vec![(0, 1, 1), (0, 4, 2), (1, 1, 3)]);
}

#[test]
fn next_match_after_position() {
    let ms = vec![m(0, 0, 1), m(0, 5, 1), m(2, 1, 1)];
    assert_eq!(next_match(ms.clone(), 0, 0).map(|m| (m.line, m.col)), Some((0, 5)));
    assert_eq!(next_match(ms.clone(), 0, 5).map(|m| (m.line, m.col)), Some((2, 1)));
    assert_eq!(next_match(ms.clone(), 1, 99).map(|m| (m.line, m.col)), Some((2, 1)));
}

#[test]
fn next_match_wraps_around() {
    let ms = vec![m(0, 0, 1), m(0, 5, 1)];
    assert_eq!(next_match(ms, 3, 0).map(|m| (m.line, m.col)), Some((0, 0)));
    assert!(next_match(Vec::new(), 0, 0).is_none());
}

#[test]
fn search_next_in_document() {
    let d = doc("foo bar\nbar foo\nfoo");
    let n = search_next(&d, "foo", &plain(), 0, 0).unwrap();
    assert_eq!((n.line, n.col), (1, 4));
    let n = search_next(&d, "foo", &plain(), 1, 4).unwrap();
    assert_eq!((n.line, n.col), (2, 0));
    let n = search_next(&d, "foo", &plain(), 2, 0).unwrap();
    assert_eq!((n.line, n.col), (0, 0));
    assert!(search_next(&d, "zzz", &plain(), 0, 0).is_none());
}

#[test]
fn replace_all_replaces_every_match() {
    let mut d = doc("cat dog\ncat\r\nbird cat");
    let n = replace_all(&mut d, "cat", "lion", &plain());
    assert_eq!(n, Some(3));
    assert_eq!(d.content_string(), "lion dog\nlion\r\nbird lion");
    assert!(d.dirty);
    assert_eq!(d.viewport.total_lines(), 3);
}

#[test]
fn replace_all_without_matches_changes_nothing() {
    let mut d = doc("cat dog");
    assert_eq!(replace_all(&mut d, "cow", "lion", &plain()), Some(0));
    assert_eq!(d.content_string(), "cat dog");
    assert!(!d.dirty);
}

#[test]
fn replace_all_with_regex() {
    let mut d = doc("a1 b22\nc333");
    let rx = SearchOptions { case_sensitive: true, whole_word: false, regex: true };
    assert_eq!(replace_all(&mut d, r"\d+", "#", &rx), Some(3));
    assert_eq!(d.content_string(), "a# b#\nc#");
}

#[test]
fn replace_all_case_insensitive_whole_word() {
    let mut d = doc("Cat cats CAT");
    let opts = SearchOptions { case_sensitive: false, whole_word: true, regex: false };
    assert_eq!(replace_all(&mut d, "cat", "dog", &opts), Some(2));
    assert_eq!(d.content_string(), "dog cats dog");
}

#[test]
fn replace_all_can_be_undone_one_match_at_a_time() {
    let mut d = doc("x x x");
    assert_eq!(replace_all(&mut d, "x", "yy", &plain()), Some(3));
    assert_eq!(d.content_string(), "yy yy yy");
    assert!(d.piece_table.undo());
    assert_eq!(d.content_string(), "x yy yy");
}

#[test]
fn replace_matches_works_from_the_last_match_back() {
    let content = b"ab\ncd".to_vec();
    let mut t = PieceTable::new(content.clone());
    let ms = vec![m(0, 0, 1), m(1, 1, 1)];
    replace_matches(&mut t, &content, &ms, b"XYZ");
    assert_eq!(t.to_string_lossy(), "XYZb\ncXYZ");
}

#[test]
fn replace_matches_with_overlapping_matches() {
    // Overlapping matches are replaced one after the other, the last first.
    let content = b"aaa".to_vec();
    let mut t = PieceTable::new(content.clone());
    let ms = vec![m(0, 0, 2), m(0, 1, 2)];
    replace_matches(&mut t, &content, &ms, b"b");
    assert_eq!(t.to_string_lossy(), "b");
}
