use notepada::search::text_search::{ascii_lowercase, is_word_char, search};
use notepada::search::SearchOptions;

fn opts(case_sensitive: bool, whole_word: bool) -> SearchOptions {
    SearchOptions { case_sensitive, whole_word, regex: false }
}

#[test]
fn test_basic_search() {
    let content = b"hello world\nhello rust\nfoo bar";
    let results = search(content, "hello", &opts(true, false));
    assert_eq!(results.len(), 2);
    assert_eq!(results[0].line, 0);
    assert_eq!(results[0].col, 0);
    assert_eq!(results[1].line, 1);
    assert_eq!(results[1].col, 0);
}

#[test]
fn test_case_insensitive() {
    let content = b"Hello World\nHELLO Rust\nfoo bar";
    let results = search(content, "hello", &opts(false, false));
    assert_eq!(results.len(), 2);
}

#[test]
fn test_case_sensitive() {
    let content = b"Hello World\nhello Rust";
    let results = search(content, "hello", &opts(true, false));
    assert_eq!(results.len(), 1);
    assert_eq!(results[0].line, 1);
}

#[test]
fn test_whole_word() {
    let content = b"hello world\nhelloworld foo";
    let results = search(content, "hello", &opts(true, true));
    assert_eq!(results.len(), 1);
    assert_eq!(results[0].line, 0);
}

#[test]
fn test_no_match() {
    let content = b"hello world";
    let results = search(content, "xyz", &opts(true, false));
    assert!(results.is_empty());
}

#[test]
fn test_empty_query() {
    let content = b"hello world";
    let results = search(content, "", &opts(true, false));
    assert!(results.is_empty());
}

#[test]
fn test_multiple_per_line() {
    let content = b"aaa aaa aaa";
    let results = search(content, "aaa", &opts(true, false));
    assert_eq!(results.len(), 3);
    assert_eq!(results[0].col, 0);
    assert_eq!(results[1].col, 4);
    assert_eq!(results[2].col, 8);
}

#[test]
fn test_column_tracking() {
    let content = b"the quick brown fox";
    let results = search(content, "fox", &opts(true, false));
    assert_eq!(results.len(), 1);
    assert_eq!(results[0].col, 16);
}

#[test]
fn matches_report_length_and_original_text() {
    let content = b"Hello World\nsay HELLO";
    let results = search(content, "hello", &opts(false, false));
    assert_eq!(results.len(), 2);
    assert_eq!(results[0].text, "Hello");
    assert_eq!(results[0].length, 5);
    assert_eq!(results[1].line, 1);
    assert_eq!(results[1].col, 4);
    assert_eq!(results[1].text, "HELLO");
}

#[test]
fn overlapping_hits_are_all_reported() {
    let results = search(b"aaaa", "aa", &opts(true, false));
    let cols: Vec<u32> = results.iter().map(|m| m.col).collect();
    assert_eq!(cols, vec![0, 1, 2]);
}

#[test]
fn empty_content_gives_nothing() {
    assert!(search(b"", "a", &opts(true, false)).is_empty());
}

#[test]
fn whole_word_treats_underscore_and_digits_as_word() {
    let content = b"foo_bar foo1 foo-bar foo";
    let results = search(content, "foo", &opts(true, true));
    let cols: Vec<u32> = results.iter().map(|m| m.col).collect();
    assert_eq!(cols, vec![13, 21]);
}

#[test]
fn lines_split_on_newline_only() {
    let content = b"a\r\nxa\n\nax";
    let results = search(content, "a", &opts(true, false));
    let at: Vec<(u64, u32)> = results.iter().map(|m| (m.line, m.col)).collect();
    assert_eq!(at, vec![(0, 0), (1, 1), (3, 0)]);
}

#[test]
fn unicode_query_is_lowercased() {
    // The query is lower-cased with Unicode rules; the content only with ASCII rules.
    let content = "straße STRASSE".as_bytes();
    let results = search(content, "STRAßE", &opts(false, false));
    assert_eq!(results.len(), 1);
    assert_eq!(results[0].col, 0);
    assert_eq!(results[0].length, 7);
}

#[test]
fn word_chars() {
    assert!(is_word_char(b'a'));
    assert!(is_word_char(b'Z'));
    assert!(is_word_char(b'5'));
    assert!(is_word_char(b'_'));
    assert!(!is_word_char(b'-'));
    assert!(!is_word_char(b' '));
    assert!(!is_word_char(0xC3));
}

#[test]
fn ascii_lowercase_leaves_other_bytes() {
    assert_eq!(ascii_lowercase(b"AbC-\xC3\x89"), b"abc-\xC3\x89".to_vec());
}
