use notepada::search::regex_search::{matches_at_spans, search_regex};
use notepada::search::SearchOptions;

fn opts(case_sensitive: bool, whole_word: bool) -> SearchOptions {
    SearchOptions { case_sensitive, whole_word, regex: true }
}

#[test]
fn test_basic_regex() {
    let content = b"hello123 world\nfoo456 bar";
    let results = search_regex(content, r"\d+", &opts(true, false));
    assert_eq!(results.len(), 2);
    assert_eq!(results[0].text, "123");
    assert_eq!(results[1].text, "456");
}

#[test]
fn test_case_insensitive_regex() {
    let content = b"Hello World\nhello rust";
    let results = search_regex(content, "hello", &opts(false, false));
    assert_eq!(results.len(), 2);
}

#[test]
fn test_word_boundary_regex() {
    let content = b"hello world\nhelloworld";
    let results = search_regex(content, "hello", &opts(true, true));
    assert_eq!(results.len(), 1);
}

#[test]
fn test_invalid_regex() {
    let content = b"hello world";
    let results = search_regex(content, "[invalid", &opts(true, false));
    assert!(results.is_empty());
}

#[test]
fn test_complex_pattern() {
    let content = b"foo@bar.com\nnot-an-email\nbaz@qux.org";
    let results = search_regex(content, r"\w+@\w+\.\w+", &opts(true, false));
    assert_eq!(results.len(), 2);
}

#[test]
fn regex_matches_report_line_and_column() {
    let content = b"ab12\r\ncd\n345";
    let results = search_regex(content, r"\d+", &opts(true, false));
    let at: Vec<(u64, u32, u32, String)> =
        results.iter().map(|m| (m.line, m.col, m.length, m.text.clone())).collect();
    assert_eq!(at, vec![(0, 2, 2, "12".to_string()), (2, 0, 3, "345".to_string())]);
}

#[test]
fn invalid_utf8_content_gives_nothing() {
    let content = b"abc\xff";
    assert!(search_regex(content, "abc", &opts(true, false)).is_empty());
}

#[test]
fn empty_pattern_or_content_gives_nothing() {
    assert!(search_regex(b"abc", "", &opts(true, false)).is_empty());
    assert!(search_regex(b"", "a", &opts(true, false)).is_empty());
}

#[test]
fn spans_become_matches() {
    let content = b"x\nhello\nworld";
    let spans = vec![(2usize, 4usize), (8, 13)];
    let ms = matches_at_spans(content, &spans);
    assert_eq!(ms.len(), 2);
    assert_eq!((ms[0].line, ms[0].col, ms[0].length), (1, 0, 2));
    assert_eq!(ms[0].text, "he");
    assert_eq!((ms[1].line, ms[1].col, ms[1].length), (2, 0, 5));
    assert_eq!(ms[1].text, "world");
}
