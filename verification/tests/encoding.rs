use notepada::file::encoding::{
    convert_to_utf8, detect, detect_line_ending, eq_ignore_ascii_case, try_detect, LineEnding,
};
use notepada::viewport::manager::detect_bom_len;

#[test]
fn detect_plain_utf8_with_crlf() {
    let info = detect(b"hello\r\nworld\r\n", 64 * 1024);
    assert_eq!(info.encoding, "UTF-8");
    assert!(!info.has_bom);
    assert_eq!(info.line_ending, LineEnding::CRLF);
}

#[test]
fn detect_line_ending_styles() {
    assert_eq!(detect_line_ending("a\nb\n"), LineEnding::LF);
    assert_eq!(detect_line_ending("a\r\nb\r\n"), LineEnding::CRLF);
    assert_eq!(detect_line_ending("a\r\nb\n"), LineEnding::Mixed);
    assert_eq!(detect_line_ending("no newline"), LineEnding::LF);
    assert_eq!(detect_line_ending("lone\rcr"), LineEnding::LF);
    assert_eq!(detect_line_ending(""), LineEnding::LF);
}

#[test]
fn detect_line_ending_looks_at_first_64k_only() {
    let mut text = "a".repeat(70_000);
    text.insert_str(0, "x\r\n");
    text.push('\n');
    assert_eq!(detect_line_ending(&text), LineEnding::CRLF);
}

#[test]
fn detect_utf8_bom() {
    let bytes = b"\xEF\xBB\xBFhi\n";
    let info = detect(bytes, 64 * 1024);
    assert_eq!(info.encoding, "UTF-8");
    assert!(info.has_bom);
    assert_eq!(info.line_ending, LineEnding::LF);
    assert_eq!(detect_bom_len(bytes), 3);
    assert_eq!(convert_to_utf8(bytes, &info.encoding, 3), "hi\n");
}

#[test]
fn detect_utf16le_bom_and_convert() {
    let bytes = b"\xFF\xFEh\x00i\x00";
    let info = detect(bytes, 64 * 1024);
    assert_eq!(info.encoding, "UTF-16LE");
    assert!(info.has_bom);
    assert_eq!(detect_bom_len(bytes), 2);
    assert_eq!(convert_to_utf8(bytes, &info.encoding, 2), "hi");
}

#[test]
fn bom_lengths() {
    assert_eq!(detect_bom_len(b"\x00\x00\xFE\xFFab"), 4);
    assert_eq!(detect_bom_len(b"\xFF\xFE\x00\x00ab"), 4);
    assert_eq!(detect_bom_len(b"\xFE\xFFab"), 2);
    assert_eq!(detect_bom_len(b"\xFF\xFEab"), 2);
    assert_eq!(detect_bom_len(b"\xEF\xBB"), 0);
    assert_eq!(detect_bom_len(b""), 0);
    assert_eq!(detect_bom_len(b"plain"), 0);
}

#[test]
fn convert_from_windows_1252() {
    assert_eq!(convert_to_utf8(b"caf\xe9", "windows-1252", 0), "café");
}

#[test]
fn convert_utf8_label_is_case_insensitive_and_lossy() {
    assert_eq!(convert_to_utf8(b"ok\xff", "utf-8", 0), "ok\u{FFFD}");
    assert_eq!(convert_to_utf8(b"ok", "UTF-8", 0), "ok");
}

#[test]
fn convert_with_unknown_label_decodes_as_utf8() {
    assert_eq!(convert_to_utf8(b"ok\xff", "no-such-encoding", 0), "ok\u{FFFD}");
}

#[test]
fn convert_keeps_a_bom_as_long_as_the_content() {
    // The BOM is stripped only when more bytes follow it.
    assert_eq!(convert_to_utf8(b"\xEF\xBB\xBFa", "UTF-8", 3), "a");
    assert_eq!(convert_to_utf8(b"\xEF\xBB\xBF", "UTF-8", 3), "\u{FEFF}");
}

#[test]
fn ascii_case_insensitive_equality() {
    assert!(eq_ignore_ascii_case(b"UTF-8", b"utf-8"));
    assert!(!eq_ignore_ascii_case(b"UTF-8", b"UTF-16"));
    assert!(!eq_ignore_ascii_case(b"UTF8", b"UTF-8"));
    assert!(eq_ignore_ascii_case(b"", b""));
}

#[test]
fn try_detect_refuses_a_cut_inside_a_character() {
    let mut bytes = vec![b'a'; 65_535];
    bytes.extend_from_slice("é".as_bytes());
    assert!(try_detect(&bytes, 64 * 1024).is_none());
}

#[test]
fn try_detect_agrees_with_detect() {
    let bytes = b"one\r\ntwo\n";
    let info = try_detect(bytes, 64 * 1024).expect("detected");
    assert_eq!(info.encoding, "UTF-8");
    assert!(!info.has_bom);
    assert_eq!(info.line_ending, LineEnding::Mixed);
}

#[test]
fn detect_guesses_a_legacy_encoding() {
    let bytes = b"Le caf\xe9 est tr\xe8s bon, merci beaucoup.\n";
    let info = detect(bytes, 64 * 1024);
    assert_eq!(info.encoding, "windows-1252");
    assert!(!info.has_bom);
    assert_eq!(convert_to_utf8(bytes, &info.encoding, 0), "Le café est très bon, merci beaucoup.\n");
}

#[test]
fn detect_reads_only_the_first_max_scan_bytes() {
    let a = detect(b"\xEF\xBB\xBFa\r\nx", 4);
    let b = detect(b"\xEF\xBB\xBFa\nx", 4);
    assert_eq!(a.encoding, b.encoding);
    assert_eq!(a.has_bom, b.has_bom);
    assert_eq!(a.line_ending, b.line_ending);
    assert_eq!(a.line_ending, LineEnding::LF);
    // With more bytes read, the line endings tell them apart.
    assert_eq!(detect(b"\xEF\xBB\xBFa\r\nx", 64).line_ending, LineEnding::CRLF);
    assert_eq!(detect(b"\xEF\xBB\xBFa\nx", 64).line_ending, LineEnding::LF);
}

#[test]
fn detect_line_ending_beyond_max_scan_is_not_seen() {
    let mut bytes = b"abc\n".to_vec();
    bytes.extend_from_slice(b"def\r\n");
    assert_eq!(detect(&bytes, 4).line_ending, LineEnding::LF);
    assert_eq!(detect(&bytes, 9).line_ending, LineEnding::Mixed);
}
