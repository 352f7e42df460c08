use notepada::buffer::line_index::LineIndex;

#[test]
fn test_line_count_small() {
    let data = b"line1\nline2\nline3\n";
    let mut idx = LineIndex::new(data, data.len() as u64);
    idx.build_full(data);
    assert_eq!(idx.total_lines(), 3);
}

#[test]
fn test_line_count_no_trailing_newline() {
    let data = b"line1\nline2\nline3";
    let mut idx = LineIndex::new(data, data.len() as u64);
    idx.build_full(data);
    assert_eq!(idx.total_lines(), 3);
}

#[test]
fn test_line_count_empty() {
    let data = b"";
    let mut idx = LineIndex::new(data, 0);
    idx.build_full(data);
    assert_eq!(idx.total_lines(), 0);
}

#[test]
fn test_line_count_single_line() {
    let data = b"hello world";
    let mut idx = LineIndex::new(data, data.len() as u64);
    idx.build_full(data);
    assert_eq!(idx.total_lines(), 1);
}

#[test]
fn test_get_lines_from_start() {
    let data = b"aaa\nbbb\nccc\nddd\neee\n";
    let mut idx = LineIndex::new(data, data.len() as u64);
    idx.build_full(data);

    let lines = idx.get_lines(data, 0, 3);
    assert_eq!(lines, vec!["aaa", "bbb", "ccc"]);
}

#[test]
fn test_get_lines_from_middle() {
    let data = b"aaa\nbbb\nccc\nddd\neee\n";
    let mut idx = LineIndex::new(data, data.len() as u64);
    idx.build_full(data);

    let lines = idx.get_lines(data, 2, 2);
    assert_eq!(lines, vec!["ccc", "ddd"]);
}

#[test]
fn test_get_lines_beyond_end() {
    let data = b"aaa\nbbb\nccc\n";
    let mut idx = LineIndex::new(data, data.len() as u64);
    idx.build_full(data);

    let lines = idx.get_lines(data, 1, 100);
    assert_eq!(lines, vec!["bbb", "ccc"]);
}

#[test]
fn test_sparse_index_lookup() {
    // Build data with enough lines to create multiple sparse groups
    let mut data = String::new();
    for i in 0..5000u64 {
        data.push_str(&format!("Line number {}\n", i));
    }
    let bytes = data.as_bytes();
    let mut idx = LineIndex::new(bytes, bytes.len() as u64);
    idx.build_full(bytes);

    assert_eq!(idx.total_lines(), 5000);
    assert!(idx.is_complete());

    // Verify sparse index was built (should have ~5 groups: 0, 1024, 2048, 3072, 4096)
    assert!(idx.sparse_len() >= 4, "Expected at least 4 sparse entries, got {}", idx.sparse_len());

    // Verify lookup at sparse group boundary
    let lines = idx.get_lines(bytes, 0, 1);
    assert_eq!(lines[0], "Line number 0");

    let lines = idx.get_lines(bytes, 1024, 1);
    assert_eq!(lines[0], "Line number 1024");

    let lines = idx.get_lines(bytes, 4096, 1);
    assert_eq!(lines[0], "Line number 4096");

    // Verify lookup at arbitrary line
    let lines = idx.get_lines(bytes, 2500, 1);
    assert_eq!(lines[0], "Line number 2500");

    // Verify lookup at last line
    let lines = idx.get_lines(bytes, 4999, 1);
    assert_eq!(lines[0], "Line number 4999");
}

#[test]
fn test_crlf_handling() {
    let data = b"line1\r\nline2\r\nline3\r\n";
    let mut idx = LineIndex::new(data, data.len() as u64);
    idx.build_full(data);

    let lines = idx.get_lines(data, 0, 3);
    assert_eq!(lines, vec!["line1", "line2", "line3"]);
}

#[test]
fn line_index_test_large_file_simulation() {
    // Simulate a 1MB file with ~10k lines
    let mut data = String::new();
    for i in 0..10000u64 {
        data.push_str(&format!("Line {}: This is test content with some padding data here. {}\n", i, "x".repeat(50)));
    }
    let bytes = data.as_bytes();
    assert!(bytes.len() > 1_000_000, "Test file should be > 1MB, got {} bytes", bytes.len());

    let mut idx = LineIndex::new(bytes, bytes.len() as u64);
    idx.build_full(bytes);

    assert_eq!(idx.total_lines(), 10000);

    // Test random access
    let lines = idx.get_lines(bytes, 0, 1);
    assert!(lines[0].starts_with("Line 0:"));

    let lines = idx.get_lines(bytes, 5000, 1);
    assert!(lines[0].starts_with("Line 5000:"));

    let lines = idx.get_lines(bytes, 9999, 1);
    assert!(lines[0].starts_with("Line 9999:"));

    // Test viewport-style request
    let lines = idx.get_lines(bytes, 100, 50);
    assert_eq!(lines.len(), 50);
    assert!(lines[0].starts_with("Line 100:"));
    assert!(lines[49].starts_with("Line 149:"));
}

#[test]
fn initial_scan_of_small_data_is_complete() {
    let data = b"a\nb\n";
    let idx = LineIndex::new(data, data.len() as u64);
    assert!(idx.is_complete());
    assert_eq!(idx.total_lines(), 2);
    assert_eq!(idx.bytes_scanned(), 4);
    assert_eq!(idx.file_size(), 4);
}

#[test]
fn initial_scan_of_large_data_stops_early() {
    // Three megabytes of short lines: the first scan covers two of them.
    let line = b"0123456789abcde\n";
    let mut data = Vec::new();
    while data.len() < 3 * 1024 * 1024 {
        data.extend_from_slice(line);
    }
    let mut idx = LineIndex::new(&data, data.len() as u64);
    assert!(!idx.is_complete());
    assert_eq!(idx.bytes_scanned(), 2 * 1024 * 1024);
    assert_eq!(idx.total_lines(), (2 * 1024 * 1024 / 16) as u64);
    idx.build_full(&data);
    assert!(idx.is_complete());
    assert_eq!(idx.total_lines(), (data.len() / 16) as u64);
}

#[test]
fn unterminated_last_line_counts_only_at_file_end() {
    // The file is larger than the bytes given: the last line is not yet known to end.
    let data = b"x\ny";
    let idx = LineIndex::new(data, 10);
    assert_eq!(idx.total_lines(), 1);
    let idx = LineIndex::new(data, 3);
    assert_eq!(idx.total_lines(), 2);
}

#[test]
fn line_offset_finds_line_starts() {
    let data = b"ab\ncd\r\nef";
    let mut idx = LineIndex::new(data, data.len() as u64);
    idx.build_full(data);
    assert_eq!(idx.line_offset(data, 0), Some(0));
    assert_eq!(idx.line_offset(data, 1), Some(3));
    assert_eq!(idx.line_offset(data, 2), Some(7));
    assert_eq!(idx.line_offset(data, 4), None);
}

#[test]
fn line_offset_past_sparse_groups() {
    let mut data = String::new();
    for i in 0..3000u64 {
        data.push_str(&format!("{}\n", i % 10));
    }
    let bytes = data.as_bytes();
    let mut idx = LineIndex::new(bytes, bytes.len() as u64);
    idx.build_full(bytes);
    assert_eq!(idx.sparse_len(), 3);
    assert_eq!(idx.line_offset(bytes, 2049), Some(2 * 2049));
    assert_eq!(idx.line_offset(bytes, 3000), Some(6000));
    assert_eq!(idx.line_offset(bytes, 3001), None);
}

#[test]
fn get_lines_decodes_invalid_utf8_lossily() {
    let data = b"ok\n\xff\xfe\n";
    let mut idx = LineIndex::new(data, data.len() as u64);
    idx.build_full(data);
    let lines = idx.get_lines(data, 0, 5);
    assert_eq!(lines, vec!["ok".to_string(), "\u{FFFD}\u{FFFD}".to_string()]);
}

#[test]
fn line_spans_strip_terminators() {
    let data = b"a\r\nbb\nccc";
    let mut idx = LineIndex::new(data, data.len() as u64);
    idx.build_full(data);
    assert_eq!(idx.line_spans(data, 0, 10), vec![(0, 1), (3, 5), (6, 9)]);
    assert_eq!(idx.line_spans(data, 2, 1), vec![(6, 9)]);
    assert_eq!(idx.line_spans(data, 5, 1), Vec::<(usize, usize)>::new());
}

#[test]
fn one_sparse_entry_per_group_of_lines() {
    let mut data = String::new();
    for i in 0..5000u64 {
        data.push_str(&format!("Line number {}\n", i));
    }
    let bytes = data.as_bytes();
    let mut idx = LineIndex::new(bytes, bytes.len() as u64);
    idx.build_full(bytes);
    assert_eq!(idx.sparse_len(), 5);
    let mut data = String::new();
    for _ in 0..1023 {
        data.push_str("x\n");
    }
    let mut idx = LineIndex::new(data.as_bytes(), data.len() as u64);
    idx.build_full(data.as_bytes());
    assert_eq!(idx.sparse_len(), 1);
    data.push_str("y\n");
    let mut idx = LineIndex::new(data.as_bytes(), data.len() as u64);
    idx.build_full(data.as_bytes());
    assert_eq!(idx.sparse_len(), 2);
}
