use notepada::buffer::piece_table::PieceTable;

fn pt(text: &str) -> PieceTable {
    PieceTable::new(text.as_bytes().to_vec())
}

#[test]
fn test_empty() {
    let p = pt("");
    assert!(p.is_empty());
    assert_eq!(p.len(), 0);
    assert_eq!(p.to_bytes(), b"");
}

#[test]
fn test_original_only() {
    let p = pt("Hello, World!");
    assert_eq!(p.len(), 13);
    assert_eq!(p.to_bytes(), b"Hello, World!");
    assert!(!p.is_dirty());
}

#[test]
fn test_insert_at_start() {
    let mut p = pt("World");
    p.insert(0, b"Hello, ");
    assert_eq!(p.to_string_lossy(), "Hello, World");
    assert_eq!(p.len(), 12);
}

#[test]
fn test_insert_at_end() {
    let mut p = pt("Hello");
    p.insert(5, b", World!");
    assert_eq!(p.to_string_lossy(), "Hello, World!");
}

#[test]
fn test_insert_in_middle() {
    let mut p = pt("Helo");
    p.insert(2, b"l");
    assert_eq!(p.to_string_lossy(), "Hello");
}

#[test]
fn test_insert_into_empty() {
    let mut p = pt("");
    p.insert(0, b"Hello");
    assert_eq!(p.to_string_lossy(), "Hello");
    assert_eq!(p.len(), 5);
}

#[test]
fn test_delete_from_start() {
    let mut p = pt("Hello, World!");
    p.delete(0, 7);
    assert_eq!(p.to_string_lossy(), "World!");
}

#[test]
fn test_delete_from_end() {
    let mut p = pt("Hello, World!");
    p.delete(5, 8);
    assert_eq!(p.to_string_lossy(), "Hello");
}

#[test]
fn test_delete_from_middle() {
    let mut p = pt("Hello, World!");
    p.delete(5, 2);
    assert_eq!(p.to_string_lossy(), "HelloWorld!");
}

#[test]
fn test_delete_all() {
    let mut p = pt("Hello");
    p.delete(0, 5);
    assert!(p.is_empty());
}

#[test]
fn test_replace_basic() {
    let mut p = pt("Hello, World!");
    p.replace(7, 5, b"Rust");
    assert_eq!(p.to_string_lossy(), "Hello, Rust!");
}

#[test]
fn test_replace_different_length() {
    let mut p = pt("abc");
    p.replace(1, 1, b"XYZ");
    assert_eq!(p.to_string_lossy(), "aXYZc");
}

#[test]
fn test_replace_entire_content() {
    let mut p = pt("old content");
    p.replace(0, 11, b"new content");
    assert_eq!(p.to_string_lossy(), "new content");
}

#[test]
fn test_multiple_inserts() {
    let mut p = pt("ac");
    p.insert(1, b"b");
    assert_eq!(p.to_string_lossy(), "abc");
    p.insert(3, b"d");
    assert_eq!(p.to_string_lossy(), "abcd");
}

#[test]
fn test_interleaved_edits() {
    let mut p = pt("The quick fox");
    // Insert "brown " before "fox"
    p.insert(10, b"brown ");
    assert_eq!(p.to_string_lossy(), "The quick brown fox");
    // Insert "lazy " before "fox"
    p.insert(16, b"lazy ");
    assert_eq!(p.to_string_lossy(), "The quick brown lazy fox");
}

#[test]
fn test_read_range() {
    let mut p = pt("Hello, World!");
    p.insert(5, b" Beautiful");
    // "Hello Beautiful, World!"
    assert_eq!(p.read_range(0, 5), b"Hello");
    assert_eq!(p.read_range(5, 10), b" Beautiful");
    assert_eq!(p.read_range(15, 7), b", World");
}

#[test]
fn test_undo_insert() {
    let mut p = pt("Hello");
    p.insert(5, b" World");
    assert_eq!(p.to_string_lossy(), "Hello World");
    assert!(p.undo());
    assert_eq!(p.to_string_lossy(), "Hello");
}

#[test]
fn test_undo_delete() {
    let mut p = pt("Hello, World!");
    p.delete(5, 7);
    assert_eq!(p.to_string_lossy(), "Hello!");
    assert!(p.undo());
    assert_eq!(p.to_string_lossy(), "Hello, World!");
}

#[test]
fn test_undo_replace() {
    let mut p = pt("Hello, World!");
    p.replace(7, 5, b"Rust");
    assert_eq!(p.to_string_lossy(), "Hello, Rust!");
    assert!(p.undo());
    assert_eq!(p.to_string_lossy(), "Hello, World!");
}

#[test]
fn test_undo_multiple() {
    let mut p = pt("a");
    p.insert(1, b"b");
    p.insert(2, b"c");
    assert_eq!(p.to_string_lossy(), "abc");
    assert!(p.undo());
    assert_eq!(p.to_string_lossy(), "ab");
    assert!(p.undo());
    assert_eq!(p.to_string_lossy(), "a");
}

#[test]
fn test_undo_empty() {
    let mut p = pt("Hello");
    assert!(!p.undo());
    assert_eq!(p.to_string_lossy(), "Hello");
}

#[test]
fn test_redo_insert() {
    let mut p = pt("Hello");
    p.insert(5, b" World");
    assert_eq!(p.to_string_lossy(), "Hello World");
    assert!(p.undo());
    assert_eq!(p.to_string_lossy(), "Hello");
    assert!(p.redo());
    assert_eq!(p.to_string_lossy(), "Hello World");
}

#[test]
fn test_redo_delete() {
    let mut p = pt("Hello, World!");
    p.delete(5, 7);
    assert_eq!(p.to_string_lossy(), "Hello!");
    assert!(p.undo());
    assert_eq!(p.to_string_lossy(), "Hello, World!");
    assert!(p.redo());
    assert_eq!(p.to_string_lossy(), "Hello!");
}

#[test]
fn test_redo_replace() {
    let mut p = pt("Hello, World!");
    p.replace(7, 5, b"Rust");
    assert_eq!(p.to_string_lossy(), "Hello, Rust!");
    assert!(p.undo());
    assert_eq!(p.to_string_lossy(), "Hello, World!");
    assert!(p.redo());
    assert_eq!(p.to_string_lossy(), "Hello, Rust!");
}

#[test]
fn test_redo_empty() {
    let mut p = pt("Hello");
    assert!(!p.redo());
}

#[test]
fn test_undo_redo_cycle() {
    let mut p = pt("a");
    p.insert(1, b"b"); // "ab"
    p.insert(2, b"c"); // "abc"
    p.delete(0, 1); // "bc"
    assert_eq!(p.to_string_lossy(), "bc");

    assert!(p.undo()); // undo delete -> "abc"
    assert_eq!(p.to_string_lossy(), "abc");
    assert!(p.undo()); // undo insert c -> "ab"
    assert_eq!(p.to_string_lossy(), "ab");
    assert!(p.redo()); // redo insert c -> "abc"
    assert_eq!(p.to_string_lossy(), "abc");
    assert!(p.redo()); // redo delete -> "bc"
    assert_eq!(p.to_string_lossy(), "bc");
}

#[test]
fn test_new_edit_clears_redo() {
    let mut p = pt("Hello");
    p.insert(5, b" World");
    assert!(p.undo());
    // Now redo stack has an entry
    p.insert(5, b" Rust"); // New edit should clear redo
    assert!(!p.redo()); // Nothing to redo
    assert_eq!(p.to_string_lossy(), "Hello Rust");
}

#[test]
fn test_piece_count() {
    let mut p = pt("Hello");
    assert_eq!(p.piece_count(), 1);
    p.insert(5, b" World");
    assert_eq!(p.piece_count(), 2);
    p.insert(5, b" Beautiful");
    assert_eq!(p.piece_count(), 3);
}

#[test]
fn piece_table_test_large_file_simulation() {
    // Simulate many edits on a large-ish document
    let original = "a".repeat(100_000);
    let mut p = pt(&original);
    assert_eq!(p.len(), 100_000);

    // Insert at various positions
    for i in 0..100 {
        let pos = (i * 1000) + i;
        p.insert(pos as u64, b"INSERTED");
    }
    assert_eq!(p.len(), 100_800);

    // Delete some
    for i in 0..50 {
        let pos = (i * 2000) + 100;
        p.delete(pos as u64, 10);
    }
    assert_eq!(p.len(), 100_300);

    // Verify we can still read
    let bytes = p.read_range(0, 100);
    assert!(!bytes.is_empty());
}

#[test]
fn test_stress_insert_delete_cycle() {
    let mut p = pt("");
    for i in 0..200 {
        p.insert(p.len(), format!("line {}\n", i).as_bytes());
    }
    let content = p.to_string_lossy();
    assert!(content.contains("line 0\n"));
    assert!(content.contains("line 199\n"));

    // Delete every other line
    for i in (0..200).rev().step_by(2) {
        let line_start = content.lines().take(i).map(|l| l.len() + 1).sum::<usize>();
        let line_len = format!("line {}\n", i).len();
        p.delete(line_start as u64, line_len as u64);
    }
}

#[test]
fn insert_past_end_appends() {
    let mut p = pt("abc");
    p.insert(99, b"d");
    assert_eq!(p.to_string_lossy(), "abcd");
    assert!(p.undo());
    assert_eq!(p.to_string_lossy(), "abc");
}

#[test]
fn empty_insert_changes_nothing() {
    let mut p = pt("abc");
    p.insert(1, b"");
    assert!(!p.is_dirty());
    assert_eq!(p.piece_count(), 1);
    assert_eq!(p.added_len(), 0);
}

#[test]
fn delete_past_end_or_empty_changes_nothing() {
    let mut p = pt("abc");
    p.delete(3, 5);
    p.delete(1, 0);
    assert_eq!(p.to_string_lossy(), "abc");
    assert!(!p.is_dirty());
}

#[test]
fn delete_is_clipped_to_the_end() {
    let mut p = pt("abcdef");
    p.delete(4, 100);
    assert_eq!(p.to_string_lossy(), "abcd");
    assert!(p.undo());
    assert_eq!(p.to_string_lossy(), "abcdef");
}

#[test]
fn replace_past_end_appends() {
    let mut p = pt("abc");
    p.replace(10, 2, b"XY");
    assert_eq!(p.to_string_lossy(), "abcXY");
}

#[test]
fn replace_with_empty_text_deletes() {
    let mut p = pt("abcdef");
    p.replace(1, 2, b"");
    assert_eq!(p.to_string_lossy(), "adef");
    assert!(p.undo());
    assert_eq!(p.to_string_lossy(), "abcdef");
}

#[test]
fn read_range_clips_and_handles_past_end() {
    let p = pt("abcdef");
    assert_eq!(p.read_range(4, 10), b"ef");
    assert_eq!(p.read_range(6, 1), b"");
    assert_eq!(p.read_range(2, 0), b"");
}

#[test]
fn edits_across_pieces() {
    let mut p = pt("0123456789");
    p.insert(5, b"abc"); // 01234abc56789
    p.delete(3, 5); // 012 + 56789 -> "01256789"
    assert_eq!(p.to_string_lossy(), "01256789");
    assert_eq!(p.len(), 8);
    p.replace(2, 3, b"xy"); // "01" + "xy" + "789"
    assert_eq!(p.to_string_lossy(), "01xy789");
    assert!(p.undo());
    assert!(p.undo());
    assert!(p.undo());
    assert_eq!(p.to_string_lossy(), "0123456789");
    assert!(!p.is_dirty());
    assert!(p.redo());
    assert!(p.redo());
    assert!(p.redo());
    assert_eq!(p.to_string_lossy(), "01xy789");
    assert!(!p.redo());
}

#[test]
fn lossy_view_of_invalid_bytes() {
    let p = PieceTable::new(vec![b'a', 0xC3, b'b']);
    assert_eq!(p.to_string_lossy(), "a\u{FFFD}b");
}
