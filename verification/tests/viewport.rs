use notepada::commands::file_cmds::open_file_result;
use notepada::commands::viewport_cmds::{get_viewport, goto_line, ViewportRequest};
use notepada::document::Document;
use notepada::file::mapper::mapped_slice;
use notepada::viewport::manager::line_ending_label;
use notepada::file::encoding::LineEnding;

fn doc(text: &str) -> Document {
    Document::from_file_bytes("tab-1".to_string(), text.as_bytes(), 99, "notes.txt".to_string())
        .expect("document")
}

#[test]
fn viewport_shows_lines_and_file_facts() {
    let d = doc("l1\r\nl2\r\nl3");
    let vp = get_viewport(&d, 1, 5);
    assert_eq!(vp.lines, vec!["l2".to_string(), "l3".to_string()]);
    assert_eq!(vp.start_line, 1);
    assert_eq!(vp.total_lines, 3);
    assert_eq!(vp.file_size, 99);
    assert_eq!(vp.encoding, "UTF-8");
    assert!(!vp.has_bom);
    assert_eq!(vp.line_ending, "CRLF");
    assert!(vp.index_complete);
    assert_eq!(vp.file_name, "notes.txt");
}

#[test]
fn viewport_past_the_end_is_empty() {
    let d = doc("a\nb\n");
    assert!(get_viewport(&d, 7, 5).lines.is_empty());
    assert!(get_viewport(&d, 0, 0).lines.is_empty());
}

#[test]
fn goto_line_shows_fifty_lines() {
    let mut text = String::new();
    for i in 0..120 {
        text.push_str(&format!("row {}\n", i));
    }
    let d = doc(&text);
    let vp = goto_line(&d, 60);
    assert_eq!(vp.lines.len(), 50);
    assert_eq!(vp.lines[0], "row 60");
    assert_eq!(vp.lines[49], "row 109");
    assert_eq!(vp.start_line, 60);
}

#[test]
fn open_file_result_reports_the_document() {
    let d = doc("x\ny\n");
    let r = open_file_result("tab-1".to_string(), "/tmp/notes.txt".to_string(), &d);
    assert_eq!(r.tab_id, "tab-1");
    assert_eq!(r.file_name, "notes.txt");
    assert_eq!(r.path, "/tmp/notes.txt");
    assert_eq!(r.file_size, 99);
    assert_eq!(r.total_lines, 2);
    assert_eq!(r.encoding, "UTF-8");
    assert!(!r.has_bom);
    assert_eq!(r.line_ending, "LF");
}

#[test]
fn tab_info_of_a_document() {
    let d = doc("x");
    let t = d.tab_info("/tmp/notes.txt".to_string());
    assert_eq!(t.id, "tab-1");
    assert_eq!(t.file_name, "notes.txt");
    assert_eq!(t.path, "/tmp/notes.txt");
    assert!(!t.dirty);
}

#[test]
fn viewport_request_fields() {
    let r = ViewportRequest { tab_id: "t".to_string(), start_line: 4, line_count: 9 };
    assert_eq!((r.tab_id.as_str(), r.start_line, r.line_count), ("t", 4, 9));
}

#[test]
fn labels_of_line_endings() {
    assert_eq!(line_ending_label(LineEnding::LF), "LF");
    assert_eq!(line_ending_label(LineEnding::CRLF), "CRLF");
    assert_eq!(line_ending_label(LineEnding::Mixed), "Mixed");
}

#[test]
fn mapped_slices_are_clipped() {
    let data = b"abcdef";
    assert_eq!(mapped_slice(data, 2, 3), b"cde");
    assert_eq!(mapped_slice(data, 4, 10), b"ef");
    assert_eq!(mapped_slice(data, 6, 1), b"");
    assert_eq!(mapped_slice(data, 0, 0), b"");
}

#[test]
fn document_from_bytes_with_bom() {
    let bytes = b"\xEF\xBB\xBFfirst\nsecond";
    let d = Document::from_file_bytes("t".to_string(), bytes, bytes.len() as u64, "b.txt".to_string())
        .expect("document");
    assert_eq!(d.content_string(), "first\nsecond");
    assert_eq!(d.content_bytes(), b"first\nsecond".to_vec());
    assert_eq!(d.viewport.bom_len(), 3);
    assert!(d.viewport.encoding_info().has_bom);
    assert_eq!(d.viewport.total_lines(), 2);
    assert!(!d.dirty);
    assert!(!d.piece_table.is_dirty());
}
