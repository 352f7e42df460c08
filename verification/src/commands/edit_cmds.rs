//! Edit commands: positions given as line and column are turned into byte offsets,
//! the piece table is edited, and the line index is rebuilt.

use vstd::prelude::*;
use crate::buffer::piece_table::{deleted, inserted, redone, replaced, undone};
use crate::document::{reindexed, Document};

verus! {

/// Why an edit command was refused.
#[derive(Debug, Clone, Copy, PartialEq, Eq, Structural)]
pub enum EditError {
    /// The line is past the end of the document, which has `total` lines.
    LineOutOfRange { line: u64, total: u64 },
    /// The end of a range does not come after its start.
    InvalidRange,
}

/// What an edit command reports back, besides the viewport.
#[derive(Debug, Clone, Copy, PartialEq, Eq, Structural)]
pub struct EditOutcome {
    /// New cursor line.
    pub cursor_line: u64,
    /// New cursor column.
    pub cursor_col: u32,
    /// Whether the document is now dirty.
    pub dirty: bool,
    /// Whether undo is available.
    pub can_undo: bool,
    /// Whether redo is available.
    pub can_redo: bool,
    /// First line of the viewport to show: 25 lines above the cursor line, at least 0.
    pub view_line: u64,
}

/// Offset and line number reached from offset `off` on line `cur` by moving to the start
/// of line `line`; a newline or `"\r\n"` ends a line.
pub open spec fn skip_lines(c: Seq<u8>, off: int, cur: int, line: int) -> (int, int)
    decreases c.len() - off,
{
    if off < 0 || off >= c.len() || cur >= line {
        (off, cur)
    } else if c[off] == 10u8 {
        skip_lines(c, off + 1, cur + 1, line)
    } else if c[off] == 13u8 && off + 1 < c.len() && c[off + 1] == 10u8 {
        skip_lines(c, off + 2, cur + 1, line)
    } else {
        skip_lines(c, off + 1, cur, line)
    }
}

/// Bytes of the UTF-8 character that lead byte `b` starts (1 for a byte that starts none).
pub open spec fn char_width(b: u8) -> int {
    if b <= 0x7Fu8 {
        1
    } else if 0xC0u8 <= b <= 0xDFu8 {
        2
    } else if 0xE0u8 <= b <= 0xEFu8 {
        3
    } else if 0xF0u8 <= b <= 0xF7u8 {
        4
    } else {
        1
    }
}

/// Offset reached from `off` by stepping over `n` characters, stopping at the end.
pub open spec fn skip_chars(c: Seq<u8>, off: int, n: nat) -> int
    decreases n,
{
    if n == 0 || off < 0 || off >= c.len() {
        off
    } else {
        skip_chars(c, off + char_width(c[off]), (n - 1) as nat)
    }
}

/// The byte offset of (line, col), col counted in characters: `Err` with the line and the
/// number of lines reached when the line is past the end.
pub open spec fn line_col_spec(c: Seq<u8>, line: u64, col: u32) -> Result<int, (u64, u64)> {
    let (off, cur) = skip_lines(c, 0, 0, line as int);
    if cur != line {
        Err((line, cur as u64))
    } else {
        Ok(skip_chars(c, off, col as nat))
    }
}

/// `line - 25`, at least 0.
pub open spec fn view_line_of(line: u64) -> u64 {
    if line >= 25 {
        (line - 25) as u64
    } else {
        0
    }
}

/// Convert a (line, col) position to a byte offset in the UTF-8 content.
/// Line and col are 0-based. Col is in characters (not bytes).
pub fn line_col_to_byte_offset(content: &[u8], line: u64, col: u32) -> (r: Result<u64, EditError>)
    requires
        content@.len() + 3 <= usize::MAX,
    ensures
        match line_col_spec(content@, line, col) {
            Ok(o) => r == Ok::<u64, EditError>(o as u64) && 0 <= o <= content@.len() + 3,
            Err((l, t)) => r == Err::<u64, EditError>(EditError::LineOutOfRange { line: l, total: t }),
        },
{
    let ghost c = content@;
    let n = content.len();
    let mut current_line: u64 = 0;
    let mut offset: usize = 0;
    while offset < n && current_line < line
        invariant
            c == content@,
            n == c.len(),
            n + 3 <= usize::MAX,
            offset <= n,
            current_line <= offset,
            skip_lines(c, offset as int, current_line as int, line as int) == skip_lines(
                c,
                0,
                0,
                line as int,
            ),
        decreases n - offset,
    {
        if content[offset] == 10u8 {
            current_line = current_line + 1;
            offset = offset + 1;
        } else if content[offset] == 13u8 && offset + 1 < n && content[offset + 1] == 10u8 {
            current_line = current_line + 1;
            offset = offset + 2;
        } else {
            offset = offset + 1;
        }
    }
    if current_line != line {
        return Err(EditError::LineOutOfRange { line, total: current_line });
    }
    // Now advance `col` characters (not bytes) from current offset
    let ghost start = offset as int;
    let mut chars_advanced: u32 = 0;
    while offset < n && chars_advanced < col
        invariant
            c == content@,
            n == c.len(),
            n + 3 <= usize::MAX,
            offset <= n + 3,
            chars_advanced <= col,
            skip_chars(c, offset as int, (col - chars_advanced) as nat) == skip_chars(
                c,
                start,
                col as nat,
            ),
        decreases n + 3 - offset,
    {
        // Skip one UTF-8 character
        let b = content[offset];
        let ch_len: usize = if b <= 0x7F {
            1
        } else if 0xC0 <= b && b <= 0xDF {
            2
        } else if 0xE0 <= b && b <= 0xEF {
            3
        } else if 0xF0 <= b && b <= 0xF7 {
            4
        } else {
            1
        };
        proof {
            assert(((col - chars_advanced) as nat) == ((col - chars_advanced - 1) as nat) + 1);
        }
        offset = offset + ch_len;
        chars_advanced = chars_advanced + 1;
    }
    Ok(offset as u64)
}

/// The view line for a cursor line: 25 lines above it, at least 0.
fn view_line(line: u64) -> (r: u64)
    ensures
        r == view_line_of(line),
{
    if line >= 25 {
        line - 25
    } else {
        0
    }
}

/// Insert text at a specific line/column position.
pub fn insert_text(doc: &mut Document, line: u64, col: u32, text: &str) -> (r: Result<EditOutcome, EditError>)
    requires
        old(doc).wf(),
        old(doc).piece_table.text().len() + 3 <= usize::MAX,
        old(doc).piece_table.room_for(vstd::utf8::encode_utf8(text@).len() as int),
        line_col_spec(old(doc).piece_table.text(), line, col) is Ok ==> col + (vstd::utf8::encode_utf8(
            text@,
        ).len() as u32) <= u32::MAX,
    ensures
        match line_col_spec(old(doc).piece_table.text(), line, col) {
            Err((l, t)) => {
                &&& r == Err::<EditOutcome, EditError>(EditError::LineOutOfRange { line: l, total: t })
                &&& *final(doc) == *old(doc)
            },
            Ok(o) => {
                &&& inserted(old(doc).piece_table, final(doc).piece_table, o as u64, vstd::utf8::encode_utf8(text@))
                &&& reindexed(*old(doc), *final(doc))
                &&& final(doc).dirty
                &&& r == Ok::<EditOutcome, EditError>(
                    EditOutcome {
                        cursor_line: line,
                        cursor_col: (col + (vstd::utf8::encode_utf8(text@).len() as u32)) as u32,
                        dirty: true,
                        can_undo: true,
                        can_redo: false,
                        view_line: view_line_of(line),
                    },
                )
            },
        },
{
    // Convert line/col to byte offset
    let bytes = doc.content_bytes();
    let byte_pos = match line_col_to_byte_offset(bytes.as_slice(), line, col) {
        Ok(p) => p,
        Err(e) => return Err(e),
    };
    // Insert into piece table
    let text_bytes = text.as_bytes();
    doc.piece_table.insert(byte_pos, text_bytes);
    doc.rebuild_after_edit();
    // Calculate new cursor position
    let new_col = col + #[verifier::truncate] (text_bytes.len() as u32);
    Ok(
        EditOutcome {
            cursor_line: line,
            cursor_col: new_col,
            dirty: doc.dirty,
            can_undo: true,
            can_redo: false,
            view_line: view_line(line),
        },
    )
}

/// The byte range of two (line, col) positions: `Err` for the first position that is past
/// the end, or when the end does not come after the start.
pub open spec fn range_spec(c: Seq<u8>, sl: u64, sc: u32, el: u64, ec: u32) -> Result<(int, int), EditError> {
    match line_col_spec(c, sl, sc) {
        Err((l, t)) => Err(EditError::LineOutOfRange { line: l, total: t }),
        Ok(s) => match line_col_spec(c, el, ec) {
            Err((l, t)) => Err(EditError::LineOutOfRange { line: l, total: t }),
            Ok(e) => if e <= s {
                Err(EditError::InvalidRange)
            } else {
                Ok((s, e))
            },
        },
    }
}

/// Byte range of two (line, col) positions.
pub fn byte_range(content: &[u8], sl: u64, sc: u32, el: u64, ec: u32) -> (r: Result<(u64, u64), EditError>)
    requires
        content@.len() + 3 <= usize::MAX,
    ensures
        match range_spec(content@, sl, sc, el, ec) {
            Err(e) => r == Err::<(u64, u64), EditError>(e),
            Ok((s, e)) => r == Ok::<(u64, u64), EditError>((s as u64, e as u64)) && 0 <= s < e
                <= content@.len() + 3,
        },
{
    let start_pos = match line_col_to_byte_offset(content, sl, sc) {
        Ok(p) => p,
        Err(e) => return Err(e),
    };
    let end_pos = match line_col_to_byte_offset(content, el, ec) {
        Ok(p) => p,
        Err(e) => return Err(e),
    };
    if end_pos <= start_pos {
        return Err(EditError::InvalidRange);
    }
    Ok((start_pos, end_pos))
}

/// Delete a range of text from start_line:start_col to end_line:end_col.
pub fn delete_range(doc: &mut Document, start_line: u64, start_col: u32, end_line: u64, end_col: u32) -> (r:
    Result<EditOutcome, EditError>)
    requires
        old(doc).wf(),
        old(doc).piece_table.text().len() + 3 <= usize::MAX,
    ensures
        match range_spec(old(doc).piece_table.text(), start_line, start_col, end_line, end_col) {
            Err(e) => r == Err::<EditOutcome, EditError>(e) && *final(doc) == *old(doc),
            Ok((s, e)) => {
                &&& deleted(old(doc).piece_table, final(doc).piece_table, s as u64, (e - s) as u64)
                &&& reindexed(*old(doc), *final(doc))
                &&& final(doc).dirty
                &&& r == Ok::<EditOutcome, EditError>(
                    EditOutcome {
                        cursor_line: start_line,
                        cursor_col: start_col,
                        dirty: true,
                        can_undo: final(doc).piece_table.undo_actions().len() > 0,
                        can_redo: false,
                        view_line: view_line_of(start_line),
                    },
                )
            },
        },
{
    let bytes = doc.content_bytes();
    let (start_pos, end_pos) = match byte_range(bytes.as_slice(), start_line, start_col, end_line, end_col) {
        Ok(range) => range,
        Err(e) => return Err(e),
    };
    let len = end_pos - start_pos;
    doc.piece_table.delete(start_pos, len);
    doc.rebuild_after_edit();
    Ok(
        EditOutcome {
            cursor_line: start_line,
            cursor_col: start_col,
            dirty: doc.dirty,
            can_undo: doc.piece_table.is_dirty(),
            can_redo: false,
            view_line: view_line(start_line),
        },
    )
}

/// Replace a range of text with new text.
pub fn replace_range(
    doc: &mut Document,
    start_line: u64,
    start_col: u32,
    end_line: u64,
    end_col: u32,
    text: &str,
) -> (r: Result<EditOutcome, EditError>)
    requires
        old(doc).wf(),
        old(doc).piece_table.text().len() + 3 <= usize::MAX,
        old(doc).piece_table.room_for(vstd::utf8::encode_utf8(text@).len() as int),
        range_spec(old(doc).piece_table.text(), start_line, start_col, end_line, end_col) is Ok
            ==> start_col + (vstd::utf8::encode_utf8(text@).len() as u32) <= u32::MAX,
    ensures
        match range_spec(old(doc).piece_table.text(), start_line, start_col, end_line, end_col) {
            Err(e) => r == Err::<EditOutcome, EditError>(e) && *final(doc) == *old(doc),
            Ok((s, e)) => {
                &&& replaced(
                    old(doc).piece_table,
                    final(doc).piece_table,
                    s as u64,
                    (e - s) as u64,
                    vstd::utf8::encode_utf8(text@),
                )
                &&& reindexed(*old(doc), *final(doc))
                &&& final(doc).dirty
                &&& r == Ok::<EditOutcome, EditError>(
                    EditOutcome {
                        cursor_line: start_line,
                        cursor_col: (start_col + (vstd::utf8::encode_utf8(text@).len() as u32)) as u32,
                        dirty: true,
                        can_undo: final(doc).piece_table.undo_actions().len() > 0,
                        can_redo: false,
                        view_line: view_line_of(start_line),
                    },
                )
            },
        },
{
    let bytes = doc.content_bytes();
    let (start_pos, end_pos) = match byte_range(bytes.as_slice(), start_line, start_col, end_line, end_col) {
        Ok(range) => range,
        Err(e) => return Err(e),
    };
    let len = end_pos - start_pos;
    let text_bytes = text.as_bytes();
    doc.piece_table.replace(start_pos, len, text_bytes);
    doc.rebuild_after_edit();
    // New cursor: after the replacement text on the start line
    let new_col = start_col + #[verifier::truncate] (text_bytes.len() as u32);
    Ok(
        EditOutcome {
            cursor_line: start_line,
            cursor_col: new_col,
            dirty: doc.dirty,
            can_undo: doc.piece_table.is_dirty(),
            can_redo: false,
            view_line: view_line(start_line),
        },
    )
}

/// Undo the last edit operation.
pub fn undo(doc: &mut Document, current_line: u64) -> (r: EditOutcome)
    requires
        old(doc).wf(),
        old(doc).piece_table.undo_room(),
    ensures
        old(doc).piece_table.undo_actions().len() == 0 ==> {
            &&& *final(doc) == *old(doc)
            &&& r == EditOutcome {
                cursor_line: current_line,
                cursor_col: 0,
                dirty: old(doc).dirty,
                can_undo: false,
                can_redo: true,
                view_line: view_line_of(current_line),
            }
        },
        old(doc).piece_table.undo_actions().len() > 0 ==> {
            &&& undone(old(doc).piece_table, final(doc).piece_table)
            &&& reindexed(*old(doc), *final(doc))
            &&& final(doc).dirty == (final(doc).piece_table.undo_actions().len() > 0)
            &&& r == EditOutcome {
                cursor_line: current_line,
                cursor_col: 0,
                dirty: final(doc).dirty,
                can_undo: final(doc).piece_table.undo_actions().len() > 0,
                can_redo: true,
                view_line: view_line_of(current_line),
            }
        },
{
    if !doc.piece_table.undo() {
        return EditOutcome {
            cursor_line: current_line,
            cursor_col: 0,
            dirty: doc.dirty,
            can_undo: false,
            can_redo: true,
            view_line: view_line(current_line),
        };
    }
    doc.dirty = doc.piece_table.is_dirty();
    let bytes = doc.content_bytes();
    doc.viewport.rebuild_line_index(bytes.as_slice());
    EditOutcome {
        cursor_line: current_line,
        cursor_col: 0,
        dirty: doc.dirty,
        can_undo: doc.piece_table.is_dirty(),
        can_redo: true,
        view_line: view_line(current_line),
    }
}

/// Redo the last undone operation.
pub fn redo(doc: &mut Document, current_line: u64) -> (r: EditOutcome)
    requires
        old(doc).wf(),
        old(doc).piece_table.redo_room(),
    ensures
        old(doc).piece_table.redo_actions().len() == 0 ==> {
            &&& *final(doc) == *old(doc)
            &&& r == EditOutcome {
                cursor_line: current_line,
                cursor_col: 0,
                dirty: old(doc).dirty,
                can_undo: true,
                can_redo: false,
                view_line: view_line_of(current_line),
            }
        },
        old(doc).piece_table.redo_actions().len() > 0 ==> {
            &&& redone(old(doc).piece_table, final(doc).piece_table)
            &&& reindexed(*old(doc), *final(doc))
            &&& final(doc).dirty == (final(doc).piece_table.undo_actions().len() > 0)
            &&& r == EditOutcome {
                cursor_line: current_line,
                cursor_col: 0,
                dirty: final(doc).dirty,
                can_undo: true,
                can_redo: final(doc).piece_table.undo_actions().len() > 0,
                view_line: view_line_of(current_line),
            }
        },
{
    if !doc.piece_table.redo() {
        return EditOutcome {
            cursor_line: current_line,
            cursor_col: 0,
            dirty: doc.dirty,
            can_undo: true,
            can_redo: false,
            view_line: view_line(current_line),
        };
    }
    doc.dirty = doc.piece_table.is_dirty();
    let bytes = doc.content_bytes();
    doc.viewport.rebuild_line_index(bytes.as_slice());
    EditOutcome {
        cursor_line: current_line,
        cursor_col: 0,
        dirty: doc.dirty,
        can_undo: true,
        can_redo: doc.piece_table.is_dirty(),
        view_line: view_line(current_line),
    }
}

/// Skipping lines from offset `off` stays inside `c`, and where it reaches the wanted line
/// it ends either where it started (already on that line) or just after a `'\n'`.
proof fn lemma_skip_lines_start(c: Seq<u8>, off: int, cur: int, line: int)
    requires
        0 <= off <= c.len(),
    ensures
        0 <= skip_lines(c, off, cur, line).0 <= c.len(),
        skip_lines(c, off, cur, line).1 >= line ==> (skip_lines(c, off, cur, line).0 == off && cur
            >= line) || (skip_lines(c, off, cur, line).0 >= 1 && c[skip_lines(c, off, cur, line).0
            - 1] == 10u8),
    decreases c.len() - off,
{
    if !(off < 0 || off >= c.len() || cur >= line) {
        if c[off] == 10u8 {
            lemma_skip_lines_start(c, off + 1, cur + 1, line);
        } else if c[off] == 13u8 && off + 1 < c.len() && c[off + 1] == 10u8 {
            lemma_skip_lines_start(c, off + 2, cur + 1, line);
        } else {
            lemma_skip_lines_start(c, off + 1, cur, line);
        }
    }
}

/// From a place where valid UTF-8 starts, stepping over `n` characters by their lead bytes
/// covers exactly the first `n` characters there (all of them when fewer remain), and
/// ends where valid UTF-8 starts again.
proof fn lemma_skip_chars_utf8(c: Seq<u8>, off: int, n: nat)
    requires
        0 <= off <= c.len(),
        vstd::utf8::valid_utf8(c.subrange(off, c.len() as int)),
    ensures
        ({
            let o = skip_chars(c, off, n);
            let rest = vstd::utf8::decode_utf8(c.subrange(off, c.len() as int));
            let k = if n < rest.len() {
                n as int
            } else {
                rest.len() as int
            };
            &&& off <= o <= c.len()
            &&& vstd::utf8::valid_utf8(c.subrange(off, o))
            &&& vstd::utf8::valid_utf8(c.subrange(o, c.len() as int))
            &&& vstd::utf8::decode_utf8(c.subrange(off, o)) == rest.take(k)
        }),
    decreases n,
{
    let len = c.len() as int;
    let s = c.subrange(off, len);
    if n == 0 || off >= len {
        assert(c.subrange(off, off) =~= Seq::<u8>::empty());
        assert(vstd::utf8::decode_utf8(Seq::<u8>::empty()) =~= Seq::<char>::empty());
        if off >= len {
            assert(s =~= Seq::<u8>::empty());
        }
    } else {
        assert(vstd::utf8::valid_first_scalar(s));
        let w = vstd::utf8::length_of_first_scalar(s);
        assert(s[0] == c[off]);
        assert(char_width(c[off]) == w);
        let pop = vstd::utf8::pop_first_scalar(s);
        assert(pop =~= c.subrange(off + w, len));
        lemma_skip_chars_utf8(c, off + w, (n - 1) as nat);
        let o = skip_chars(c, off, n);
        assert(o == skip_chars(c, off + w, (n - 1) as nat));
        let t = c.subrange(off, o);
        assert forall|j: int| 0 <= j < w implies t[j] == s[j] by {}
        assert(vstd::utf8::valid_first_scalar(t));
        assert(vstd::utf8::length_of_first_scalar(t) == w);
        assert(vstd::utf8::decode_first_scalar(t) == vstd::utf8::decode_first_scalar(s));
        assert(vstd::utf8::pop_first_scalar(t) =~= c.subrange(off + w, o));
        assert(vstd::utf8::valid_utf8(t));
        let ch = vstd::utf8::decode_first_scalar(s) as char;
        let rest1 = vstd::utf8::decode_utf8(c.subrange(off + w, len));
        assert(vstd::utf8::decode_utf8(s) == seq![ch] + rest1);
        assert(vstd::utf8::decode_utf8(t) == seq![ch] + vstd::utf8::decode_utf8(
            c.subrange(off + w, o),
        ));
        let k1 = if (n - 1) < rest1.len() {
            (n - 1) as int
        } else {
            rest1.len() as int
        };
        assert((seq![ch] + rest1).take(k1 + 1) =~= seq![ch] + rest1.take(k1));
    }
}

/// For valid UTF-8 content, the column of a position counts characters: the offset found
/// for (line, col) is a character boundary, and the bytes from the start of the line (the
/// offset found for column 0) to it decode to the first `col` characters from there
/// (all of them when fewer remain).
pub proof fn lemma_column_counts_characters(c: Seq<u8>, line: u64, col: u32)
    requires
        vstd::utf8::valid_utf8(c),
        line_col_spec(c, line, col) is Ok,
    ensures
        match (line_col_spec(c, line, 0), line_col_spec(c, line, col)) {
            (Ok(ls), Ok(o)) => {
                let rest = vstd::utf8::decode_utf8(c.subrange(ls, c.len() as int));
                &&& 0 <= ls <= o <= c.len()
                &&& vstd::utf8::is_char_boundary(c, o)
                &&& vstd::utf8::decode_utf8(c.subrange(ls, o)) == rest.take(
                    if col < rest.len() {
                        col as int
                    } else {
                        rest.len() as int
                    },
                )
            },
            _ => false,
        },
{
    let len = c.len() as int;
    let (ls, cur) = skip_lines(c, 0, 0, line as int);
    lemma_skip_lines_start(c, 0, 0, line as int);
    assert(line_col_spec(c, line, 0) == Ok::<int, (u64, u64)>(ls));
    assert(c.subrange(0, len) =~= c);
    if ls > 0 {
        assert(c[ls - 1] == 10u8);
        vstd::utf8::is_char_boundary_iff_not_is_continuation_byte(c, ls - 1);
        vstd::utf8::valid_utf8_split(c, ls - 1);
        let s1 = c.subrange(ls - 1, len);
        assert(s1[0] == 10u8);
        assert(vstd::utf8::pop_first_scalar(s1) =~= c.subrange(ls, len));
    }
    lemma_skip_chars_utf8(c, ls, col as nat);
    let o = skip_chars(c, ls, col as nat);
    if o == len {
        vstd::utf8::is_char_boundary_start_end_of_seq(c);
    } else {
        let so = c.subrange(o, len);
        assert(so[0] == c[o]);
        assert(vstd::utf8::valid_first_scalar(so));
        vstd::utf8::is_char_boundary_iff_not_is_continuation_byte(c, o);
    }
}

/// Skipping lines from `off`, which lies on line `cur` (the newlines before it number
/// `cur`), reaches the start of line `line` when the content has one, and otherwise the
/// end with every newline counted.
proof fn lemma_skip_lines_line_start(c: Seq<u8>, off: int, cur: int, line: int)
    requires
        0 <= off <= c.len(),
        0 <= cur <= line,
        crate::scan::newline_count(c.take(off)) == cur,
        crate::scan::line_start(c, line as nat) == crate::scan::line_start_from(
            c,
            off,
            (line - cur) as nat,
        ),
    ensures
        ({
            let r = skip_lines(c, off, cur, line);
            ||| (r.1 == line && crate::scan::line_start(c, line as nat) == Some(r.0))
            ||| (r.1 < line && crate::scan::line_start(c, line as nat) is None && r.1
                == crate::scan::newline_count(c))
        }),
    decreases c.len() - off,
{
    let k = (line - cur) as nat;
    if cur >= line {
    } else if off >= c.len() {
        assert(c.take(off) =~= c);
        assert(crate::scan::next_newline(c, off) is None);
    } else if c[off] == 10u8 {
        crate::scan::lemma_next_newline_found(c, off, off);
        crate::scan::lemma_count_newline(c, off);
        assert(((line - (cur + 1)) as nat) == (k - 1) as nat);
        lemma_skip_lines_line_start(c, off + 1, cur + 1, line);
    } else if c[off] == 13u8 && off + 1 < c.len() && c[off + 1] == 10u8 {
        crate::scan::lemma_next_newline_found(c, off, off + 1);
        crate::scan::lemma_count_plain(c, off, off + 1);
        crate::scan::lemma_count_newline(c, off + 1);
        assert(((line - (cur + 1)) as nat) == (k - 1) as nat);
        lemma_skip_lines_line_start(c, off + 2, cur + 1, line);
    } else {
        crate::scan::lemma_count_plain(c, off, off + 1);
        assert(crate::scan::next_newline(c, off) == crate::scan::next_newline(c, off + 1));
        lemma_skip_lines_line_start(c, off + 1, cur, line);
    }
}

/// The position of column 0 of a line is where that line starts (just past its `line`-th
/// newline); a line past the last one is refused with the number of newlines as the total.
pub proof fn lemma_line_positions_are_line_starts(c: Seq<u8>, line: u64)
    requires
        c.len() <= usize::MAX,
    ensures
        match line_col_spec(c, line, 0) {
            Ok(ls) => crate::scan::line_start(c, line as nat) == Some(ls),
            Err((l, t)) => l == line && crate::scan::line_start(c, line as nat) is None && t
                == crate::scan::newline_count(c),
        },
{
    assert(c.take(0) =~= Seq::<u8>::empty());
    lemma_skip_lines_line_start(c, 0, 0, line as int);
    lemma_skip_lines_start(c, 0, 0, line as int);
}

} // verus!
