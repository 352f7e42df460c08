//! An open document: its piece table, its viewport state and whether it has unsaved
//! edits.

use vstd::prelude::*;
use vstd::slice::slice_to_vec;
use crate::buffer::line_index::LineIndex;
use crate::buffer::piece_table::PieceTable;
use crate::file::encoding::{convert_to_utf8, try_detect};
use crate::viewport::manager::{detect_bom_len, ViewportManager};

verus! {

/// How many leading bytes encoding detection examines.
pub const DETECT_SCAN_BYTES: usize = 64 * 1024;

/// The UTF-8 bytes of a file's content: its bytes converted from the detected encoding.
pub open spec fn document_text(raw: Seq<u8>) -> Seq<u8> {
    vstd::utf8::encode_utf8(
        crate::file::encoding::converted_text(
            raw,
            crate::file::encoding::detected_name(raw, DETECT_SCAN_BYTES as int),
            crate::file::encoding::bom_len_of(raw) as int,
        ),
    )
}

/// Represents an open document (tab).
pub struct Document {
    /// Unique tab ID.
    pub id: String,
    /// Piece Table for editing support.
    pub piece_table: PieceTable,
    /// The viewport manager for this document.
    pub viewport: ViewportManager,
    /// Whether the document has unsaved edits.
    pub dirty: bool,
}

/// What the tab bar shows of an open document.
#[derive(Debug, Clone)]
pub struct TabInfo {
    /// The tab's id.
    pub id: String,
    /// The file name shown.
    pub file_name: String,
    /// The file's path.
    pub path: String,
    /// Whether the document has unsaved edits.
    pub dirty: bool,
}

/// `new` keeps the id and the file facts of `old`, and its line index is one fully built
/// over the text of its piece table.
pub open spec fn reindexed(old: Document, new: Document) -> bool {
    &&& new.wf()
    &&& new.id == old.id
    &&& new.viewport.index().scanned() == new.piece_table.text()
    &&& new.viewport.index().lines() == crate::buffer::line_index::line_total(
        new.piece_table.text(),
        true,
    )
    &&& new.viewport.index().done()
    &&& new.viewport.info() == old.viewport.info()
    &&& new.viewport.size() == old.viewport.size()
    &&& new.viewport.name() == old.viewport.name()
    &&& new.viewport.bom() == old.viewport.bom()
}

impl Document {
    /// The piece table is well-formed and the line index is one the index built.
    pub open spec fn wf(&self) -> bool {
        &&& self.piece_table.wf()
        &&& self.viewport.index().wf()
    }

    /// The document built from a file's bytes `raw`: detect the encoding, convert to UTF-8,
    /// index the lines and start an unedited piece table. `None` where detection cannot
    /// examine the converted text (its first 64KB end inside a character).
    pub fn from_file_bytes(id: String, raw: &[u8], file_size: u64, file_name: String) -> (r: Option<
        Document,
    >)
        requires
            raw@.len() <= usize::MAX / 8,
        ensures
            r is Some <==> crate::file::encoding::ending_scan_ok(
                crate::file::encoding::detected_text(raw@, DETECT_SCAN_BYTES as int),
            ),
            r matches Some(doc) ==> {
                &&& doc.wf()
                &&& doc.id@ == id@
                &&& !doc.dirty
                &&& doc.piece_table.text() == document_text(raw@)
                &&& doc.piece_table.original_bytes() == document_text(raw@)
                &&& doc.piece_table.undo_actions().len() == 0
                &&& doc.piece_table.redo_actions().len() == 0
                &&& doc.viewport.index().scanned() == document_text(raw@)
                &&& doc.viewport.index().lines() == crate::buffer::line_index::line_total(
                    document_text(raw@),
                    true,
                )
                &&& doc.viewport.index().done()
                &&& doc.viewport.info().encoding@ == crate::file::encoding::detected_name(
                    raw@,
                    DETECT_SCAN_BYTES as int,
                )
                &&& doc.viewport.info().has_bom == (crate::file::encoding::bom_len_of(raw@) > 0)
                &&& doc.viewport.info().line_ending == crate::file::encoding::detected_ending(
                    raw@,
                    DETECT_SCAN_BYTES as int,
                )
                &&& doc.viewport.size() == file_size
                &&& doc.viewport.name() == file_name@
                &&& doc.viewport.bom() == crate::file::encoding::bom_len_of(raw@)
            },
    {
        // Detect encoding
        let encoding_info = match try_detect(raw, DETECT_SCAN_BYTES) {
            Some(info) => info,
            None => return None,
        };
        let bom_len = detect_bom_len(raw);
        proof {
            crate::file::encoding::lemma_bom_of_prefix(raw@, DETECT_SCAN_BYTES as int);
        }
        // Convert to UTF-8
        let utf8_text = convert_to_utf8(raw, encoding_info.encoding.as_str(), bom_len);
        let content = slice_to_vec(utf8_text.as_str().as_bytes());
        // Build line index: initial scan first, then the rest of the file
        let mut line_index = LineIndex::new(content.as_slice(), content.len() as u64);
        if !line_index.is_complete() {
            line_index.build_full(content.as_slice());
        }
        proof {
            assert(content@.take(content@.len() as int) =~= content@);
        }
        // Create piece table with the UTF-8 content
        let piece_table = PieceTable::new(content);
        // Create viewport manager
        let viewport = ViewportManager::new(line_index, encoding_info, file_size, file_name, bom_len);
        Some(Document { id, piece_table, viewport, dirty: false })
    }

    /// Get the current UTF-8 content from the piece table.
    pub fn content_bytes(&self) -> (r: Vec<u8>)
        requires
            self.piece_table.wf(),
        ensures
            r@ == self.piece_table.text(),
    {
        self.piece_table.to_bytes()
    }

    /// Get the current content as a string.
    pub fn content_string(&self) -> (s: String)
        requires
            self.piece_table.wf(),
        ensures
            s@ == crate::utf8::lossy_utf8(self.piece_table.text()),
            vstd::utf8::valid_utf8(self.piece_table.text()) ==> s@ == vstd::utf8::decode_utf8(
                self.piece_table.text(),
            ),
    {
        self.piece_table.to_string_lossy()
    }

    /// The tab bar's entry for this document, whose file is at `path`.
    pub fn tab_info(&self, path: String) -> (r: TabInfo)
        ensures
            r.id@ == self.id@,
            r.file_name@ == self.viewport.name(),
            r.path@ == path@,
            r.dirty == self.dirty,
    {
        TabInfo { id: self.id.clone(), file_name: self.viewport.file_name(), path, dirty: self.dirty }
    }

    /// After an edit, rebuild the line index to reflect the new content.
    pub fn rebuild_after_edit(&mut self)
        requires
            old(self).piece_table.wf(),
        ensures
            final(self).dirty,
            final(self).piece_table == old(self).piece_table,
            reindexed(*old(self), *final(self)),
    {
        let bytes = self.piece_table.to_bytes();
        self.viewport.rebuild_line_index(bytes.as_slice());
        self.dirty = true;
    }
}

} // verus!
