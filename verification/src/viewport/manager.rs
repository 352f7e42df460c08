//! Per-document viewport state: the line index, the encoding and the file facts.

use vstd::prelude::*;
use vstd::string::StringExecFns;
use crate::buffer::line_index::{lines_spec, LineIndex};
use crate::file::encoding::{EncodingInfo, LineEnding};

verus! {

/// Result of a viewport request: the lines shown and the facts about the file.
///
/// The indexing progress as a ratio is left to the caller, who computes it from the
/// line index (`bytes_scanned` over `file_size`).
#[derive(Debug, Clone)]
pub struct ViewportData {
    /// The text lines in the viewport.
    pub lines: Vec<String>,
    /// The actual start line number (0-based).
    pub start_line: u64,
    /// Total number of lines in the file (may be approximate if indexing is in progress).
    pub total_lines: u64,
    /// Total file size in bytes.
    pub file_size: u64,
    /// File encoding name.
    pub encoding: String,
    /// Whether the file has a BOM.
    pub has_bom: bool,
    /// Line ending style.
    pub line_ending: String,
    /// Whether indexing is complete.
    pub index_complete: bool,
    /// File name (for display).
    pub file_name: String,
}

/// `r` is the viewport that `vm` shows of `text` from `start_line` on, `line_count` lines
/// at most: those lines of the text as the line index finds them, decoded lossily, and the
/// facts about the file.
pub open spec fn viewport_shows(
    vm: ViewportManager,
    text: Seq<u8>,
    start_line: u64,
    line_count: u32,
    r: ViewportData,
) -> bool {
    let spans = lines_spec(vm.index().anchors(), vm.index().lines(), text, start_line, line_count);
    &&& r.lines@.len() == spans.len()
    &&& forall|i: int|
        0 <= i < r.lines@.len() ==> (#[trigger] r.lines@[i])@ == crate::utf8::lossy_utf8(
            text.subrange(spans[i].0, spans[i].1),
        )
    &&& r.start_line == start_line
    &&& r.total_lines == vm.index().lines()
    &&& r.file_size == vm.size()
    &&& r.encoding@ == vm.info().encoding@
    &&& r.has_bom == vm.info().has_bom
    &&& r.line_ending@ == ending_label(vm.info().line_ending)
    &&& r.index_complete == vm.index().done()
    &&& r.file_name@ == vm.name()
}

/// The label shown for a line-ending style.
pub open spec fn ending_label(le: LineEnding) -> Seq<char> {
    match le {
        LineEnding::LF => "LF"@,
        LineEnding::CRLF => "CRLF"@,
        LineEnding::Mixed => "Mixed"@,
    }
}

/// Manages the viewport for a single open document.
///
/// The piece table lives in the document and the text bytes are passed to each method.
pub struct ViewportManager {
    /// The line index for this document.
    line_index: LineIndex,
    /// Encoding info.
    encoding_info: EncodingInfo,
    /// File size in bytes.
    file_size: u64,
    /// File name for display.
    file_name: String,
    /// BOM length in bytes.
    bom_len: usize,
}

impl ViewportManager {
    /// The line index.
    pub closed spec fn index(&self) -> LineIndex {
        self.line_index
    }

    /// The encoding info.
    pub closed spec fn info(&self) -> EncodingInfo {
        self.encoding_info
    }

    /// The file size.
    pub closed spec fn size(&self) -> u64 {
        self.file_size
    }

    /// The file name.
    pub closed spec fn name(&self) -> Seq<char> {
        self.file_name@
    }

    /// The BOM length.
    pub closed spec fn bom(&self) -> usize {
        self.bom_len
    }

    /// Create a new viewport manager from pre-built components.
    pub fn new(
        line_index: LineIndex,
        encoding_info: EncodingInfo,
        file_size: u64,
        file_name: String,
        bom_len: usize,
    ) -> (r: Self)
        ensures
            r.index() == line_index,
            r.info() == encoding_info,
            r.size() == file_size,
            r.name() == file_name@,
            r.bom() == bom_len,
    {
        Self { line_index, encoding_info, file_size, file_name, bom_len }
    }

    /// Get a viewport of `line_count` lines starting from `start_line`; `text_bytes` is the
    /// current UTF-8 content.
    pub fn get_viewport(&self, text_bytes: &[u8], start_line: u64, line_count: u32) -> (r:
        ViewportData)
        requires
            self.index().wf(),
        ensures
            viewport_shows(*self, text_bytes@, start_line, line_count, r),
    {
        let lines = self.line_index.get_lines(text_bytes, start_line, line_count);
        let line_ending_str = line_ending_label(self.encoding_info.line_ending);
        ViewportData {
            lines,
            start_line,
            total_lines: self.line_index.total_lines(),
            file_size: self.file_size,
            encoding: self.encoding_info.encoding.clone(),
            has_bom: self.encoding_info.has_bom,
            line_ending: String::from_str(line_ending_str),
            index_complete: self.line_index.is_complete(),
            file_name: self.file_name.clone(),
        }
    }

    /// Rebuild the line index from the given text bytes.
    /// Called after edits to keep the line index in sync.
    pub fn rebuild_line_index(&mut self, text_bytes: &[u8])
        ensures
            final(self).index().wf(),
            final(self).index().scanned() == text_bytes@,
            final(self).index().lines() == crate::buffer::line_index::line_total(text_bytes@, true),
            final(self).index().done(),
            final(self).index().size() == text_bytes@.len(),
            final(self).info() == old(self).info(),
            final(self).size() == old(self).size(),
            final(self).name() == old(self).name(),
            final(self).bom() == old(self).bom(),
    {
        self.line_index = LineIndex::new(text_bytes, text_bytes.len() as u64);
        self.line_index.build_full(text_bytes);
        proof {
            assert(text_bytes@.take(text_bytes@.len() as int) =~= text_bytes@);
        }
    }

    /// Get the total line count.
    pub fn total_lines(&self) -> (n: u64)
        ensures
            n == self.index().lines(),
    {
        self.line_index.total_lines()
    }

    /// Get the file size.
    pub fn file_size(&self) -> (n: u64)
        ensures
            n == self.size(),
    {
        self.file_size
    }

    /// Get the file name for display.
    pub fn file_name(&self) -> (s: String)
        ensures
            s@ == self.name(),
    {
        self.file_name.clone()
    }

    /// Get the BOM length.
    pub fn bom_len(&self) -> (n: usize)
        ensures
            n == self.bom(),
    {
        self.bom_len
    }

    /// Get the encoding info.
    pub fn encoding_info(&self) -> (r: &EncodingInfo)
        ensures
            *r == self.info(),
    {
        &self.encoding_info
    }

    /// Get the line index.
    pub fn line_index(&self) -> (r: &LineIndex)
        ensures
            *r == self.index(),
    {
        &self.line_index
    }
}

/// The label shown for a line-ending style.
pub fn line_ending_label(le: LineEnding) -> (s: &'static str)
    ensures
        s@ == ending_label(le),
{
    match le {
        LineEnding::LF => "LF",
        LineEnding::CRLF => "CRLF",
        LineEnding::Mixed => "Mixed",
    }
}

/// Length of the byte-order mark that `bytes` starts with (0 for none).
pub fn detect_bom_len(bytes: &[u8]) -> (n: usize)
    ensures
        n == crate::file::encoding::bom_len_of(bytes@),
{
    if bytes.len() >= 3 && bytes[0] == 0xEF && bytes[1] == 0xBB && bytes[2] == 0xBF {
        return 3;
    }
    if bytes.len() >= 4 && bytes[0] == 0x00 && bytes[1] == 0x00 && bytes[2] == 0xFE && bytes[3]
        == 0xFF {
        return 4;
    }
    if bytes.len() >= 4 && bytes[0] == 0xFF && bytes[1] == 0xFE && bytes[2] == 0x00 && bytes[3]
        == 0x00 {
        return 4;
    }
    if bytes.len() >= 2 && bytes[0] == 0xFE && bytes[1] == 0xFF {
        return 2;
    }
    if bytes.len() >= 2 && bytes[0] == 0xFF && bytes[1] == 0xFE {
        return 2;
    }
    0
}

} // verus!
