//! File commands: what opening a file reports about it.

use vstd::prelude::*;
use crate::document::Document;
use crate::viewport::manager::ending_label;

verus! {

/// What opening a file reports.
#[derive(Debug, Clone)]
pub struct OpenFileResult {
    /// The new tab.
    pub tab_id: String,
    /// The file name shown.
    pub file_name: String,
    /// The file's path.
    pub path: String,
    /// File size in bytes.
    pub file_size: u64,
    /// Number of lines.
    pub total_lines: u64,
    /// The encoding name.
    pub encoding: String,
    /// Whether the file has a BOM.
    pub has_bom: bool,
    /// The line ending style.
    pub line_ending: String,
}

/// The report on a freshly opened document, from its first viewport line and the facts
/// about the file.
pub fn open_file_result(tab_id: String, path: String, doc: &Document) -> (r: OpenFileResult)
    requires
        doc.wf(),
    ensures
        r.tab_id@ == tab_id@,
        r.path@ == path@,
        r.file_name@ == doc.viewport.name(),
        r.file_size == doc.viewport.size(),
        r.total_lines == doc.viewport.index().lines(),
        r.encoding@ == doc.viewport.info().encoding@,
        r.has_bom == doc.viewport.info().has_bom,
        r.line_ending@ == ending_label(doc.viewport.info().line_ending),
{
    // Get initial viewport to return encoding info
    let vp = crate::commands::viewport_cmds::get_viewport(doc, 0, 1);
    OpenFileResult {
        tab_id,
        file_name: vp.file_name,
        path,
        file_size: vp.file_size,
        total_lines: vp.total_lines,
        encoding: vp.encoding,
        has_bom: vp.has_bom,
        line_ending: vp.line_ending,
    }
}

} // verus!
