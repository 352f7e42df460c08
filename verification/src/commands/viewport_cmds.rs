//! Viewport commands: the lines to show from a given line on.

use vstd::prelude::*;
use crate::document::Document;
use crate::viewport::manager::{viewport_shows, ViewportData};

verus! {

/// A request for the lines of a tab's viewport.
#[derive(Debug, Clone)]
pub struct ViewportRequest {
    /// The tab.
    pub tab_id: String,
    /// The first line wanted (0-based).
    pub start_line: u64,
    /// How many lines are wanted.
    pub line_count: u32,
}

/// How many lines `goto_line` shows.
pub const GOTO_LINE_COUNT: u32 = 50;

/// The viewport of the document from `start_line` on, `line_count` lines at most.
pub fn get_viewport(doc: &Document, start_line: u64, line_count: u32) -> (r: ViewportData)
    requires
        doc.wf(),
    ensures
        viewport_shows(doc.viewport, doc.piece_table.text(), start_line, line_count, r),
{
    let bytes = doc.content_bytes();
    doc.viewport.get_viewport(bytes.as_slice(), start_line, line_count)
}

/// The viewport of the document from `line` on, 50 lines at most.
pub fn goto_line(doc: &Document, line: u64) -> (r: ViewportData)
    requires
        doc.wf(),
    ensures
        viewport_shows(doc.viewport, doc.piece_table.text(), line, GOTO_LINE_COUNT, r),
{
    get_viewport(doc, line, GOTO_LINE_COUNT)
}

} // verus!
