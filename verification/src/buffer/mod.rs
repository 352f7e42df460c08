//! The editable text buffer and its line index.

pub mod line_index;
pub mod piece_table;
