//! Text-buffer core of a large-file editor: an undoable piece table, a sparse
//! line index, plain and regex search, encoding detection and the edit
//! commands built on them.

pub mod buffer;
pub mod commands;
pub mod document;
pub mod file;
pub mod scan;
pub mod search;
pub mod utf8;
pub mod viewport;
