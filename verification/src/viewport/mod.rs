//! What the editor shows: the lines of a window of the document.

pub mod manager;
