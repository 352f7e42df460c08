//! Plain and regular-expression search over the document bytes.

pub mod regex_search;
pub mod text_search;
pub mod types;

pub use types::{SearchMatch, SearchOptions};
