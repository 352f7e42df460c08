//! The decisions of the editor's commands: where an edit goes, what it answers, which
//! search result comes next, and what a viewport or an opened file reports.

pub mod edit_cmds;
pub mod file_cmds;
pub mod search_cmds;
pub mod viewport_cmds;
