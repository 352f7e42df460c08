# notepada

The text-handling core of a desktop editor for very large files, verified with Verus.

- `src/buffer/piece_table.rs`: a piece table with undo and redo. The pieces sit in a
  `BTreeMap` keyed by logical offset; the text is their concatenation in key order.
  Every edit is stated over that text, and the laws at the end of the file say that undo
  gives back the text from before an edit, and that redo after undo (and undo after
  redo) gives back the text and stacks from before.
- `src/buffer/line_index.rs`: a sparse line index (one recorded line start per 1024
  lines) and the viewport lines it finds; the laws at the end of the file state its
  entries, what `line_offset` finds at and past the line count, and how many lines
  `get_lines` gives.
- `src/search/`: plain search (ASCII case folding, whole words) and regex search.
- `src/file/`: encoding detection and conversion to UTF-8, line-ending detection.
- `src/document.rs`, `src/viewport/`, `src/commands/`: an open document and the
  decisions of the editor's commands (where an edit goes, what it answers, which match
  comes next, replacing every match).
- `app/`: the Tauri shell: memory-mapped files, the shared state of open tabs, the
  commands the front end invokes, and the indexing progress ratio.
