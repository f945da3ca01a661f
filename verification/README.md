# markdown_neuraxis

The engine of a local-first markdown outliner, written in Verus: each
function states what it does in its contract, and Verus proves it.

## Layout

- `src/editing/` – the text buffer of an open note (an `xi_rope` rope) and
  the commands that edit it (insert, delete, split a list item, indent and
  outdent lines, change a list marker); the block syntax tree that
  tree-sitter's markdown grammar gives for the text, the anchors that keep
  block identities across edits (moved through each edit's delta, made
  again where an edit reaches into them), the blocks a note is drawn as and
  their grouping into nested lists, what the renderer reads from a block's
  text, and hit-testing.
- `src/parsing/` – reading markdown into blocks: the CommonMark events of
  `pulldown_cmark`, the state machine that turns them into blocks, and a
  line-based reader for edited blocks.
- `src/models/` – the block model of a note and its markdown form, the
  editing state of an open note (selection, editing, bullet operations), the
  file tree of the sidebar, markdown file names.
- `src/domain/`, `src/services.rs`, `src/infrastructure.rs` – the outline
  view of notes and the services that load them through a file service.
- `src/io.rs`, `src/paths.rs` – what to make of a notes folder: which files
  are notes, in which order, and whether a folder is laid out as notes.
- `src/interaction.rs`, `src/session.rs` – what the views decide on keys,
  focus and edits, and what opening and saving a note produce.
- `app/main.rs` – a command-line front end: it reads the disk and prints.
- `tests/` – tests of the library on concrete values.

Laws that relate several functions stand as public proof functions named
`law_…`, next to the functions they speak of.
