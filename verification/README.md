# Sapling

A highly experimental structural editor: you edit code, not text.  The editor keeps an
undoable history of immutable syntax trees, moves a cursor over them, and edits them with
Vim-like keystroke commands.

The library under `src/` is written in Verus: every function states its behaviour in
`requires`/`ensures` clauses, and Verus proves the code against them.

## Layout

- `src/base/` — directions and sides, on-screen text sizes (`Size`), paths into trees, and the
  keystrokes with their compact display.
- `src/arena.rs` — the arena that owns tree nodes.
- `src/ast/` — the JSON syntax tree, its display tokens (and their writing with an indentation
  string, `write_tokens_with_indent`), its compact and pretty renderings, its size on screen
  and its tree view; `TestJson` builds trees from plain values.
- `src/ast_spec/` — JSON trees stored in a vector-backed node map, with their renderings: any
  map without cycles renders, its children stored before or after their parents, with a marker
  for each reference to no node.
- `src/editable_tree/` — the undoable history of trees (`DAG`), cursor paths and persistent
  node references.  Undo, redo, cursor moves and edits are proved against a model of the
  history (`DagView`), with laws relating them.
- `src/cursors.rs` — trees of cursors.
- `src/editor/` — the normal-mode command language (key maps, counts, commands), the keystroke
  log, the editor's state machine (`state::State::transition`), and where the display tokens
  of a tree go on the screen (`layout::layout_tokens`).
- `src/char_set.rs` — sets of chars as an ASCII bit-mask plus sorted ranges, with insertion,
  removal, range insertion and uniform sampling.
- `src/grammar.rs`, `src/syntax/` — language grammars (types of nodes, patterns, stringy
  types with their regexes and escape rules, static tokens, whitespace), and the syntax trees
  (with their text) that a grammar's parser builds.
- `src/grammar_spec/` — grammars as written in a grammar file, and their compilation into a
  `Grammar`: type names are resolved, the descendants of each type are walked depth first
  (with cycle detection), patterns are compiled with token ids assigned in order, validity
  regexes are compiled and the whitespace char class is parsed.
- `src/tokenizer/` — reading the tokens of a string according to a grammar: `StrIter`, a
  byte-indexed iterator over a string, the reading of stringy tokens (up to the end of the first
  match of the start-anchored regex compiled from the type's pattern, between
  delimiters, or with escape sequences), and the choice of the next token (static tokens win
  over stringy tokens that are no longer).
- `src/parser.rs` — building a syntax tree of a grammar's root type from the tokens of a
  string: patterns, sequences and the first parseable descendant of a type, each step bounded
  by a fuel so that every parse ends.  `read_tokens` reads all the tokens of a string, and is
  proved to lose no text.  The tree built is stated node for node (`bound_node`),
  a string parses only where one node takes all its tokens, and a run of the tokenizer is
  proved to lose no text (`law_run_covers_the_text`).
- `app/main.rs` — the terminal front-end: reads the JSON file, reads keys, draws the tree and
  writes the file back.
- `app/lang.rs` — loading a language's grammar from a TOML file.
- `tests/` — the tests of the library.
