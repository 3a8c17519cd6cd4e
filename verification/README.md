# reqtrace

Requirement traceability for source trees: items tagged `@ID@` in comments
and Markdown are collected into a graph of requirements, architecture items
and tests, which is validated and written to a key-sorted JSON database (the graph
keeps its items sorted by identifier; the JSON file is written by the
program in `app/`).

The library in `src/` is verified with Verus; `app/` is the command-line
program around it.

## Layout

- `src/scanner.rs` — finding tagged items in a file's text; which paths the
  ignore patterns (compiled with `globset`) exclude.
- `src/graph.rs` — the graph (items sorted by identifier), its construction
  from scanned items and its validation (broken links, orphans, duplicate
  identifiers, requirements without a test, derivation cycles).
- `src/id_gen.rs`, `src/feistel.rs`, `src/quint.rs` — new identifiers: a
  seeded Feistel permutation of 16-bit indices written as proquints.
- `src/languages/` — the Python scope scanner and the naming of Rust scopes
  during a syntax-tree walk.
- `src/project.rs`, `src/config.rs`, `src/export.rs`, `src/cli.rs`,
  `src/server.rs` — project name, configuration, the exported page, the
  command set and the server state.
- `src/text.rs`, `src/order.rs`, `src/matching.rs` — character-sequence
  operations, the identifier order, and regular expressions (`regex`).
- `app/` — argument parsing, file and directory I/O, the database file, the
  `syn` walk over Rust sources, and the HTTP server.
