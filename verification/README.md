# cargo_arc

Architecture analysis for Cargo workspaces: the module dependency graph of a
workspace, its cycles and clusters, the imports behind each edge, and a
hotspot map of sizes and commits. The library in `src/` is verified with
Verus; `app/` is the command-line program around it.

## Layout

- `src/graph.rs`, `src/graph/` — the dependency graph and the node and edge
  model it is built from; `src/graph/limits.rs` bounds its size by the
  inputs so that a build past petgraph's `u32` indices is refused, and
  `src/graph/nesting.rs` shows that the module trees it lays down nest.
- `src/digraph.rs` — the directed graph the cycle analyses run on, with the
  component search and edge queries of `petgraph` behind trusted wrappers.
- `src/layout/` — shortest cycles per edge, cycle clusters and their cut
  sets, jump ordering.
- `src/diagnose/` — representative cycles, importers, ordering.
- `src/analyze/` — `use` parsing, re-export and import resolution, external
  dependencies, file-level dependencies.
- `src/hotspots.rs` — the hotspot tree (workspace, crates, modules, files),
  its ranking, and code-line counting through `tokei`.
- `src/model.rs`, `src/cli.rs` — the analysis model and the command-line
  decisions that need no I/O (run modes, exit codes, feature settings).
- `src/collections.rs`, `src/paths.rs`, `src/text.rs`, `src/sorting.rs` —
  string sets and maps, path and text helpers with their specifications.
- `src/analyze/syntax.rs` — the items and `mod` declarations of a source
  text, read through `syn` behind trusted wrappers.
- `app/main.rs` — argument handling, reading `cargo metadata` and source
  files, the `syn` visitor that collects `use` items and paths, and
  printing.
- `tests/` — tests of the library.

## Verification

The library verifies with `verus` on `src/lib.rs`; the tests in `tests/`
run against the compiled library with the outside crates linked.

## Collections

String-keyed maps and sets (`StrMap`, `StrSet` in `src/collections.rs`) and
the index from arcs to cycles (`EdgeCycles` in `src/layout/cycles.rs`) are
vectors of entries with their invariants stated, not `HashMap` or `HashSet`.
With `String` or tuple keys, Verus accepts calls on std's hash collections
but proves nothing about what they hold, so no contract over their contents
could be established; the vectors keep insertion order, which the
contracts then state.
