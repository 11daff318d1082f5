# peg_pack

A compiler for parsing expression grammars. A grammar script describes a
grammar as a graph of instructions; the compiler checks the graph, rewrites
it into a smaller, faster equivalent and emits the Rust source of a parser
for it. The library is written in Verus: each public function carries a
contract that the verifier proves.

## Layout

- `src/store.rs`, `src/ordered_set.rs`, `src/text.rs`: small containers and
  number formatting.
- `src/output.rs`: a builder of Rust source text.
- `src/compiler/`: the instruction graph (`Parser`), loading a grammar's
  representation (`load`), validation, the passes under `transform/`
  (expected-set inference, trimming, sorting, normalization,
  deduplication, cache insertion and numbering, debug names), code
  generation (`generation`) and Graphviz output (`graphvis`).
- `src/runtime/`: the parse results that generated parsers build, the
  decisions of their parsing machine, and their result cache.
- `src/tools.rs`: the versions of NodeJS and Rust that building a parser
  needs, and how their reports are judged.
- `tests/`: tests of the library.
- `app/`: the command line program. It reads the grammar's representation
  as JSON, runs the external tools, and writes the parser's files; the
  sources under `app/runtime/` and `app/harness.rs` are written beside each
  generated parser, which is compiled with them.
