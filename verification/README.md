# bytecode_filter

A filter engine for delimiter-separated records, verified with Verus.
Filters are written in a small expression language (`LEVEL == "error" AND
CODE in {"500", "503"}`), compiled to bytecode, and evaluated by a stack
machine against records held in `bytes::Bytes`.

## Layout

- `src/lexer.rs`, `src/parser.rs`: tokens and the grammar, each with a spec
  function (`tokenize_from`, `parse_spec`) that the executable code is proved
  to compute exactly.
- `src/compiler.rs`: code generation (`gen`, `compiled_program`) and the proof
  that a compiled filter means what its expression means
  (`lemma_compiled_program_evaluates`), with the short-circuit laws.
- `src/vm.rs`: the stack machine (`step`, `run`, `execute`) and
  `CompiledFilter::evaluate`; random sampling draws on a counter, and
  `evaluate_with_counter` is exact for a given counter.
- `src/split.rs`: splitting records into fields (eager and lazy) and header
  lookup.
- `src/loader.rs`: filter text with comments and `@delimiter` / `@field`
  directives.
- `src/opcode.rs`, `src/ascii.rs`: the instruction set and ASCII helpers.
- `src/buffer.rs`, `src/search.rs`, `src/pattern.rs`: the trusted boundary to
  `bytes`, `memchr` and `regex`; each wrapper's contract is stated in its doc
  comment.
- `app/lib.rs`: reading filter files from disk, and error types with
  `Display` (through `thiserror`).
