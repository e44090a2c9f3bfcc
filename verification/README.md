# tsrust

A small TypeScript-flavoured surface language (`.tsrust`) that is transpiled
to Rust, with its tooling: a build-script helper that checks imports against
exports and writes module glue and a line map, a driver (`tsrustc`) that builds
a whole source tree, and a post-processor that points `rustc` diagnostics back
into the `.tsrust` sources.

The library in `src/` is written in Verus and verified: every public function
carries a contract over a mathematical model of its inputs and outputs.

- `lexer`, `parser`, `parser_items`, `ast`: tokens and module items; positions
  are byte offsets into the source.
- `lowering`, `transpile`: items to Rust text, and the check that non-unit
  functions end in a terminal expression.
- `rewrite`, `body`, `pattern`: function-body rewrites (`switch` to `match`,
  `return (e)`, `??`, `?.`, arrows, paren tails); the regular-expression ones
  take their matches from the `regex` crate and splice the text here.
- `paths`, `exports`, `project`, `modtree`: import specifiers, the export
  index and import validation, the module tree and its glue.
- `filepaths`: what `std::path::Path` does to the paths every platform reads
  alike, and the calls into it.
- `linemap`, `diagnostics`, `sourcemap`: function line maps and the rewriting
  of compiler diagnostics.
- `laws`: properties that relate several functions, stated and proved.

`app/` holds the unverified edges: file and process I/O, argument parsing,
JSON (de)serialisation and the programs' `main` functions. `tests/` runs the
library on concrete inputs.
