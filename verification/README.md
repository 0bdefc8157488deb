# tokr

A compiler from SCSS/CSS variable declarations annotated with
`/* @theme path */` comments to a typed theme object in TypeScript or
JavaScript, written in Verus.

- `src/` is the library, verified: the lexer, the parser of declarations and
  of `@theme` paths, the semantic checks, the lowering of the symbol table to
  a theme tree, the passes over that tree, code generation, the lint rules,
  the choice of source files by glob patterns and of output paths, and the
  compilation of one source. `shapes.rs`, `holes.rs` and `ordering.rs` hold
  the proofs that tie the analysis to the tree: a table without shape
  conflicts lowers without fault, each entry's value is read back at its
  path, strict mode never meets a hole, and object keys come out sorted.
- `app/` is the command line program: configuration files, walking the
  project, running the compiler in parallel, formatting with oxfmt, writing
  the outputs, printing diagnostics and watching for changes.
- `tests/` runs the library on concrete inputs.
