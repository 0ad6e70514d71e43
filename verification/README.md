# bitterasm

BitterASM is a metalanguage for constructing assembly languages. This crate
holds its front end and tooling as a verified library:

- `lexer`, `token`, `ast`, `types`, `facets`: tokens, the syntax tree and
  the facets declarations carry; the lexer's result is stated exactly.
- `parser`: a parser for imports, labels, `const`, `type`, `enum` and
  `struct` declarations, invocations, expressions by binding power (prefix
  operators, member access, calls, `as`, binary operators), types with
  generic arguments, and the facets of a type alias or struct; its result
  is stated exactly. Macro declarations, generated struct fields, `@`
  directives and custom invocation syntax are not part of it and are
  refused.
- `formatter`: re-indentation, wrapping and blank-line normalization, and
  its `bitterasm.toml` configuration. Its output is stated exactly; that it
  keeps every token and comment is not proved.
- `diagnostics`: diagnostics, the source map, lint levels and their
  project configuration, and plain-text rendering.
- `emit`: the `.em` file's header, its required language features, and the
  checks a reader makes before decoding one.
- `link`: merging several compiled inputs (sections grouped in first-seen
  order, inputs in argument order), translating local label positions and
  resolving references to other inputs' `pub` labels.
- `formats`: wrapping raw machine code in ELF, PE or Mach-O containers,
  with every header field stated.
- `loader`: the decisions of walking an import graph (which file to read,
  which is already loaded, which import closes a cycle).
- `pack`: byte order, and the width a `bits<N>` value declares.
- `cli`: command-line values (byte offsets, line ranges).

`app/` is the command line around it: `format` rewrites `.basm` files in
place, and `exec` wraps a raw code file in a native executable.
