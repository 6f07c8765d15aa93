# monkey-c-lsp

Go-to-definition for Monkey C sources, verified with Verus.

- `src/` is the library: the workspace of known sources, the scan that finds them, the scope tree of a
  source, the resolution of the name under a caret, and the conversion between `file:` URIs and paths.
  Every function states in its contract what it returns, over mathematical models (`Seq`, `Map`, views
  of the types). The laws that relate functions are public proof functions.
- `tests/` runs the library on concrete sources.
- `app/` is what surrounds the library in a language server: reading the disk, calling the lexer and
  the parser, and the protocol's own types.

What is trusted rather than proved stands in `src/text.rs`: `String::from_utf8_lossy`,
`std::str::from_utf8` and `String::push`.
