# checkbe

A compiler front end for the Checkbe language, verified with Verus, and the
command-line driver around it.

## Layout

- `src/` — the verified library.
  - `lexer`, `token`, `span`: the token stream, specified character by character.
  - `string_interp`: splitting string literals into text and `\(expr)` parts.
  - `grammar`: the grammar of expressions, statements and declarations, as
    relations between token ranges and syntax trees.
  - `parser`, `ast`: the recursive-descent parser and the syntax tree; a
    program parsed without errors is a reading of its tokens in the grammar,
    and tokens that have a reading are parsed without errors into it.
  - `readings`: how readings are built up, and syntax trees compared by what
    they say; the facts behind the parser's completeness.
  - `sema`: type checking, capability and right checking. In an accepted
    program every expression has a type and every read and write outside
    interpolated strings is allowed; a program without global variables and
    interpolated strings that is typed in this sense is accepted.
  - `module_system`: module descriptors, overload resolution, import loading.
  - `multi_source`: merging several sources into one program.
  - `runtime`, `install`: where the runtime and the garbage collector are
    looked for, build plans and the `clang`/`ar` command lines.
  - `cli`: command-line parsing and diagnostic reports.
  - `driver`: checking a source path, and lexing and parsing one source file.
  - `diagnostics`, `names`, `sorting`, `text`: shared building blocks.
- `tests/` — scenario tests of the library.
- `app/` — the `checkbe` program: file and process I/O, reading `module.toml`
  with `toml`, and LLVM code generation with `inkwell`.
