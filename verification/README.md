# telepy_parser

Type hierarchies and call hierarchies of Python workspaces, without a language server. The library
reads Python sources, indexes their modules, and answers which classes a class inherits from, which
inherit from it, who a function calls and who calls it. Every function of the library is proved
with [Verus](https://github.com/verus-lang/verus) to do what its contract says.

## Layout

- `src/` is the library. `grammar` says what a sequence of tokens means, and `statements` and
  `parser` read it; `index`, `resolve`, `callables` and `relations` say what names stand for and how
  classes and functions are related, and `callgraph` what holds of all calls together; `queries` and `serve` answer questions. Public proof functions
  whose names begin with `law_` state what holds of the library as a whole. What is trusted without
  proof stands next to its use: the lexer of `rustpython_parser` in `tokens`, the hash tables of
  `rustc_hash` in `names`, `memchr` in `lines`, `serde_json` in `serve`, `String::push` in `text`
  and `String::from_utf8_lossy` in `grammar`.
- `tests/` runs the library on whole workspaces and on its parts.
- `app/` is the command line: it walks directories, reads files, fetches the typeshed stubs, and
  serves requests line by line.

The library reads no files. A query that depends on a module which has not been looked for says
which one; `app/loading.rs` finds it, hands it to the index and asks again.
