# neon-lsp

The language server for Neon, with its decisions verified.

The library under `src/` is written in Verus. It holds what the server decides: how byte offsets
and editor positions relate, which diagnostics are shown where, what a request is answered with,
when a pending check runs, what the answers of the installed compiler mean. Each function states
what it returns, and the functions named `law_...` state what holds across several of them.

`app/` is the program around it: the transport, the wire format, the file system, and the calls
into the compiler.

## Layout

- `utf`, `text`, `sort`: text as characters, bytes and UTF-16 code units; putting things in order
- `position`, `ranges`: offsets and spans as an editor's positions and ranges
- `syntax`: what the server reads of a checked file
- `project`, `analysis`: the project around a document, and what a run of the front end shows
- `docs`, `signatures`, `navigation`, `jump`, `completion`, `hints`, `tokens`, `outline`,
  `folding`, `selection`: one kind of question each
- `documents`, `methods`, `server`, `publish`, `reply`: the session
- `ansi`, `toolchain`: asking the installed compiler for its stdlib

A function that reads spans of a check against a text requires that they are spans of that text:
a document may have changed since it was checked, and a span may now begin inside a character.
Beside each there is one that tells whether it does.
