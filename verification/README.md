# ved

ved, the verbose ed: a line editor compatible with ed, with friendly messages,
long-form command words and built-in help. The editor's logic is a library
verified with Verus; a thin program around it reads commands, prints, and does
the file I/O that the library asks for.

## Layout

- `src/buffer.rs`: the line buffer and its model.
- `src/address.rs`: address parsing and resolution (`5`, `.`, `$`, `+3`, `,`, `;`).
- `src/bre.rs`: the POSIX basic regular expression compiler, matcher and
  replacement expander.
- `src/subst.rs`, `src/edit.rs`, `src/files.rs`: the commands (substitute;
  print, delete, join, move, copy, list, help; `e`, `r`, `w`).
- `src/command.rs`: command dispatch and the global commands `g` and `v`.
- `src/repl.rs`: the read-eval-print loop as a state machine.
- `src/args.rs`, `src/enc.rs`, `src/text.rs`, `src/action.rs`, `src/ascii.rs`:
  command-line arguments, encoding sniffing, text helpers, and the requests the
  library hands to its caller.
- `src/laws.rs`: properties that span several functions, proved.
- `app/main.rs`: the program: terminal loop, files, and the encoding warning.
- `tests/`: tests of the library.
