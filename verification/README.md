# wecom

The logic of a command line client whose commands are discovered from a server,
written and proved in Verus.

- `src/` is the verified library: text and JSON values, schemas and the
  `x-wecom-*` directives in them, paths and the file sandbox, errors, the client
  and its builder, and a run of the command line as a state machine.
- `app/` is the ordinary Rust around it: files, the command line parser, forms
  and streams, and the loop that carries out what a run asks for. The server
  itself stands behind the trait `Backend`.
- `tests/` runs the library.

Calls into other crates stand behind small functions whose contracts are
believed rather than proved. Each names the function it calls and says what is
claimed of it.
