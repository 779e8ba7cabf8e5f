# termfix

The verified core of a terminal wrapper that records a shell session and
sends the recorded commands to a diagnosis service.

- `src/` is the library, checked by Verus: the session record
  (`context`), the byte filters and the built-in command handling
  (`helpers`), the OSC 133 command segmentation (`parser`), the `fix`
  command's selection and request pieces (`fix`), Unicode text helpers
  (`text`), the OSC escape grammar (`escape`) and the subcommands (`cli`).
- `app/` is the program around it: the PTY bridge, raw mode, rendering
  through the ghostty terminal emulator, command-line parsing with clap,
  JSON and TOML, and the HTTP client.
- `tests/` exercises the library on concrete inputs.
