# comma

A small terminal with a tab sidebar, and the shell that runs in it.

`src/` is a library in [Verus](https://github.com/verus-lang/verus): every
function in it carries a contract that the verifier proves. It holds what the
terminal and the shell decide and compute.

- The shell's language: `lexer`, `parser`, `brace`, `arith`, `pattern`,
  `expand`; what holds of whole lines is proved in `joining` and `tally`.
- Running a line: `shell`, `script`, `substitution`, `pipeline`,
  `job_control`, `builtins`, `env`.
- Line editing: `completion`, `highlight`, `prompt`.
- The terminal: `input`, `color`, `row`, `frame`, `tabs`, `view`, `config`.
- Shared helpers: `text`, `number`, `order`.

Work that touches processes, files, the screen or a window is not in the
library. Where the shell has to do such work between two decisions, a library
function says what to do next and is told how it went; `script`, `pipeline` and
`job_control` are written that way. Looking for the paths that match a pattern
is handed to `expand` as a function.

Public functions named `law_…` state what holds across several functions, for
all inputs.

The library calls a few functions of other crates (`glob`, `libc`) and of the
standard library through items marked `external_body` or
`assume_specification`. The comment above each says what is claimed of the
outside function without proof.

`app/` is the program: the window (`app/terminal`) and the interactive shell
(`app/shell`), around the library. `tests/` exercises the library from outside.
