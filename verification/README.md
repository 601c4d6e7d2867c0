# qc

`qc` is a small interactive command runner: named shortcuts with
`{placeholder}` templates, a persistent history with pins and usage counts,
inline hints and highlighting, safety checks for dangerous commands, and
export, import and undo of its state files.

## Layout

- `src/` is the library, verified with Verus. Every file format that qc
  reads or writes (`config.txt`, `shortcuts.txt`, `history.txt`,
  `history_usage.txt`, `placeholder_values.txt`, exports and backups) is a
  pair of functions from text to values and back, each with a contract over
  a mathematical model of the file; the built-in command parser, the hint and
  highlight matching, and the decisions of a command run are verified too.
  - `text.rs`, `number.rs`: strings as sequences of characters; decimal
    integers as `str::parse` reads them and `Display` writes them.
  - `config.rs`, `history.rs`, `shortcuts.rs`: the settings, the history and
    its edits, shortcuts, templates and remembered placeholder values.
  - `commands.rs`: built-in commands, usage counters, listings, search, pins.
  - `runner.rs`: the safety policy and the step function of a command run.
  - `state.rs`: export/import and backup/restore.
  - `hinter.rs`: inline hints and highlighting, measured in UTF-8 bytes.
- The proof functions named `lemma_*_round_trip` state that reading a file
  back gives what was written; `lemma_run_step_safety` and
  `lemma_dangerous_needs_consent` state when a command may run.
- `app/` is the program: the line editor, the terminal, the files and the
  shell. It hands text to the library and writes back what the library
  renders.
- `tests/` runs the library on concrete values.
