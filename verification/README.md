# tp_ind

A small `egrep`: a regular-expression engine with backtracking, and a
command-line program that prints the lines of a file that match a pattern.

- `src/` is the library, verified with Verus.
  - `regex.rs`: `Regex` (building an expression from a pattern, and testing a
    line against it) and `backtrack`.
  - `regex_val.rs`, `regex_rep.rs`, `regex_step.rs`, `evaluated_step.rs`: the
    parts of an expression and of a run.
  - `pattern.rs`: the syntax of patterns, as specification.
  - `machine.rs`: the matching machine, as specification, with its
    termination measure.
  - `laws.rs`: properties proved of all patterns and lines.
  - `text.rs`: character-level helpers.
- `app/` is the program: argument handling, reading the file, printing.
- `tests/` runs the library.
