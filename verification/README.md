# emlop

Reads Gentoo's `emerge.log` and related portage state to show merge history, statistics and
predictions of how long pending merges will take.

- `src/` is the library, verified with Verus: log line readers for both log formats, the package
  and timestamp filters, the per-command state machines (`log`, `stats`, `predict`, `accuracy`),
  date and duration handling, table layout, configuration and process-tree logic.
- `app/` is the command-line program around it: argument parsing, reading files and `/proc`,
  printing.
- `tests/` runs the library on concrete inputs.
