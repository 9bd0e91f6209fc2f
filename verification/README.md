# peek

Token-bounded file inspection: count a file's lines, grep it, read a
numbered window of it, collapse it to a structural skeleton, or describe a
whole workspace as a compact repository map.

`src/` is the library, verified with Verus: every public function states in
its contract exactly what it prints or returns.

- `api` — requests, responses and errors.
- `render` — numbered line windows and the validation of range requests.
- `inspect` — count, grep, head, tail, full and range reads of a file's lines.
- `pattern` — the regular expressions grep runs (the `regex` crate).
- `skeleton` — Rust, Python and generic skeletons.
- `tree` — sorted path trees, their text rendering and JSON description.
- `workspace` — workspace manifests and the filters of a directory walk.
- `listing` — directory listings sorted by name.
- `repo_map` — the repository map document and its TOON text.
- `toon` — TOON encoding (the `toon-format` crate).
- `cli` — which command-line flags combine, and the request they make.
- `json` — JSON values and their compact text.
- `text` — the string helpers everything is built on.

`app/` is the program around it: argument parsing, file-system access, and
the MCP server (started as `peek-mcp`).
