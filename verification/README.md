# reqtrace

A deterministic requirements-coverage tool. Requirements live in YAML
inventories (`type~slug~rev` IDs with a status, optional rating and owner);
docs and code point at them with `Covers:` / `Derived:` annotation lines. The
tool reports uncovered, stale and orphaned requirements, stale exceptions,
malformed annotations and (optionally) unparented sections, with a summary
whose arithmetic is proved.

Layout:

- `src/` — the library, verified with Verus: the ID and annotation grammars
  (`id`, `grammar`), scanning (`scan`), inventory and exception validation
  (`inventory`, `exceptions`, `yaml`), configuration (`config`), the checks
  and their laws (`checks`), ordering and the human report (`report`), glob
  selection through `globset` (`globs`) and the run's decisions (`runner`).
- `app/` — the command-line program: argument parsing, the file system,
  config (TOML) parsing and the JSON report. YAML is parsed in `src/`,
  through `serde_yaml`.
- `tests/` — scenarios and edge cases run against the compiled library.
