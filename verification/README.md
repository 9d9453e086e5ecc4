# confset

Confset generates native tool configuration files (JSON, YAML, TOML, INI and
plain text) from one Pkl source, and publishes them with ownership records and
a recovery journal.

This crate is written in Verus. `src/` is the verified library: path
normalization, the evaluated value model and its conversion from Pkl values,
the compilation of declarations into outputs (INI rendering included), the
managed `.gitignore` block, configuration discovery decisions, input
fingerprints, the ownership, publication and recovery decisions, and the
decisions of watch mode. Every public function states its behaviour in
`requires`/`ensures`, and the library's laws are public proof functions
(`law_*`).

`app/` is the command-line program around it: argument parsing, the Pkl
evaluator, the JSON/YAML/TOML serializers (which work on floating-point
numbers), the filesystem, the writer lock, the watcher and the terminal.

Modules of `src/`:

- `path`: component paths, `absolute`, the path order, sorting, and the
  keys that compare paths (lowercased where the file system ignores case).
- `text`, `outcome`: string helpers; the first failure of ordered checks.
- `pkl`: evaluated Pkl values, `from_pkl`, and where a diagnostic points.
- `compiler`: values, the catalog model, `declare` and `assemble`.
- `render`: INI, text and decimal rendering.
- `ignore`: the managed ignore block, and which outputs Git already tracks.
- `config`: fingerprints, recorded inputs and globs, discovery decisions,
  the starter configuration.
- `publication`: snapshots, ownership state, journals, planning of
  generations and cleanups, recovery decisions.
- `watch`: relevant events, watch planning, the watch-loop state.
