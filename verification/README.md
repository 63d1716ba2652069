# relay-sync

`relay-sync` checks and safely updates dependency versions in Python and
Node.js manifests (`package.json`, `pyproject.toml`, `Pipfile`,
`requirements*.txt`/`.in`, `setup.cfg`).

The library under `src/` is verified with Verus:

- `text.rs`: character-level helpers and their specifications.
- `version.rs`: PEP 508 parsing, version ordering, and the conservative
  constraint rewriting rules.
- `manifest.rs`: requirements/setup.cfg parsing, text rendering, manifest
  kinds, and dispatch over all manifest kinds.
- `pyproject.rs`, `toml_doc.rs`: `pyproject.toml`/`Pipfile` reading and
  format-preserving TOML updates (documents are parsed by `toml_edit`,
  which also gives each value's position in the text).
- `toml_render.rs`: rendering TOML updates: each new string, written as
  `toml_edit` writes a string value, replaces the text of the value at its
  dependency's location, and every other character is kept.
- `package_json.rs`: `package.json` reading and rendering (documents are
  parsed and printed by `serde_json`).
- `registry.rs`: lookup-name normalization, registry URLs, and reading
  registry responses.
- `plan.rs`, `output.rs`: lookup planning, report rows, update collection,
  summaries, and the table report.
- `paths.rs`, `discovery.rs`, `lockfile.rs`, `cli.rs`: file names,
  discovery rules, lockfile notes, and command-line settings.
- `laws.rs`: properties that span several functions (update safety rules,
  what rendering changes, what an update reads back as, where updates
  come from).

`app/` is the command-line program around the library: argument parsing,
file-system discovery, HTTP requests, printing, and writing files.
