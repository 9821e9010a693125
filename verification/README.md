# lccp

Lobster Configuration and Command-Line Parsing: a resolver that merges an
application's configuration from defaults, discovered JSON/TOML files,
environment variables, `--config` files, `--set` expressions and long flags,
by precedence, keeping the provenance of every value, and that parses the
application's own options, positionals and subcommands and renders help.

The library in `src/` is verified with Verus. Its functions take what
they read from the surroundings as values: the working directory, home
directory and environment (`ResolveOptions`), the text of each
configuration file (`ConfigFiles`), and the float readings of raw strings
(`RawFacts`). `app/` reads those from the process and the file system.
Parsing JSON and TOML documents and expressions, and writing pretty TOML,
are calls into `serde_json` and `toml` from `src/`, each behind a named
result (module `formats`).

Modules of `src/`:

- `text`, `names`, `render`: characters, name validation, value rendering
  (non-string values are written by `serde_json`)
- `value`, `toml_value`, `convert`, `tree`: JSON- and TOML-shaped values,
  typed reading of raw strings, dotted paths and TOML conversion
- `keyed`: ordered association lists (the maps of the library)
- `specs`, `command`, `cli`, `matching`, `help`: the schema, the application
  command model, the command-line scan, command matching and help text
- `formats`: what `serde_json` and `toml` make of text, and the TOML text
  they write
- `paths`, `inputs`, `resolved`, `resolver`: file locations, inputs, the
  resolved configuration with provenance, and resolution itself
- `laws`: properties that relate several functions, proved once

`tests/` holds the conformance scenarios and further examples.
