# ruv

A package manager for R projects: it reads the project file `ruv.toml`,
resolves the dependencies against the CRAN index (and crandb for older
versions), writes the lock file, and reports what to install.

The library in `src/` is verified with Verus:

- `version`: R version numbers, their order, and version constraints.
- `text`, `sorting`, `name_map`: text helpers, the order of names, and a map
  keyed by package name that keeps its names sorted.
- `config`: dependency strings and the editing of `ruv.toml` that adds a
  dependency while keeping the rest of the file as written.
- `index`: the CRAN `PACKAGES` index and its gzip form.
- `crandb`: the versions and dependencies that crandb reports.
- `resolver`: the decisions the solver asks for (which version to try, which
  dependencies a version has) and the report of a failed resolution.
- `lockfile`: the text of the lock file, the packages read back from it, and
  the check that it is up to date.
- `toml_text`: the arrays of strings that `toml` reads from `ruv.toml` and
  from the lock file.
- `cache`: where a package version is cached.

`app/` holds the command line, the network and file access, and the PubGrub
solver, which calls the library for each decision.
