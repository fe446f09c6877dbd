# droidsdk

`dsdk` manages versions of SDKs ("candidates") in the manner of SDKMAN!: it lists
what the SDKMAN! service offers, installs versions under `$HOME/.droidsdk`, and
changes `PATH` to use or revert them, per shell, per project and per activity.

- `src/` is the library, verified with Verus: partial-name resolution against
  what is installed, the `PATH` edits of `use`, `revert` and `revert --all`,
  activity and project configurations (JSON with `//` comment lines), the
  service's candidate and version listings and their order, version comparison,
  and the plan of an installation. Its contracts state each result exactly, and
  its proof functions state the laws that hold across calls (for instance that
  reverting right after a use gives `PATH` back without that candidate).
- `tests/` runs the library on concrete values.
- `app/` is the command-line program around it: argument handling, logging,
  HTTP, archives, links, the registry and the files the shell sources.
