# rsm — Rusty Symlink Manager

`rsm` keeps symbolic links in the shape that a TOML configuration declares:
links filtered by operating system, host and tag, whole directory trees
mirrored file by file with `.gitignore`-style ignore patterns, dead links
pruned, and existing targets overwritten only on request.

## Layout

- `src/` — the library, with its contracts and proofs.
  - `path.rs` — a model of Unix paths (components, trimming, joining, file
    names, component-wise prefixes) with executable functions proved against it.
  - `ignore.rs` — ignore rules: exact names and glob patterns (the `glob` crate).
  - `config.rs` — the configuration types, where the configuration file is
    looked for, and the template that `init` writes.
  - `env.rs` — the machine a sync runs on (the `hostname` crate).
  - `selection.rs` — which links apply on this machine and under a tag.
  - `symlink.rs` — home expansion (the `directories` crate), turning an entry
    into link tasks, choosing dead links to prune, planning the changes that
    make a link, and a filesystem model in which syncing is idempotent.
  - `error.rs` — the error type and its messages.
- `tests/` — tests of the library, including comparisons with `std::path`.
- `app/main.rs` — the command-line program: argument parsing, logging,
  progress display, directory walking and every filesystem change.
