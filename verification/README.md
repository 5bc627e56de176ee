# ghola

A content-addressed version-control library with no stored diffs, verified
with Verus. Objects (blob, tree, commit) are immutable and named by the
SHA-256 of their canonical encoding; history is a DAG of commits; diffs and
merges are computed on demand from whole snapshots.

## Layout

- `src/` — the verified library.
  - `digest.rs` SHA-256 (FIPS 180-4), proved equal to the standard's definition.
  - `object.rs` objects, their canonical encoding and decoding.
  - `snapshot.rs` a snapshot (path → contents) and its byte record.
  - `repo.rs` the object store, refs, HEAD and the merge record.
  - `trees.rs`, `treediff.rs` snapshots as trees; tree diffs.
  - `graph.rs`, `history.rs`, `reach.rs` ancestry, merge bases, the log, reachability.
  - `myers.rs`, `edit_graph.rs`, `text.rs`, `merge.rs`, `tree_merge.rs` line diffs, three-way merges.
  - `wire.rs`, `server.rs`, `client.rs` synchronization between repositories.
  - `worktree.rs`, `cli.rs` what the command line decides: safe paths, what a move of
    the working directory does, revisions, status, HEAD movement.
- `tests/` — tests of the library.
- `app/` — the `ghola` program: argument handling, the disk and the terminal.
