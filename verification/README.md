# toy-cow

A copy-on-write block and file store for one process.

Devices and files are trees of metadata nodes that lead to immutable segments.
A write stores new segments, builds new nodes beside the old ones and moves the
roots in one commit, so forks, checkpoints and restores share what they have in
common.

- `src/` is the store itself: records and their encoding, trees, commits,
  append streams, the block journal, exports for the durable copy, garbage
  collection, and the coordinators that bring them together. Each function
  carries its contract; `laws.rs` holds what is true of several requests
  together.
- `tests/` runs the store on concrete values.
- `app/` puts a store into a directory: SQLite tables, data log files, direct
  I/O, the maintenance thread and the in-process transport.
