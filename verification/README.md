# luna

The core of a small incremental build engine, verified with Verus.

- `src/makefile.rs`: a reader for a small makefile dialect, with the grammar
  written as spec functions over byte positions and `parse` proved to follow it.
- `src/state.rs`: revisions and keys, the record stored for a key, how a
  build's outcome becomes the stored record and the value handed to
  dependents (`settle_build`), how the outcomes of a key's dependencies decide
  whether it must be rebuilt (`DependencyCheck`), and what a lookup in the
  table of keys decides (`Status`).
- `src/connection_pool.rs`: the idle connections of the database pool.
- `src/file_status.rs`: the fingerprint of a file's modification time and size.

`app/` holds the program around the library: file metadata, the tokio tasks
and the concurrent table of keys, the semaphore and mutex of the connection
pool, and the SQLite connections.
