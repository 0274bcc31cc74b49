# lattice

A time-series store with compressed segments, a write-ahead log, and replication
through a Raft log. The library under `src/` is verified with Verus; `app/` is the
server around it.

- `storage`: Gorilla compression, segment files, the manifest, the log, the table in
  memory, compaction, and the engine that ties them together. The engine decides what
  is to be done to the files, one step at a time; the server carries the steps out.
  `storage::recovery` and `storage::history` state what survives calls, restarts, and
  stops between any two steps or within one.
- `cluster`: messages and their frames, the node of the replicated log, and the driver
  that runs it. `cluster::raw` says what is relied on of the `raft` and `protobuf`
  crates, and `cluster::weight` tells which messages can be written.
- `api`: the HTTP interface.

Values are held as the bit patterns of floating-point numbers.
