# vectordb-core

An embedded vector database with an HTTP server: HNSW graph search, product
quantization, metadata filters, a checksummed write-ahead log and atomic snapshots.

The library under `src/` is written in Verus and proved against its contracts:

- `wal`, `wal_laws`: the frame format of the log, scanning a log back into frames
  (torn tails, bad magic, checksum mismatches), and ordering frames by sequence number.
- `recovery`: which logged frames a reopened database replays after a snapshot.
- `storage`, `storage_laws`: slot-based vector storage with tombstones, reinsertion and compaction.
- `catalog`: the collections of a database by name.
- `hnsw`, `hnsw_remap`, `compaction_laws`: the layout of the HNSW graph, its integrity,
  the mutators that keep it, renumbering after compaction, and how compaction keeps
  graph and storage in step.
- `concurrent_hnsw`: the lock-based graph and the visit marks its searches share.
- `pq`: storage of quantization codes.
- `planner`: the choice of strategy for filtered searches.
- `snapshot`: when automatic snapshots fall due.
- `api`: how the HTTP interface validates requests and reports failures.

`app/` holds the server and everything that computes with floating point (distances,
graph search, k-means), reads and writes files, or runs under locks and async tasks.
