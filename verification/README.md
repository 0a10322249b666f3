# kvstore

A distributed, transactional key-value store: MVCC storage on a fjall
keyspace, Percolator-style two-phase commit with a hybrid logical clock and
lock resolution, and multi-raft regions routed by key range.

The library under `src/` is verified with Verus:

- `codec` – lexicographic byte order and big-endian integer codecs, with their laws.
- `storage` – key encoding (user key + inverted timestamp), write records and
  locks with their byte formats, the engine over fjall, snapshot reads,
  garbage collection and region statistics.
- `txn` – the hybrid logical clock, lock resolution, the transaction
  coordinator (prewrite, commit, rollback, reads and scans) and the laws that
  tie commit records to what later reads see.
- `raft` – raft configuration, the in-memory raft log, the keys raft state is
  persisted under, regions, splitting and routing.
- `service` – the small decisions the node's services make around their calls.

Operations that touch the keyspace return, beside their result, a ghost
trace of what they read and wrote, and the contracts state the result over
that trace.  The trace carries receipts that only the engine issues (for
each point read, each seek and each batch handed to fjall), so the reads and
writes a contract speaks of are those the engine made.

`app/` is the server binary: it opens the keyspace, backs `raft::Storage`
with the library's raft log, drives the raft groups and reads its
configuration from the command line and a TOML file.

The tests under `tests/` run the library against real fjall keyspaces in
temporary directories.
