# sloppy

An in-memory keyspace with snapshot reads, revision-indexed changes, and
watches, written in Verus. Its functions state what they return and change in
`requires` and `ensures` clauses, and Verus proves them.

- `src/tree.rs`: a mutable B+tree keyed by byte strings, and its walk.
- `src/snapshot_tree.rs`: the persistent variant, whose snapshots stay as they
  are while a transaction writes.
- `src/bytes.rs`, `src/keys.rs`, `src/leaf.rs`, `src/shape.rs`,
  `src/entries.rs`, `src/copies.rs`, `src/big_endian.rs`: what both are made of,
  and the sorted sequence of entries their contracts speak of.
- `src/db.rs` and `src/db/`: tables of versioned rows, secondary indexes, the
  change stream, and transactions. A row is the sequence of its versions,
  oldest first; a table is the history of every key.
- `src/db/laws.rs`: what holds of the database as a whole, as proofs: snapshots
  hold, a half-applied commit is not seen, a commit publishes what its
  transaction read, indexes list what is seen, every change is told once, the
  changes alone rebuild the table, and a compaction takes only what it may.
- `src/watch.rs`: change notification over a `tokio` watch channel.

The database is a plain value: reads borrow it, a commit borrows it exclusively.
`app/` puts the locks around it, lets one database hold tables of any value
types, and waits on watches.

What is taken on trust is marked `external_body`: `Arc::make_mut`,
`Arc::into_inner`, and five calls into `tokio::sync::watch`.
