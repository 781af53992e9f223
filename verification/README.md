# mini_lsm

A key-value store on a log-structured merge tree, written in Rust and verified with Verus.

- `src/` is the library: blocks, tables and their filters, mem-tables and write-ahead logs, the
  manifest's framing, merging iterators, the compaction strategies, transactions on snapshots, and
  the engine that puts them together. Every function states what it does and is proved to do it.
  The engine does no I/O. What is to happen to files it returns as a list of actions.
- `app/` runs the engine on a directory: it performs the actions, reads files for recovery, holds
  the locks and runs the background threads.
- `tests/` runs the library.

The laws that relate several functions are public proof functions: among them that a built table
can be opened again (`table/builder.rs`), that a read gives back what was written and that
snapshots stay as they are, that flushing keeps what is read (`lsm_storage/laws.rs`), that no
reader can tell whether a compaction has run (`compact/laws.rs`), what a transaction sees
(`mvcc/txn.rs`), and that a restart, and every one after it, gives back what was flushed or logged,
whatever compactions have run (`lsm_storage/durability.rs`).

What is taken on trust stands in three files: the checksum, the fingerprint and the cloning of
shared pointers in `outside.rs`, the skip list in `skiplist.rs` and the block cache in
`block_cache.rs`.
