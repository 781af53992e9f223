//! A log-structured merge-tree storage engine.
pub mod block;
pub mod block_cache;
pub mod bound;
pub mod codec;
pub mod compact;
pub mod error;
pub mod iterators;
pub mod key;
pub mod lsm_iterator;
pub mod lsm_storage;
pub mod manifest;
pub mod mem_table;
pub mod mvcc;
pub mod outside;
pub mod skiplist;
pub mod table;
pub mod wal;
