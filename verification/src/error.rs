//! What can go wrong.
use vstd::prelude::*;

verus! {

/// Errors of the storage engine.
#[derive(Clone, Copy, Debug, PartialEq, Eq, Structural)]
pub enum LsmError {
    /// A block was asked for that the table does not have.
    BlockIndexOutOfBounds { index: usize, max: usize },
    /// The checksum of a table's block metadata does not match.
    MetaChecksumMismatch,
    /// The checksum of a table's bloom filter does not match.
    BloomChecksumMismatch,
    /// The checksum of a write-ahead log record does not match.
    WalChecksumMismatch { expected: u32, actual: u32 },
    /// The checksum of a manifest record does not match.
    ManifestChecksumMismatch { expected: u32, actual: u32 },
    /// Bytes were asked for beyond the end of the data.
    UnexpectedEnd,
    /// The bytes are not laid out as they should be.
    Malformed,
    /// A table is listed but not loaded.
    SstableNotFound(usize),
    /// The write-ahead log of a mem-table is not there.
    WalNotFound(usize),
    /// There are no ids left for new tables.
    OutOfIds,
    /// An iterator was advanced after it failed.
    InvalidIterator,
    /// A transaction was used after it was committed.
    TransactionCommitted,
}

} // verus!
