//! Timestamps for readers and writers.
pub mod txn;
pub mod watermark;

use vstd::prelude::*;

use crate::mvcc::txn::Transaction;
use crate::mvcc::watermark::Watermark;
use crate::skiplist::new_versions;

verus! {

/// The timestamp of the latest commit, and which timestamps are being read at.
pub struct LsmMvccInner {
    pub ts: (u64, Watermark),
}

impl LsmMvccInner {
    pub fn new(initial_ts: u64) -> (r: Self)
        ensures
            r.ts.0 == initial_ts,
            r.ts.1.readers@ == Seq::<u64>::empty(),
    {
        Self { ts: (initial_ts, Watermark::new()) }
    }

    pub fn latest_commit_ts(&self) -> (r: u64)
        ensures
            r == self.ts.0,
    {
        self.ts.0
    }

    pub fn update_commit_ts(&mut self, ts: u64)
        ensures
            final(self).ts.0 == ts,
            final(self).ts.1 == old(self).ts.1,
    {
        self.ts.0 = ts;
    }

    /// Begins a transaction that reads at the timestamp of the latest commit.
    pub fn new_txn(&mut self) -> (r: Transaction)
        ensures
            r.wf(),
            r.read_ts == old(self).ts.0,
            r.local() == Map::<Seq<u8>, Seq<u8>>::empty(),
            !r.committed,
            final(self).ts.0 == old(self).ts.0,
            final(self).ts.1.readers@ == old(self).ts.1.readers@.push(old(self).ts.0),
    {
        let read_ts: u64 = self.ts.0;
        self.ts.1.add_reader(read_ts);
        let txn = Transaction { read_ts, local_storage: new_versions(), committed: false };
        assert(txn.local() =~= Map::<Seq<u8>, Seq<u8>>::empty());
        txn
    }

    /// A reader at `ts` is done.
    pub fn drop_read_ts(&mut self, ts: u64)
        ensures
            final(self).ts.0 == old(self).ts.0,
            final(self).ts.1.readers@ == watermark::without_one(old(self).ts.1.readers@, ts),
    {
        self.ts.1.remove_reader(ts);
    }
}

} // verus!
