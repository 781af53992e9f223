//! Transactions.
use crossbeam_skiplist::SkipMap;
use vstd::prelude::*;

use crate::bound::Bound;
use crate::error::LsmError;
use crate::iterators::merging;
use crate::iterators::two_merge_iterator::TwoMergeIterator;
use crate::iterators::StorageIterator;
use crate::key::{KeyBytes, KeySlice, VEntry, VKey, TS_DEFAULT};
use crate::lsm_iterator;
use crate::lsm_iterator::{FusedIterator, LsmIterator};
use crate::lsm_storage::engine;
use crate::lsm_storage::engine::Action;
use crate::lsm_storage::{laws, read};
use crate::lsm_storage::{LsmStorageInner, WriteBatchRecord};
use crate::skiplist::{all_versions, get_version, put_version, range_versions};
use crate::{block, bound, key, skiplist, table};

verus! {

broadcast use crate::key::group_models;

/// A transaction: it reads at one timestamp and keeps what it writes to itself until it commits.
pub struct Transaction {
    pub read_ts: u64,
    pub local_storage: SkipMap<(Vec<u8>, u64), Vec<u8>>,
    pub committed: bool,
}

/// What a transaction sees of a user key: what it has written itself, and otherwise what a reader
/// at its timestamp sees.
pub open spec fn txn_seen(
    local: Map<Seq<u8>, Seq<u8>>,
    m: Map<VKey, Seq<u8>>,
    k: Seq<u8>,
    read_ts: u64,
) -> Option<Seq<u8>> {
    if local.contains_key(k) {
        if local[k].len() > 0 {
            Some(local[k])
        } else {
            None
        }
    } else {
        read::seen(m, k, read_ts)
    }
}

/// A transaction sees what it wrote last: the value, or nothing where that was a deletion. What it has
/// not written it sees as it was at its timestamp, whatever has been committed since.
pub proof fn lemma_reads_own_writes(
    local: Map<Seq<u8>, Seq<u8>>,
    m: Map<VKey, Seq<u8>>,
    since: Map<VKey, Seq<u8>>,
    k: Seq<u8>,
    v: Seq<u8>,
    j: Seq<u8>,
    read_ts: u64,
)
    requires
        forall|x: VKey| #[trigger] since.contains_key(x) ==> x.ts > read_ts,
    ensures
        v.len() > 0 ==> txn_seen(local.insert(k, v), m, k, read_ts) == Some(v),
        txn_seen(local.insert(k, Seq::empty()), m, k, read_ts) is None,
        j != k ==> txn_seen(local.insert(k, v), m, j, read_ts) == txn_seen(local, m, j, read_ts),
        txn_seen(Map::empty(), m, j, read_ts) == read::seen(m, j, read_ts),
        txn_seen(local, m.union_prefer_right(since), j, read_ts) == txn_seen(local, m, j, read_ts),
{
    let n = m.union_prefer_right(since);
    assert forall|u: u64| u <= read_ts implies (#[trigger] n.contains_key(VKey { key: j, ts: u })
        <==> m.contains_key(VKey { key: j, ts: u })) by {}
    if exists|t: u64| lsm_iterator::is_latest(m, j, read_ts, t) {
        let t = choose|t: u64| lsm_iterator::is_latest(m, j, read_ts, t);
        assert(n.contains_key(VKey { key: j, ts: t }));
        assert forall|u: u64| t < u <= read_ts implies !(#[trigger] n.contains_key(
            VKey { key: j, ts: u },
        )) by {
            assert(!m.contains_key(VKey { key: j, ts: u }));
        }
        assert(lsm_iterator::is_latest(n, j, read_ts, t));
        lsm_iterator::lemma_latest_unique(n, j, read_ts, t);
        lsm_iterator::lemma_latest_unique(m, j, read_ts, t);
    } else if exists|t: u64| lsm_iterator::is_latest(n, j, read_ts, t) {
        let t = choose|t: u64| lsm_iterator::is_latest(n, j, read_ts, t);
        assert(m.contains_key(VKey { key: j, ts: t }));
        assert forall|u: u64| t < u <= read_ts implies !(#[trigger] m.contains_key(
            VKey { key: j, ts: u },
        )) by {
            assert(!n.contains_key(VKey { key: j, ts: u }));
        }
        assert(lsm_iterator::is_latest(m, j, read_ts, t));
    }
}

/// What readers see after a transaction has committed: at the latest commit, what it wrote, and of
/// other user keys what was there before; at an earlier timestamp, what they saw before.
pub open spec fn shows_commit(
    txn: Transaction,
    before: LsmStorageInner,
    after: LsmStorageInner,
) -> bool {
    &&& forall|k: Seq<u8>| #[trigger]
        read::seen(after.contents(), k, after.mvcc.ts.0) == txn_seen(
            txn.local(),
            before.contents(),
            k,
            before.mvcc.ts.0,
        )
    &&& forall|k: Seq<u8>, read_ts: u64|
        read_ts <= before.mvcc.ts.0 ==> #[trigger] read::seen(after.contents(), k, read_ts)
            == read::seen(before.contents(), k, read_ts)
}

/// What has been written locally of the user keys between two ends.
pub open spec fn local_range(
    local: Map<Seq<u8>, Seq<u8>>,
    lower: Bound<Seq<u8>>,
    upper: Bound<Seq<u8>>,
) -> Map<VKey, Seq<u8>> {
    Map::new(
        |u: VKey|
            u.ts == TS_DEFAULT && bound::above(lower, u.key) && bound::below(upper, u.key)
                && local.contains_key(u.key),
        |u: VKey| local[u.key],
    )
}

/// What a transaction sees of a range, its own deletions as empty values.
pub open spec fn txn_range(
    local: Map<Seq<u8>, Seq<u8>>,
    m: Map<VKey, Seq<u8>>,
    lower: Bound<Seq<u8>>,
    upper: Bound<Seq<u8>>,
    read_ts: u64,
) -> Map<VKey, Seq<u8>> {
    read::range_seen(m, lower, upper, read_ts).union_prefer_right(local_range(local, lower, upper))
}

/// The entries at a timestamp.
pub open spec fn at_ts(es: Seq<VEntry>, ts: u64) -> Seq<VEntry> {
    Seq::new(
        es.len(),
        |i: int| VEntry { key: VKey { key: es[i].key.key, ts }, value: es[i].value },
    )
}

impl Transaction {
    /// What the transaction has written. An empty value stands for a deletion.
    pub open spec fn local(&self) -> Map<Seq<u8>, Seq<u8>> {
        Map::new(
            |k: Seq<u8>|
                skiplist::versions(self.local_storage).contains_key(VKey { key: k, ts: TS_DEFAULT }),
            |k: Seq<u8>| skiplist::versions(self.local_storage)[VKey { key: k, ts: TS_DEFAULT }],
        )
    }

    /// What has been written fits into blocks, and has no timestamp yet.
    pub open spec fn wf(&self) -> bool {
        let m = skiplist::versions(self.local_storage);
        forall|k: VKey| #[trigger]
            m.contains_key(k) ==> k.ts == TS_DEFAULT && block::entry_fits(
                VEntry { key: k, value: m[k] },
            )
    }

    /// What has been written, in key order.
    pub open spec fn pending(&self) -> Seq<VEntry> {
        merging::sorted_entries(skiplist::versions(self.local_storage))
    }

    /// Get a key, as the transaction sees it.
    pub fn get(&self, inner: &LsmStorageInner, key: &[u8]) -> (r: Result<Option<Vec<u8>>, LsmError>)
        requires
            inner.wf(),
        ensures
            self.committed ==> r == Err::<Option<Vec<u8>>, LsmError>(LsmError::TransactionCommitted),
            !self.committed ==> match txn_seen(self.local(), inner.contents(), key@, self.read_ts) {
                Some(v) => r matches Ok(Some(w)) && w@ == v,
                None => r matches Ok(None),
            },
    {
        match self.check_commit_status() {
            Ok(()) => {},
            Err(e) => {
                return Err(e);
            },
        }
        match get_version(&self.local_storage, KeySlice::from_slice(key, TS_DEFAULT)) {
            Some(value) => {
                if value.len() == 0 {
                    Ok(None)
                } else {
                    Ok(Some(value))
                }
            },
            None => inner.get_with_ts(self.read_ts, key),
        }
    }

    /// Walk the keys of a range, as the transaction sees them.
    pub fn scan(&self, inner: &LsmStorageInner, lower: Bound<&[u8]>, upper: Bound<&[u8]>) -> (r:
        Result<TxnIterator, LsmError>)
        requires
            inner.wf(),
            self.wf(),
        ensures
            self.committed ==> r == Err::<TxnIterator, LsmError>(LsmError::TransactionCommitted),
            !self.committed ==> (r matches Ok(it) && it.walks(
                self.local(),
                inner.contents(),
                lower.bytes(),
                upper.bytes(),
                self.read_ts,
            )),
    {
        match self.check_commit_status() {
            Ok(()) => {},
            Err(e) => {
                return Err(e);
            },
        }
        inner.scan_with_txn(self, lower, upper)
    }

    /// Write a key-value pair, for the transaction itself to see.
    pub fn put(&mut self, key: &[u8], value: &[u8]) -> (r: Result<(), LsmError>)
        requires
            old(self).wf(),
            block::entry_fits(VEntry { key: VKey { key: key@, ts: TS_DEFAULT }, value: value@ }),
        ensures
            final(self).wf(),
            old(self).committed ==> r == Err::<(), LsmError>(LsmError::TransactionCommitted)
                && *final(self) == *old(self),
            !old(self).committed ==> r is Ok && final(self).local() == old(self).local().insert(
                key@,
                value@,
            ) && final(self).read_ts == old(self).read_ts && !final(self).committed,
    {
        match self.check_commit_status() {
            Ok(()) => {},
            Err(e) => {
                return Err(e);
            },
        }
        put_version(&mut self.local_storage, KeySlice::from_slice(key, TS_DEFAULT), value);
        assert(self.local() =~= old(self).local().insert(key@, value@));
        Ok(())
    }

    /// Delete a key, for the transaction itself to see.
    pub fn delete(&mut self, key: &[u8]) -> (r: Result<(), LsmError>)
        requires
            old(self).wf(),
            0 < key@.len() <= block::MAX_KEY_LEN,
        ensures
            final(self).wf(),
            old(self).committed ==> r == Err::<(), LsmError>(LsmError::TransactionCommitted)
                && *final(self) == *old(self),
            !old(self).committed ==> r is Ok && final(self).local() == old(self).local().insert(
                key@,
                Seq::empty(),
            ) && final(self).read_ts == old(self).read_ts && !final(self).committed,
    {
        match self.check_commit_status() {
            Ok(()) => {},
            Err(e) => {
                return Err(e);
            },
        }
        let empty: Vec<u8> = Vec::new();
        assert(empty@ =~= Seq::empty());
        self.put(key, empty.as_slice())
    }

    /// Write what the transaction has written into the storage, all of it at one new timestamp.
    /// Committing once more does nothing.
    pub fn commit(&mut self, inner: &mut LsmStorageInner) -> (r: Result<Vec<Action>, LsmError>)
        requires
            old(self).wf(),
            old(inner).wf(),
            old(inner).mvcc.ts.0 < u64::MAX,
            old(inner).next_sst_id + old(self).pending().len() <= usize::MAX,
        ensures
            final(inner).wf(),
            final(self).wf(),
            final(self).committed,
            final(self).read_ts == old(self).read_ts,
            final(self).local_storage == old(self).local_storage,
            old(self).committed ==> (r matches Ok(actions) && actions@.len() == 0 && *final(inner)
                == *old(inner)),
            !old(self).committed ==> (r matches Ok(actions) && final(inner).written(
                *old(inner),
                at_ts(old(self).pending(), (old(inner).mvcc.ts.0 + 1) as u64),
                actions@,
            ) && key::sorted(old(self).pending()) && merging::to_map(old(self).pending())
                == skiplist::versions(old(self).local_storage) && shows_commit(
                *old(self),
                *old(inner),
                *final(inner),
            )),
            (!old(self).committed && old(self).pending().len() > 0) || old(
                inner,
            ).state.memtable.approximate_size <= old(inner).options.target_sst_size ==> final(inner).state.memtable.approximate_size <= final(inner).options.target_sst_size,
            engine::only_full_added(
                old(inner).state.imm_memtables@,
                final(inner).state.imm_memtables@,
                old(inner).options.target_sst_size,
            ),
    {
        proof {
            engine::lemma_none_added(
                inner.state.imm_memtables@,
                inner.options.target_sst_size,
            );
        }
        if self.committed {
            return Ok(Vec::new());
        }
        let local = all_versions(&self.local_storage);
        let ghost es = skiplist::entry_views(local@);
        let ghost m = skiplist::versions(self.local_storage);
        proof {
            merging::lemma_sorted_entries(es);
            assert(es == self.pending());
        }
        let mut records: Vec<WriteBatchRecord<&[u8]>> = Vec::new();
        let mut i: usize = 0;
        while i < local.len()
            invariant
                i <= local@.len(),
                es == skiplist::entry_views(local@),
                records@.len() == i,
                forall|j: int, ts: u64|
                    0 <= j < i ==> #[trigger] engine::record_entry(records@[j], ts) == (VEntry {
                        key: VKey { key: es[j].key.key, ts },
                        value: es[j].value,
                    }),
            decreases local@.len() - i,
        {
            let key: &[u8] = local[i].0.key_ref();
            let value: &[u8] = local[i].1.as_slice();
            if value.len() == 0 {
                assert(es[i as int].value =~= Seq::empty());
                records.push(WriteBatchRecord::Del(key));
            } else {
                records.push(WriteBatchRecord::Put(key, value));
            }
            i = i + 1;
        }
        proof {
            let ts = (inner.mvcc.ts.0 + 1) as u64;
            assert(engine::batch_entries(records@, ts) =~= at_ts(es, ts));
            let zero = engine::batch_entries(records@, 0);
            assert forall|j: int| 0 <= j < zero.len() implies block::entry_fits(
                #[trigger] zero[j],
            ) by {
                merging::lemma_to_map_contains(es, es[j].key);
                assert(merging::to_map(es).contains_key(es[j].key));
                assert(m.contains_key(es[j].key));
                assert(zero[j] == engine::record_entry(records@[j], 0));
                assert(m[es[j].key] == es[j].value);
            }
        }
        let actions = inner.write_batch(records.as_slice());
        proof {
            let txn = *old(self);
            let before = *old(inner);
            let after = *inner;
            assert forall|k: Seq<u8>| #[trigger]
                read::seen(after.contents(), k, after.mvcc.ts.0) == txn_seen(
                    txn.local(),
                    before.contents(),
                    k,
                    before.mvcc.ts.0,
                ) by {
                lemma_commit_then_read(txn, before, after, actions@, k, 0);
            }
            assert forall|k: Seq<u8>, read_ts: u64|
                read_ts <= before.mvcc.ts.0 implies #[trigger] read::seen(
                after.contents(),
                k,
                read_ts,
            ) == read::seen(before.contents(), k, read_ts) by {
                lemma_commit_then_read(txn, before, after, actions@, k, read_ts);
            }
        }
        self.committed = true;
        Ok(actions)
    }

    /// A committed transaction cannot be used any more.
    pub fn check_commit_status(&self) -> (r: Result<(), LsmError>)
        ensures
            self.committed ==> r == Err::<(), LsmError>(LsmError::TransactionCommitted),
            !self.committed ==> r is Ok,
    {
        if self.committed {
            Err(LsmError::TransactionCommitted)
        } else {
            Ok(())
        }
    }
}

/// An iterator over what a transaction has written.
pub struct TxnLocalIterator {
    /// The entries of the range.
    pub entries: Vec<(KeyBytes, Vec<u8>)>,
    /// The position of the current entry.
    pub pos: usize,
}

impl TxnLocalIterator {
    pub fn create(txn: &Transaction, lower: Bound<&[u8]>, upper: Bound<&[u8]>) -> (r: Self)
        requires
            txn.wf(),
        ensures
            r.wf(),
            merging::to_map(r.remaining()) == local_range(
                txn.local(),
                lower.bytes(),
                upper.bytes(),
            ),
            r.remaining() == merging::sorted_entries(
                local_range(txn.local(), lower.bytes(), upper.bytes()),
            ),
    {
        let entries = range_versions(
            &txn.local_storage,
            lower.at_ts(TS_DEFAULT),
            upper.at_ts(TS_DEFAULT),
        );
        let r = Self { entries, pos: 0 };
        proof {
            let es = skiplist::entry_views(entries@);
            let m = skiplist::versions(txn.local_storage);
            let lo = bound::key_bound(lower.bytes(), TS_DEFAULT);
            let up = bound::key_bound(upper.bytes(), TS_DEFAULT);
            let got = skiplist::versions_within(txn.local_storage, lo, up);
            let want = local_range(txn.local(), lower.bytes(), upper.bytes());
            assert(r.remaining() =~= es);
            assert forall|i: int| 0 <= i < es.len() implies (#[trigger] es[i]).key.key.len() > 0
                && es[i].key.ts == TS_DEFAULT by {
                merging::lemma_to_map_contains(es, es[i].key);
                assert(merging::to_map(es).contains_key(es[i].key));
                assert(m.contains_key(es[i].key));
            }
            assert forall|u: VKey|
                (#[trigger] got.contains_key(u) <==> want.contains_key(u)) && (got.contains_key(u)
                    ==> got[u] == want[u]) by {
                if u.ts == TS_DEFAULT {
                    assert(u =~= VKey { key: u.key, ts: TS_DEFAULT });
                }
                if m.contains_key(u) {
                    assert(u.ts == TS_DEFAULT);
                }
            }
            assert(got =~= want);
            merging::lemma_sorted_entries(es);
        }
        r
    }
}

impl StorageIterator for TxnLocalIterator {
    type KeyType<'a> = &'a [u8];

    open spec fn wf(&self) -> bool {
        let es = skiplist::entry_views(self.entries@);
        &&& self.pos <= self.entries@.len()
        &&& key::sorted(es)
        &&& forall|i: int|
            0 <= i < es.len() ==> (#[trigger] es[i]).key.key.len() > 0 && es[i].key.ts == TS_DEFAULT
    }

    open spec fn remaining(&self) -> Seq<VEntry> {
        skiplist::entry_views(self.entries@).skip(self.pos as int)
    }

    open spec fn readable(&self) -> bool {
        true
    }

    open spec fn infallible(&self) -> bool {
        true
    }

    open spec fn stays_exhausted(&self) -> bool {
        true
    }

    open spec fn num_active(&self) -> nat {
        1
    }

    proof fn lemma_wf(&self) {
        let es = skiplist::entry_views(self.entries@);
        assert(key::is_suffix(self.remaining(), es));
        table::iterator::lemma_suffix_sorted(self.remaining(), es);
    }

    fn value(&self) -> (r: &[u8])
        ensures
            self.remaining().len() == 0 ==> r@.len() == 0,
    {
        if self.pos < self.entries.len() {
            self.entries[self.pos].1.as_slice()
        } else {
            &[]
        }
    }

    fn key(&self) -> (r: &[u8])
        ensures
            self.remaining().len() == 0 ==> r@.len() == 0,
    {
        if self.pos < self.entries.len() {
            let r = self.entries[self.pos].0.key_ref();
            proof {
                let e = skiplist::entry_views(self.entries@)[self.pos as int];
                assert(self.remaining()[0] == e);
                assert(e.key =~= VKey { key: r@, ts: TS_DEFAULT });
            }
            return r;
        } else {
            &[]
        }
    }

    fn is_valid(&self) -> (r: bool) {
        self.pos < self.entries.len()
    }

    fn next(&mut self) -> (r: Result<(), LsmError>)
        ensures
            r is Ok,
    {
        let ghost es = skiplist::entry_views(self.entries@);
        if self.pos < self.entries.len() {
            assert(es.skip(self.pos as int).drop_first() =~= es.skip(self.pos + 1));
            self.pos = self.pos + 1;
        }
        Ok(())
    }

    fn num_active_iterators(&self) -> (r: usize) {
        1
    }
}

/// An iterator over what a transaction sees.
pub struct TxnIterator {
    pub iter: TwoMergeIterator<TxnLocalIterator, FusedIterator<LsmIterator>>,
}

impl TxnIterator {
    /// The iterator walks what a transaction sees of a range.
    pub open spec fn walks(
        &self,
        local: Map<Seq<u8>, Seq<u8>>,
        m: Map<VKey, Seq<u8>>,
        lower: Bound<Seq<u8>>,
        upper: Bound<Seq<u8>>,
        read_ts: u64,
    ) -> bool {
        let all = merging::sorted_entries(txn_range(local, m, lower, upper, read_ts));
        &&& self.wf()
        &&& self.infallible()
        &&& self.remaining() == merging::live(all)
        &&& key::sorted(all)
        &&& merging::to_map(all) == txn_range(local, m, lower, upper, read_ts)
    }

    pub fn create(iter: TwoMergeIterator<TxnLocalIterator, FusedIterator<LsmIterator>>) -> (r: Result<
        Self,
        LsmError,
    >)
        requires
            iter.wf(),
        ensures
            iter.infallible() ==> r is Ok,
            r matches Ok(it) ==> it.wf() && it.remaining() == merging::live(iter.remaining()) && (
            iter.infallible() ==> it.infallible()),
    {
        let mut it = Self { iter };
        match it.skip_deleted() {
            Ok(()) => Ok(it),
            Err(e) => Err(e),
        }
    }

    /// Moves on to the first entry that is not deleted.
    fn skip_deleted(&mut self) -> (r: Result<(), LsmError>)
        requires
            old(self).iter.wf(),
        ensures
            old(self).iter.infallible() ==> r is Ok && final(self).iter.infallible(),
            r is Ok ==> final(self).wf() && merging::live(final(self).iter.remaining())
                == merging::live(old(self).iter.remaining()),
            r is Ok && old(self).iter.stays_exhausted() ==> final(self).iter.stays_exhausted(),
    {
        let ghost t = self.iter.remaining();
        let mut done = false;
        while !done
            invariant
                self.iter.wf(),
                t == old(self).iter.remaining(),
                merging::live(self.iter.remaining()) == merging::live(t),
                old(self).iter.infallible() ==> self.iter.infallible(),
                old(self).iter.stays_exhausted() ==> self.iter.stays_exhausted(),
                done ==> self.wf(),
            decreases self.iter.remaining().len(), (if done {
                    0int
                } else {
                    1int
                }),
        {
            proof {
                self.iter.lemma_wf();
            }
            if self.iter.is_valid() && self.iter.value().len() == 0 {
                match self.iter.next() {
                    Ok(()) => {},
                    Err(e) => {
                        return Err(e);
                    },
                }
            } else {
                done = true;
            }
        }
        Ok(())
    }
}

impl StorageIterator for TxnIterator {
    type KeyType<'a> = &'a [u8];

    open spec fn wf(&self) -> bool {
        let s = self.iter.remaining();
        self.iter.wf() && (s.len() > 0 ==> s[0].value.len() > 0)
    }

    open spec fn remaining(&self) -> Seq<VEntry> {
        merging::live(self.iter.remaining())
    }

    open spec fn readable(&self) -> bool {
        self.iter.readable()
    }

    open spec fn infallible(&self) -> bool {
        self.iter.infallible()
    }

    open spec fn stays_exhausted(&self) -> bool {
        self.iter.stays_exhausted()
    }

    open spec fn num_active(&self) -> nat {
        self.iter.num_active()
    }

    proof fn lemma_wf(&self) {
        self.iter.lemma_wf();
        merging::lemma_live(self.iter.remaining());
    }

    fn value(&self) -> (r: &[u8]) {
        self.iter.value()
    }

    fn key(&self) -> (r: Self::KeyType<'_>) {
        self.iter.key()
    }

    fn is_valid(&self) -> (r: bool) {
        self.iter.is_valid()
    }

    fn next(&mut self) -> (r: Result<(), LsmError>) {
        let ghost s = self.iter.remaining();
        match self.iter.next() {
            Ok(()) => {},
            Err(e) => {
                return Err(e);
            },
        }
        proof {
            if s.len() > 0 {
                assert(merging::live(s).drop_first() =~= merging::live(s.drop_first()));
            }
        }
        self.skip_deleted()
    }

    fn num_active_iterators(&self) -> (r: usize) {
        self.iter.num_active_iterators()
    }
}

/// A transaction's scan shows a user key of the range exactly where a get finds it, and with the
/// same value.
pub proof fn lemma_scan_shows_what_get_finds(
    it: TxnIterator,
    local: Map<Seq<u8>, Seq<u8>>,
    m: Map<VKey, Seq<u8>>,
    lower: Bound<Seq<u8>>,
    upper: Bound<Seq<u8>>,
    read_ts: u64,
    k: Seq<u8>,
)
    requires
        it.walks(local, m, lower, upper, read_ts),
    ensures
        ({
            let u = VKey { key: k, ts: TS_DEFAULT };
            let found = txn_seen(local, m, k, read_ts);
            let scanned = merging::to_map(it.remaining());
            &&& scanned.contains_key(u) <==> bound::above(lower, k) && bound::below(upper, k)
                && found is Some
            &&& scanned.contains_key(u) ==> scanned[u] == found->0
        }),
{
    let all = merging::sorted_entries(txn_range(local, m, lower, upper, read_ts));
    let u = VKey { key: k, ts: TS_DEFAULT };
    merging::lemma_live(all);
    assert(merging::to_map(it.remaining()).contains_key(u) <==> merging::to_map(all).contains_key(u)
        && merging::to_map(all)[u].len() > 0);
}

impl LsmStorageInner {
    /// Begins a transaction that reads at the timestamp of the latest commit.
    pub fn new_txn(&mut self) -> (r: Transaction)
        ensures
            r.wf(),
            r.read_ts == old(self).mvcc.ts.0,
            r.local() == Map::<Seq<u8>, Seq<u8>>::empty(),
            !r.committed,
            final(self).state == old(self).state,
            final(self).next_sst_id == old(self).next_sst_id,
            final(self).same_settings(*old(self)),
            final(self).mvcc.ts.0 == old(self).mvcc.ts.0,
            final(self).mvcc.ts.1.readers@ == old(self).mvcc.ts.1.readers@.push(
                old(self).mvcc.ts.0,
            ),
    {
        self.mvcc.new_txn()
    }

    /// Walk the keys of a range, as a transaction sees them.
    pub fn scan_with_txn(&self, txn: &Transaction, lower: Bound<&[u8]>, upper: Bound<&[u8]>) -> (r:
        Result<TxnIterator, LsmError>)
        requires
            self.wf(),
            txn.wf(),
        ensures
            r matches Ok(it) && it.walks(
                txn.local(),
                self.contents(),
                lower.bytes(),
                upper.bytes(),
                txn.read_ts,
            ),
    {
        let lsm_iter = match self.create_reader_iter(lower, upper, txn.read_ts) {
            Ok(iter) => iter,
            Err(e) => {
                return Err(e);
            },
        };
        let txn_local_iter = TxnLocalIterator::create(txn, lower, upper);
        proof {
            lsm_iter.lemma_wf();
            txn_local_iter.lemma_wf();
            merging::lemma_merge2_map(txn_local_iter.remaining(), lsm_iter.remaining());
            merging::lemma_merge2_sorted(txn_local_iter.remaining(), lsm_iter.remaining());
            merging::lemma_sorted_entries(
                merging::merge2(txn_local_iter.remaining(), lsm_iter.remaining()),
            );
        }
        match TwoMergeIterator::create(txn_local_iter, lsm_iter) {
            Ok(iter) => TxnIterator::create(iter),
            Err(e) => Err(e),
        }
    }

    /// Walk the keys of a range, as of the latest commit. Counts as a reader at the timestamp that
    /// is handed out beside the iterator.
    pub fn scan(&mut self, lower: Bound<&[u8]>, upper: Bound<&[u8]>) -> (r: Result<
        (TxnIterator, u64),
        LsmError,
    >)
        requires
            old(self).wf(),
        ensures
            r matches Ok((it, ts)) && ts == old(self).mvcc.ts.0 && it.wf() && it.infallible()
                && it.remaining() == merging::sorted_entries(
                read::range_seen(
                    old(self).contents(),
                    lower.bytes(),
                    upper.bytes(),
                    old(self).mvcc.ts.0,
                ),
            ) && merging::to_map(it.remaining()) == read::range_seen(
                old(self).contents(),
                lower.bytes(),
                upper.bytes(),
                old(self).mvcc.ts.0,
            ),
            final(self).state == old(self).state,
            final(self).next_sst_id == old(self).next_sst_id,
            final(self).same_settings(*old(self)),
            final(self).mvcc.ts.0 == old(self).mvcc.ts.0,
            final(self).mvcc.ts.1.readers@ == old(self).mvcc.ts.1.readers@.push(
                old(self).mvcc.ts.0,
            ),
    {
        let txn = self.new_txn();
        match self.scan_with_txn(&txn, lower, upper) {
            Ok(it) => {
                proof {
                    lemma_scan_without_writes(
                        it,
                        self.contents(),
                        lower.bytes(),
                        upper.bytes(),
                        txn.read_ts,
                    );
                }
                Ok((it, txn.read_ts))
            },
            Err(e) => Err(e),
        }
    }
}

/// Without writes of its own, a transaction's scan shows what a reader sees.
proof fn lemma_scan_without_writes(
    it: TxnIterator,
    m: Map<VKey, Seq<u8>>,
    lower: Bound<Seq<u8>>,
    upper: Bound<Seq<u8>>,
    read_ts: u64,
)
    requires
        it.walks(Map::empty(), m, lower, upper, read_ts),
    ensures
        merging::to_map(it.remaining()) == read::range_seen(m, lower, upper, read_ts),
        it.remaining() == merging::sorted_entries(read::range_seen(m, lower, upper, read_ts)),
{
    let want = read::range_seen(m, lower, upper, read_ts);
    let none = local_range(Map::empty(), lower, upper);
    assert(want.union_prefer_right(none) =~= want);
    let all = merging::sorted_entries(txn_range(Map::empty(), m, lower, upper, read_ts));
    merging::lemma_live(all);
    assert(merging::to_map(merging::live(all)) =~= want);
    merging::lemma_sorted_entries(merging::live(all));
}

/// The only entry for a user key is the last one.
proof fn lemma_only_write(es: Seq<VEntry>, ts: u64, k: Seq<u8>, i: int)
    requires
        0 <= i < es.len(),
        es[i].key.key == k,
        forall|j: int| 0 <= j < es.len() && j != i ==> (#[trigger] es[j]).key.key != k,
    ensures
        laws::last_write(at_ts(es, ts), k) == Some(es[i].value),
    decreases es.len(),
{
    let all = at_ts(es, ts);
    assert(all.drop_last() =~= at_ts(es.drop_last(), ts));
    if i < es.len() - 1 {
        let front = es.drop_last();
        assert(es[es.len() - 1].key.key != k);
        assert forall|j: int| 0 <= j < front.len() && j != i implies (#[trigger] front[j]).key.key
            != k by {
            assert(front[j] == es[j]);
        }
        lemma_only_write(front, ts, k, i);
    }
}

/// Without an entry for a user key there is no last one.
proof fn lemma_no_write(es: Seq<VEntry>, ts: u64, k: Seq<u8>)
    requires
        forall|j: int| 0 <= j < es.len() ==> (#[trigger] es[j]).key.key != k,
    ensures
        laws::last_write(at_ts(es, ts), k) is None,
    decreases es.len(),
{
    if es.len() > 0 {
        let all = at_ts(es, ts);
        let front = es.drop_last();
        assert(all.drop_last() =~= at_ts(front, ts));
        assert(es[es.len() - 1].key.key != k);
        assert forall|j: int| 0 <= j < front.len() implies (#[trigger] front[j]).key.key != k by {
            assert(front[j] == es[j]);
        }
        lemma_no_write(front, ts, k);
    }
}

/// After a transaction has committed, a reader at the latest commit sees what the transaction wrote,
/// and of other user keys what was there before. A reader at an earlier timestamp sees what it saw
/// before the commit.
pub proof fn lemma_commit_then_read(
    txn: Transaction,
    before: LsmStorageInner,
    after: LsmStorageInner,
    r: Seq<Action>,
    k: Seq<u8>,
    read_ts: u64,
)
    requires
        txn.wf(),
        key::sorted(txn.pending()),
        merging::to_map(txn.pending()) == skiplist::versions(txn.local_storage),
        before.mvcc.ts.0 < u64::MAX,
        before.wf(),
        after.written(before, at_ts(txn.pending(), (before.mvcc.ts.0 + 1) as u64), r),
    ensures
        laws::no_newer(after.contents(), after.mvcc.ts.0),
        read::seen(after.contents(), k, after.mvcc.ts.0) == txn_seen(
            txn.local(),
            before.contents(),
            k,
            before.mvcc.ts.0,
        ),
        read_ts <= before.mvcc.ts.0 ==> read::seen(after.contents(), k, read_ts) == read::seen(
            before.contents(),
            k,
            read_ts,
        ),
{
    let es = txn.pending();
    let ts = (before.mvcc.ts.0 + 1) as u64;
    let m = skiplist::versions(txn.local_storage);
    let u = VKey { key: k, ts: TS_DEFAULT };
    assert forall|i: int| 0 <= i < es.len() implies (#[trigger] es[i]).key.ts == TS_DEFAULT by {
        merging::lemma_to_map_contains(es, es[i].key);
        assert(m.contains_key(es[i].key));
    }
    laws::lemma_write_then_read(before, after, at_ts(es, ts), r, k, read_ts);
    merging::lemma_to_map_contains(es, u);
    if m.contains_key(u) {
        let i = choose|i: int| 0 <= i < es.len() && (#[trigger] es[i]).key == u;
        assert forall|j: int| 0 <= j < es.len() && j != i implies (#[trigger] es[j]).key.key
            != k by {
            assert(es[j].key.ts == TS_DEFAULT);
            key::lemma_key_lt_irreflexive(u);
            if es[j].key.key == k {
                assert(es[j].key =~= u);
                if i < j {
                    assert(key::key_lt(es[i].key, es[j].key));
                } else {
                    assert(key::key_lt(es[j].key, es[i].key));
                }
            }
        }
        lemma_only_write(es, ts, k, i);
    } else {
        assert forall|j: int| 0 <= j < es.len() implies (#[trigger] es[j]).key.key != k by {
            if es[j].key.key == k {
                assert(es[j].key =~= u);
            }
        }
        lemma_no_write(es, ts, k);
    }
}

} // verus!
