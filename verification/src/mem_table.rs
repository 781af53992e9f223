//! In-memory tables.
use crossbeam_skiplist::SkipMap;
use vstd::prelude::*;

use crate::bound::Bound;
use crate::error::LsmError;
use crate::iterators::merging;
use crate::iterators::StorageIterator;
use crate::key::{KeyBytes, KeySlice, VEntry, VKey, TS_DEFAULT};
use crate::skiplist::{
    all_versions, get_version, new_versions, no_versions, put_version, range_versions,
};
use crate::table::SsTableBuilder;
use crate::wal::Wal;
use crate::{block, bound, key, skiplist, table, wal};

verus! {

broadcast use crate::key::group_models;

/// A basic mem-table based on crossbeam-skiplist.
pub struct MemTable {
    pub map: SkipMap<(Vec<u8>, u64), Vec<u8>>,
    pub wal: Option<Wal>,
    pub id: usize,
    pub approximate_size: usize,
}

/// The approximate size after entries have been put: for each, the lengths of its key, its
/// timestamp and its value, wrapping around on overflow.
pub open spec fn size_after(size: usize, es: Seq<VEntry>) -> usize
    decreases es.len(),
{
    if es.len() == 0 {
        size
    } else {
        ((size_after(size, es.drop_last()) + es.last().key.key.len() + 8 + es.last().value.len())
            % (usize::MAX + 1)) as usize
    }
}

/// The bytes of entries: their keys, timestamps and values.
pub open spec fn bytes_of(es: Seq<VEntry>) -> int {
    es.fold_left(0int, |n: int, e: VEntry| n + e.key.key.len() + 8 + e.value.len())
}

/// The approximate size of a mem-table grows by the bytes of what is put into it, as long as it
/// doesn't wrap around.
pub proof fn lemma_size_after(size: usize, es: Seq<VEntry>)
    ensures
        0 <= bytes_of(es),
        es.len() > 0 ==> bytes_of(es) == bytes_of(es.drop_last()) + es.last().key.key.len() + 8
            + es.last().value.len(),
        size + bytes_of(es) <= usize::MAX ==> size_after(size, es) == size + bytes_of(es),
    decreases es.len(),
{
    if es.len() > 0 {
        lemma_size_after(size, es.drop_last());
        if size + bytes_of(es) <= usize::MAX {
            lemma_wraps(
                size_after(size, es.drop_last()),
                (es.last().key.key.len() + 8 + es.last().value.len()) as usize,
            );
        }
    }
}

/// Wrapping around leaves the remainder.
proof fn lemma_wraps(a: usize, b: usize)
    ensures
        (a + b) % (usize::MAX + 1) == if a + b > usize::MAX {
            a + b - (usize::MAX + 1)
        } else {
            a + b
        },
{
    let m = usize::MAX + 1;
    if a + b > usize::MAX {
        vstd::arithmetic::div_mod::lemma_mod_sub_multiples_vanish(a + b, m);
        vstd::arithmetic::div_mod::lemma_small_mod((a + b - m) as nat, m as nat);
    } else {
        vstd::arithmetic::div_mod::lemma_small_mod((a + b) as nat, m as nat);
    }
}

impl MemTable {
    /// The versions in the table.
    pub open spec fn contents(&self) -> Map<VKey, Seq<u8>> {
        skiplist::versions(self.map)
    }

    /// Blocks can hold all entries.
    pub open spec fn fits(&self) -> bool {
        forall|k: VKey| #[trigger]
            self.contents().contains_key(k) ==> block::entry_fits(
                VEntry { key: k, value: self.contents()[k] },
            )
    }

    /// No key is empty.
    pub open spec fn no_empty_key(&self) -> bool {
        forall|k: VKey| #[trigger] self.contents().contains_key(k) ==> k.key.len() > 0
    }

    /// Create a new mem-table.
    pub fn create(id: usize) -> (r: Self)
        ensures
            r.id == id,
            r.contents() == Map::<VKey, Seq<u8>>::empty(),
            r.wal is None,
            r.approximate_size == 0,
    {
        Self { map: new_versions(), wal: None, id, approximate_size: 0 }
    }

    /// Create a new mem-table with WAL
    pub fn create_with_wal(id: usize) -> (r: Self)
        ensures
            r.id == id,
            r.contents() == Map::<VKey, Seq<u8>>::empty(),
            r.wal matches Some(w) && w.max_ts == 0,
            r.approximate_size == 0,
    {
        Self { map: new_versions(), wal: Some(Wal::create()), id, approximate_size: 0 }
    }

    /// Create a memtable from the bytes of a WAL
    pub fn recover_from_wal(id: usize, log: &[u8]) -> (r: Result<Self, LsmError>)
        ensures
            match wal::replay(log@, 0) {
                Ok(es) => r matches Ok(t) && t.id == id && t.contents() == wal::put_all(
                    Map::empty(),
                    es,
                ) && t.approximate_size == 0 && (t.wal matches Some(w) && w.max_ts
                    == table::max_ts_of(es)),
                Err(e) => r == Err::<Self, LsmError>(e),
            },
    {
        let mut map = new_versions();
        match Wal::recover(log, &mut map) {
            Ok(wal) => Ok(Self { map, wal: Some(wal), id, approximate_size: 0 }),
            Err(e) => Err(e),
        }
    }

    pub fn for_testing_put_slice(&mut self, key: &[u8], value: &[u8]) -> (r: Vec<u8>)
        requires
            20 + key@.len() + value@.len() <= usize::MAX,
        ensures
            final(self).contents() == old(self).contents().insert(
                VKey { key: key@, ts: TS_DEFAULT },
                value@,
            ),
            final(self).id == old(self).id,
            final(self).approximate_size == size_after(
                old(self).approximate_size,
                seq![VEntry { key: VKey { key: key@, ts: TS_DEFAULT }, value: value@ }],
            ),
            logged(
                *old(self),
                *final(self),
                seq![VEntry { key: VKey { key: key@, ts: TS_DEFAULT }, value: value@ }],
                r@,
            ),
    {
        self.put(KeySlice::from_slice(key, TS_DEFAULT), value)
    }

    pub fn for_testing_get_slice(&self, key: &[u8]) -> (r: Option<Vec<u8>>)
        ensures
            r is Some <==> self.contents().contains_key(VKey { key: key@, ts: TS_DEFAULT }),
            r matches Some(v) ==> v@ == self.contents()[VKey { key: key@, ts: TS_DEFAULT }],
    {
        self.get(KeySlice::from_slice(key, TS_DEFAULT))
    }

    pub fn for_testing_scan_slice(&self, lower: Bound<&[u8]>, upper: Bound<&[u8]>) -> (r:
        MemTableIterator)
        requires
            self.no_empty_key(),
        ensures
            r.wf(),
            r.remaining() == merging::sorted_entries(
                skiplist::versions_within(
                    self.map,
                    bound::key_bound(lower.bytes(), TS_DEFAULT),
                    bound::key_bound(upper.bytes(), TS_DEFAULT),
                ),
            ),
    {
        self.scan(lower.at_ts(TS_DEFAULT), upper.at_ts(TS_DEFAULT))
    }

    /// The largest timestamp in the WAL, or 0 without one.
    pub fn get_max_ts(&self) -> (r: u64)
        ensures
            r == match self.wal {
                Some(w) => w.max_ts,
                None => 0,
            },
    {
        match &self.wal {
            Some(w) => w.get_max_ts(),
            None => 0,
        }
    }

    /// Get a value by key.
    pub fn get(&self, key: KeySlice) -> (r: Option<Vec<u8>>)
        ensures
            r is Some <==> self.contents().contains_key(key@),
            r matches Some(v) ==> v@ == self.contents()[key@],
    {
        get_version(&self.map, key)
    }

    /// Put a key-value pair into the mem-table. Returns the bytes to append to the WAL first.
    pub fn put(&mut self, key: KeySlice, value: &[u8]) -> (r: Vec<u8>)
        requires
            20 + key@.key.len() + value@.len() <= usize::MAX,
        ensures
            final(self).contents() == old(self).contents().insert(key@, value@),
            final(self).id == old(self).id,
            final(self).approximate_size == size_after(
                old(self).approximate_size,
                seq![VEntry { key: key@, value: value@ }],
            ),
            old(self).approximate_size + key@.key.len() + 8 + value@.len() <= usize::MAX ==> final(self).approximate_size == old(self).approximate_size + key@.key.len() + 8 + value@.len(),
            logged(*old(self), *final(self), seq![VEntry { key: key@, value: value@ }], r@),
    {
        let data: [(KeySlice, &[u8]); 1] = [(key, value)];
        let ghost e = VEntry { key: key@, value: value@ };
        proof {
            let es = seq![e];
            assert(wal::batch_views(data@) =~= es);
            assert(es.drop_last() =~= Seq::empty());
            lemma_size_after(old(self).approximate_size, es);
            lemma_size_after(old(self).approximate_size, es.drop_last());
            assert(wal::record_chunks(es).drop_last() =~= Seq::empty());
            crate::codec::lemma_le_len(e.key.key.len(), 2);
            crate::codec::lemma_le_len(e.key.ts as nat, 8);
            crate::codec::lemma_le_len(e.value.len(), 2);
            assert(wal::batch_body(es) =~= wal::record_bytes(e)) by {
                assert(wal::record_chunks(es).last() == wal::record_bytes(e));
                assert(crate::codec::concat(wal::record_chunks(es).drop_last()) =~= Seq::empty());
            }
            assert(wal::put_all(self.contents(), es.drop_last()) == self.contents());
        }
        self.put_batch(data.as_slice())
    }

    /// Puts a batch into the mem-table. Returns the bytes to append to the WAL first.
    pub fn put_batch(&mut self, data: &[(KeySlice, &[u8])]) -> (r: Vec<u8>)
        requires
            wal::batch_body(wal::batch_views(data@)).len() <= usize::MAX,
            forall|i: int|
                0 <= i < data@.len() ==> 8 + (#[trigger] data@[i]).0@.key.len() + data@[i].1@.len()
                    <= usize::MAX,
        ensures
            final(self).contents() == wal::put_all(
                old(self).contents(),
                wal::batch_views(data@),
            ),
            final(self).id == old(self).id,
            final(self).approximate_size == size_after(
                old(self).approximate_size,
                wal::batch_views(data@),
            ),
            old(self).approximate_size + bytes_of(wal::batch_views(data@)) <= usize::MAX ==> final(self).approximate_size == old(self).approximate_size + bytes_of(wal::batch_views(data@)),
            logged(*old(self), *final(self), wal::batch_views(data@), r@),
    {
        let ghost es = wal::batch_views(data@);
        let mut log: Vec<u8> = Vec::new();
        let taken = self.wal.take();
        match taken {
            Some(w) => {
                let mut w = w;
                log = w.put_batch(data);
                self.wal = Some(w);
            },
            None => {},
        }
        let ghost wal_now = self.wal;
        let mut i: usize = 0;
        assert(es.take(0) =~= Seq::empty());
        while i < data.len()
            invariant
                i <= data@.len(),
                es == wal::batch_views(data@),
                forall|j: int|
                    0 <= j < data@.len() ==> 8 + (#[trigger] data@[j]).0@.key.len()
                        + data@[j].1@.len() <= usize::MAX,
                self.contents() == wal::put_all(old(self).contents(), es.take(i as int)),
                self.approximate_size == size_after(
                    old(self).approximate_size,
                    es.take(i as int),
                ),
                self.id == old(self).id,
                self.wal == wal_now,
            decreases data@.len() - i,
        {
            let key: KeySlice = data[i].0;
            let value: &[u8] = data[i].1;
            let entry_len: usize = key.key_len() + 8 + value.len();
            put_version(&mut self.map, key, value);
            self.approximate_size = self.approximate_size.wrapping_add(entry_len);
            proof {
                let n = i as int;
                assert(es.take(n + 1) =~= es.take(n).push(es[n]));
                wal::lemma_put_all_push(old(self).contents(), es.take(n), es[n]);
                assert(es.take(n + 1).drop_last() =~= es.take(n));
                lemma_wraps(
                    size_after(old(self).approximate_size, es.take(n)),
                    entry_len,
                );
            }
            i = i + 1;
        }
        assert(es.take(i as int) =~= es);
        proof {
            lemma_size_after(old(self).approximate_size, es);
        }
        log
    }

    /// Get an iterator over a range of keys.
    pub fn scan(&self, lower: Bound<KeySlice>, upper: Bound<KeySlice>) -> (r: MemTableIterator)
        requires
            self.no_empty_key(),
        ensures
            r.wf(),
            r.remaining() == merging::sorted_entries(
                skiplist::versions_within(self.map, lower.keys(), upper.keys()),
            ),
            merging::to_map(r.remaining()) == skiplist::versions_within(
                self.map,
                lower.keys(),
                upper.keys(),
            ),
    {
        let entries = range_versions(&self.map, lower, upper);
        let r = MemTableIterator { entries, pos: 0 };
        proof {
            let es = skiplist::entry_views(r.entries@);
            assert(r.remaining() =~= es);
            merging::lemma_sorted_entries(es);
            assert forall|i: int| 0 <= i < es.len() implies (#[trigger] es[i]).key.key.len() > 0 by {
                merging::lemma_to_map_contains(es, es[i].key);
                assert(merging::to_map(es).contains_key(es[i].key));
                assert(self.contents().contains_key(es[i].key));
            }
        }
        r
    }

    /// Flush the mem-table to SSTable.
    pub fn flush(&self, builder: &mut SsTableBuilder)
        requires
            old(builder).wf(),
            self.fits(),
        ensures
            final(builder).wf(),
            final(builder).block_size == old(builder).block_size,
            final(builder).entries() == old(builder).entries() + merging::sorted_entries(
                self.contents(),
            ),
            key::sorted(merging::sorted_entries(self.contents())),
            merging::to_map(merging::sorted_entries(self.contents())) == self.contents(),
            old(builder).spread_ok() ==> final(builder).spread_ok(),
    {
        let entries = all_versions(&self.map);
        let ghost es = skiplist::entry_views(entries@);
        proof {
            merging::lemma_sorted_entries(es);
            assert forall|i: int| 0 <= i < es.len() implies block::entry_fits(#[trigger] es[i]) by {
                merging::lemma_to_map_contains(es, es[i].key);
                assert(merging::to_map(es).contains_key(es[i].key));
                assert(self.contents().contains_key(es[i].key));
                assert(es[i] =~= VEntry { key: es[i].key, value: self.contents()[es[i].key] });
            }
        }
        let mut i: usize = 0;
        assert(old(builder).entries() + es.take(0) =~= old(builder).entries());
        while i < entries.len()
            invariant
                i <= entries@.len(),
                es == skiplist::entry_views(entries@),
                builder.wf(),
                builder.block_size == old(builder).block_size,
                forall|j: int| 0 <= j < es.len() ==> block::entry_fits(#[trigger] es[j]),
                builder.entries() == old(builder).entries() + es.take(i as int),
                old(builder).spread_ok() ==> builder.spread_ok(),
            decreases entries@.len() - i,
        {
            assert(block::entry_fits(es[i as int]));
            builder.add(entries[i].0.as_key_slice(), entries[i].1.as_slice());
            assert(old(builder).entries() + es.take(i + 1) =~= (old(builder).entries() + es.take(
                i as int,
            )).push(es[i as int]));
            i = i + 1;
        }
        assert(es.take(i as int) =~= es);
    }

    /// Whether blocks can hold all entries.
    pub fn all_fit(&self) -> (r: bool)
        ensures
            r == self.fits(),
    {
        let entries = all_versions(&self.map);
        let ghost es = skiplist::entry_views(entries@);
        let mut i: usize = 0;
        while i < entries.len()
            invariant
                i <= entries@.len(),
                es == skiplist::entry_views(entries@),
                key::sorted(es),
                merging::to_map(es) == self.contents(),
                forall|j: int| 0 <= j < i ==> block::entry_fits(#[trigger] es[j]),
            decreases entries@.len() - i,
        {
            let key_len: usize = entries[i].0.key_len();
            let value_len: usize = entries[i].1.len();
            if key_len == 0 || key_len > block::MAX_KEY_LEN || value_len > block::MAX_VALUE_LEN {
                proof {
                    let e = es[i as int];
                    merging::lemma_to_map_contains(es, e.key);
                    assert(self.contents().contains_key(e.key));
                    assert(self.contents()[e.key] == e.value);
                    assert(!block::entry_fits(VEntry { key: e.key, value: e.value }));
                }
                return false;
            }
            assert(block::entry_fits(es[i as int]));
            i = i + 1;
        }
        proof {
            assert forall|k: VKey| #[trigger] self.contents().contains_key(k) implies block::entry_fits(
                VEntry { key: k, value: self.contents()[k] },
            ) by {
                merging::lemma_to_map_contains(es, k);
                let j = choose|j: int| 0 <= j < es.len() && (#[trigger] es[j]).key == k;
                assert(block::entry_fits(es[j]));
            }
        }
        true
    }

    pub fn id(&self) -> (r: usize)
        ensures
            r == self.id,
    {
        self.id
    }

    pub fn approximate_size(&self) -> (r: usize)
        ensures
            r == self.approximate_size,
    {
        self.approximate_size
    }

    /// Whether there is no entry.
    pub fn is_empty(&self) -> (r: bool)
        ensures
            r == (self.contents() == Map::<VKey, Seq<u8>>::empty()),
    {
        no_versions(&self.map)
    }
}

/// The bytes to append to the WAL for a batch, and the WAL's largest timestamp after it.
pub open spec fn logged(before: MemTable, after: MemTable, es: Seq<VEntry>, log: Seq<u8>) -> bool {
    match before.wal {
        Some(w) => {
            &&& log == wal::batch_bytes(es)
            &&& after.wal matches Some(v) && v.max_ts == if table::max_ts_of(es) > w.max_ts {
                table::max_ts_of(es)
            } else {
                w.max_ts
            }
        },
        None => log.len() == 0 && after.wal is None,
    }
}

/// An iterator over a range of a mem-table.
pub struct MemTableIterator {
    /// The entries of the range.
    pub entries: Vec<(KeyBytes, Vec<u8>)>,
    /// The position of the current entry.
    pub pos: usize,
}

impl StorageIterator for MemTableIterator {
    type KeyType<'a> = KeySlice<'a>;

    open spec fn wf(&self) -> bool {
        let es = skiplist::entry_views(self.entries@);
        &&& self.pos <= self.entries@.len()
        &&& key::sorted(es)
        &&& forall|i: int| 0 <= i < es.len() ==> (#[trigger] es[i]).key.key.len() > 0
    }

    open spec fn remaining(&self) -> Seq<VEntry> {
        skiplist::entry_views(self.entries@).skip(self.pos as int)
    }

    open spec fn readable(&self) -> bool {
        true
    }

    open spec fn infallible(&self) -> bool {
        true
    }

    open spec fn stays_exhausted(&self) -> bool {
        true
    }

    open spec fn num_active(&self) -> nat {
        1
    }

    proof fn lemma_wf(&self) {
        let es = skiplist::entry_views(self.entries@);
        assert(key::is_suffix(self.remaining(), es));
        table::iterator::lemma_suffix_sorted(self.remaining(), es);
    }

    fn value(&self) -> (r: &[u8])
        ensures
            self.remaining().len() == 0 ==> r@.len() == 0,
    {
        if self.pos < self.entries.len() {
            self.entries[self.pos].1.as_slice()
        } else {
            &[]
        }
    }

    fn key(&self) -> (r: KeySlice<'_>)
        ensures
            self.remaining().len() == 0 ==> r@ == (VKey { key: Seq::empty(), ts: TS_DEFAULT }),
    {
        if self.pos < self.entries.len() {
            self.entries[self.pos].0.as_key_slice()
        } else {
            let r = KeySlice::from_slice(&[], TS_DEFAULT);
            assert(r@.key =~= Seq::empty());
            r
        }
    }

    /// Returns whether there is still a valid value.
    fn is_valid(&self) -> (r: bool) {
        self.pos < self.entries.len()
    }

    /// Forwards cursor one step.
    fn next(&mut self) -> (r: Result<(), LsmError>)
        ensures
            r is Ok,
            old(self).remaining().len() == 0 ==> final(self).remaining().len() == 0,
    {
        let ghost es = skiplist::entry_views(self.entries@);
        if self.pos < self.entries.len() {
            assert(es.skip(self.pos as int).drop_first() =~= es.skip(self.pos + 1));
            self.pos = self.pos + 1;
        }
        Ok(())
    }

    fn num_active_iterators(&self) -> (r: usize) {
        1
    }
}

} // verus!
