//! Walking tables.
use std::sync::Arc;

use vstd::prelude::*;

use crate::block::iterator::BlockIterator;
use crate::error::LsmError;
use crate::iterators::StorageIterator;
use crate::key::{KeySlice, VEntry, VKey};
use crate::table::SsTable;
use crate::{block, key};

verus! {

broadcast use crate::key::group_models;

/// An iterator over the contents of an SSTable.
pub struct SsTableIterator {
    pub table: Arc<SsTable>,
    pub blk_iter: BlockIterator,
    pub blk_idx: usize,
}

/// The entries of the blocks before block `i`.
spec fn before(t: &SsTable, i: int) -> Seq<VEntry>
    decreases i,
{
    if i <= 0 {
        Seq::empty()
    } else {
        before(t, i - 1) + t.block(i - 1)
    }
}

proof fn lemma_before(t: &SsTable, i: int)
    requires
        0 <= i <= t.metas().len(),
    ensures
        t.entries() == before(t, i) + t.from_block(i),
    decreases i,
{
    if i > 0 {
        lemma_before(t, i - 1);
        assert(t.from_block(i - 1) == t.block(i - 1) + t.from_block(i));
        assert(before(t, i - 1) + t.from_block(i - 1) =~= before(t, i) + t.from_block(i));
    } else {
        assert(before(t, 0) + t.from_block(0) =~= t.entries());
    }
}

/// What is left of sorted entries is sorted.
pub proof fn lemma_suffix_sorted(s: Seq<VEntry>, all: Seq<VEntry>)
    requires
        key::sorted(all),
        key::is_suffix(s, all),
    ensures
        key::sorted(s),
{
    let d = all.len() - s.len();
    assert forall|i: int, j: int| #![trigger s[i], s[j]] 0 <= i < j < s.len() implies key::key_lt(
        s[i].key,
        s[j].key,
    ) by {
        assert(s[i] == all[i + d]);
        assert(s[j] == all[j + d]);
    }
}

/// Entries of blocks whose last keys are before `k` are before `k`.
proof fn lemma_before_is_before(t: &SsTable, i: int, k: VKey)
    requires
        t.wf(),
        0 <= i <= t.metas().len(),
        forall|j: int| 0 <= j < i ==> key::key_lt((#[trigger] t.metas()[j]).last_key, k),
    ensures
        forall|j: int| 0 <= j < before(t, i).len() ==> key::key_lt((#[trigger] before(t, i)[j]).key, k),
    decreases i,
{
    if i > 0 {
        lemma_before_is_before(t, i - 1, k);
        let b = t.block(i - 1);
        let all = before(t, i);
        lemma_before(t, i);
        lemma_before(t, i - 1);
        assert(t.meta_keys_ok(i - 1));
        let d = before(t, i - 1).len() as int;
        assert(key::key_lt(t.metas()[i - 1].last_key, k));
        assert forall|j: int| 0 <= j < all.len() implies key::key_lt((#[trigger] all[j]).key, k) by {
            if j < d {
                assert(all[j] == before(t, i - 1)[j]);
            } else {
                assert(all[j] == b[j - d]);
                assert(t.entries()[j] == b[j - d]);
                assert(t.entries()[d + b.len() - 1] == b.last());
                if j - d < b.len() - 1 {
                    key::lemma_key_lt_transitive(b[j - d].key, b.last().key, k);
                }
            }
        }
    }
}

/// Seeking past a part that is wholly before the key.
pub proof fn lemma_seek_past(a: Seq<VEntry>, b: Seq<VEntry>, k: VKey)
    requires
        forall|i: int| 0 <= i < a.len() ==> key::key_lt((#[trigger] a[i]).key, k),
    ensures
        key::seek_index(a + b, k) == a.len() + key::seek_index(b, k),
    decreases a.len(),
{
    if a.len() == 0 {
        assert(a + b =~= b);
    } else {
        assert(key::key_lt(a[0].key, k));
        assert((a + b).drop_first() =~= a.drop_first() + b);
        assert forall|i: int| 0 <= i < a.drop_first().len() implies key::key_lt(
            (#[trigger] a.drop_first()[i]).key,
            k,
        ) by {
            assert(a.drop_first()[i] == a[i + 1]);
        }
        lemma_seek_past(a.drop_first(), b, k);
    }
}

/// Seeking to a key that the first part reaches.
pub proof fn lemma_seek_within(a: Seq<VEntry>, b: Seq<VEntry>, k: VKey)
    requires
        key::seek_index(a, k) < a.len(),
    ensures
        key::seek_index(a + b, k) == key::seek_index(a, k),
    decreases a.len(),
{
    if key::key_lt(a[0].key, k) {
        assert((a + b).drop_first() =~= a.drop_first() + b);
        lemma_seek_within(a.drop_first(), b, k);
    }
}

/// Blocks of a well-formed table follow one another in key order.
proof fn lemma_metas_sorted(t: &SsTable)
    requires
        t.wf(),
        t.metas().len() > 1,
    ensures
        t.metas_sorted(),
{
    let es = t.entries();
    assert forall|i: int| 0 <= i < t.metas().len() implies key::key_le(
        (#[trigger] t.metas()[i]).first_key,
        t.metas()[i].last_key,
    ) by {
        let b = t.block(i);
        assert(t.meta_keys_ok(i));
        lemma_before(t, i);
        let d = before(t, i).len() as int;
        assert(es[d] == b[0]);
        assert(es[d + b.len() - 1] == b.last());
    }
    assert forall|i: int, j: int| 0 <= i < j < t.metas().len() implies key::key_lt(
        (#[trigger] t.metas()[i]).last_key,
        (#[trigger] t.metas()[j]).first_key,
    ) by {
        let a = t.block(i);
        let b = t.block(j);
        assert(t.meta_keys_ok(i));
        assert(t.meta_keys_ok(j));
        lemma_before(t, i);
        lemma_before(t, i + 1);
        lemma_before(t, j);
        lemma_before_grows(t, i + 1, j);
        let c = before(t, i).len() as int;
        let d = before(t, j).len() as int;
        assert(es[c + a.len() - 1] == a.last());
        assert(es[d] == b[0]);
    }
}

proof fn lemma_before_grows(t: &SsTable, i: int, j: int)
    requires
        i <= j,
    ensures
        before(t, i).len() <= before(t, j).len(),
    decreases j - i,
{
    if i < j {
        lemma_before_grows(t, i, j - 1);
    }
}

impl SsTableIterator {
    pub open spec fn inv(&self) -> bool {
        let n = self.table.metas().len();
        &&& self.table.wf()
        &&& self.blk_idx <= n
        &&& self.blk_iter.wf()
        &&& self.blk_idx < n ==> self.blk_iter.block.entries() == self.table.block(
            self.blk_idx as int,
        )
        &&& self.blk_idx == n ==> self.blk_iter.remaining().len() == 0
            && self.blk_iter.after().len() == 0
        &&& self.blk_idx + 1 < n ==> self.blk_iter.remaining().len() > 0
    }

    /// The entries from the current one on.
    pub open spec fn rest(&self) -> Seq<VEntry> {
        self.blk_iter.remaining() + self.table.from_block(self.blk_idx + 1)
    }

    pub proof fn lemma_rest(&self)
        requires
            self.inv(),
        ensures
            key::is_suffix(self.rest(), self.table.entries()),
            key::sorted(self.rest()),
            self.blk_iter.remaining().len() == 0 <==> self.rest().len() == 0,
    {
        let t = &*self.table;
        let n = t.metas().len() as int;
        if self.blk_idx < n {
            let i = self.blk_idx as int;
            lemma_before(t, i);
            let b = t.block(i);
            let r = self.blk_iter.remaining();
            assert(t.from_block(i) == b + t.from_block(i + 1));
            assert(self.rest() =~= t.entries().skip(t.entries().len() - self.rest().len()));
        } else {
            assert(self.rest() =~= t.entries().skip(t.entries().len() as int));
        }
        lemma_suffix_sorted(self.rest(), t.entries());
    }

    /// Create a new iterator and seek to the first key-value pair in the first data block.
    pub fn create_and_seek_to_first(table: Arc<SsTable>) -> (r: Result<Self, LsmError>)
        requires
            table.wf() || table.block_meta@.len() == 0,
        ensures
            table.block_meta@.len() == 0 ==> r == Err::<Self, LsmError>(
                LsmError::BlockIndexOutOfBounds { index: 0, max: 0 },
            ),
            table.block_meta@.len() > 0 ==> r is Ok && r->Ok_0.inv() && r->Ok_0.table == table
                && r->Ok_0.rest() == table.entries(),
    {
        match table.read_block(0) {
            Ok(first_block) => {
                assert(table.parsed(0) is Ok);
                let blk_iter = BlockIterator::create_and_seek_to_first(first_block);
                Ok(Self { table, blk_iter, blk_idx: 0 })
            },
            Err(e) => {
                assert(table.block_meta@.len() > 0 ==> table.parsed(0) is Ok);
                Err(e)
            },
        }
    }

    /// Seek to the first key-value pair in the first data block.
    pub fn seek_to_first(&mut self) -> (r: Result<(), LsmError>)
        requires
            old(self).inv(),
        ensures
            r is Ok,
            final(self).inv(),
            final(self).table == old(self).table,
            final(self).rest() == old(self).table.entries(),
    {
        assert(self.table.parsed(0) is Ok);
        match self.table.read_block(0) {
            Ok(first_block) => {
                self.blk_iter = BlockIterator::create_and_seek_to_first(first_block);
                self.blk_idx = 0;
                Ok(())
            },
            Err(e) => Err(e),
        }
    }

    /// Create a new iterator and seek to the first key-value pair which >= `key`.
    pub fn create_and_seek_to_key(table: Arc<SsTable>, key: KeySlice) -> (r: Result<Self, LsmError>)
        requires
            table.wf() || table.block_meta@.len() == 0,
        ensures
            table.block_meta@.len() == 0 ==> r == Err::<Self, LsmError>(
                LsmError::BlockIndexOutOfBounds { index: 0, max: 0 },
            ),
            table.block_meta@.len() > 0 ==> r is Ok && r->Ok_0.inv() && r->Ok_0.table == table
                && r->Ok_0.rest() == table.entries().skip(key::seek_index(table.entries(), key@)),
    {
        match Self::create_and_seek_to_first(table) {
            Ok(iter) => {
                let mut iter = iter;
                match iter.seek_to_key(key) {
                    Ok(()) => Ok(iter),
                    Err(e) => Err(e),
                }
            },
            Err(e) => Err(e),
        }
    }

    /// Seek to the first key-value pair which >= `key`.
    pub fn seek_to_key(&mut self, key: KeySlice) -> (r: Result<(), LsmError>)
        requires
            old(self).inv(),
        ensures
            r is Ok,
            final(self).inv(),
            final(self).table == old(self).table,
            final(self).rest() == old(self).table.entries().skip(
                key::seek_index(old(self).table.entries(), key@),
            ),
    {
        let ghost t = self.table;
        let ghost n = t.metas().len() as int;
        proof {
            if n > 1 {
                lemma_metas_sorted(&*t);
            }
        }
        // The block with index i that block[i].first_key <= key < block[i + 1].first_key
        let l: usize = self.table.find_block_idx(key);
        let ghost b = t.block(l as int);
        let ghost rest = t.from_block(l + 1);
        proof {
            assert(t.parsed(l as int) is Ok);
            lemma_before(&*t, l as int);
            lemma_before_is_before(&*t, l as int, key@);
            lemma_seek_past(before(&*t, l as int), t.from_block(l as int), key@);
            key::lemma_seek_index(b, key@);
            assert(t.from_block(l as int) == b + rest);
            if l < n - 1 {
                assert(t.meta_keys_ok(l as int));
                assert(b.len() > 0);
                lemma_seek_within(b, rest, key@);
            } else {
                assert(b + rest =~= b);
            }
            let i = key::seek_index(b, key@);
            assert(b.skip(i) + rest =~= t.entries().skip(before(&*t, l as int).len() + i));
        }
        match self.table.read_block(l) {
            Ok(found) => {
                self.blk_iter = BlockIterator::create_and_seek_to_key(found, key);
                self.blk_idx = l;
                Ok(())
            },
            Err(e) => Err(e),
        }
    }
}

impl StorageIterator for SsTableIterator {
    type KeyType<'a> = KeySlice<'a>;

    open spec fn wf(&self) -> bool {
        self.inv()
    }

    open spec fn remaining(&self) -> Seq<VEntry> {
        self.rest()
    }

    open spec fn readable(&self) -> bool {
        true
    }

    open spec fn infallible(&self) -> bool {
        true
    }

    open spec fn stays_exhausted(&self) -> bool {
        false
    }

    open spec fn num_active(&self) -> nat {
        1
    }

    proof fn lemma_wf(&self) {
        self.lemma_rest();
    }

    /// Return the `key` that's held by the underlying block iterator.
    fn key(&self) -> (r: KeySlice<'_>)
        ensures
            self.remaining().len() == 0 ==> r@.key.len() == 0,
    {
        proof {
            assert(self.wf());
            self.lemma_rest();
        }
        self.blk_iter.key()
    }

    /// Return the `value` that's held by the underlying block iterator.
    fn value(&self) -> (r: &[u8])
        ensures
            self.remaining().len() == 0 ==> r@.len() == 0,
    {
        proof {
            assert(self.wf());
            self.lemma_rest();
        }
        self.blk_iter.value()
    }

    /// Return whether the current block iterator is valid or not.
    fn is_valid(&self) -> (r: bool) {
        proof {
            assert(self.wf());
            self.lemma_rest();
        }
        self.blk_iter.is_valid()
    }

    /// Move to the next `key` in the block.
    fn next(&mut self) -> (r: Result<(), LsmError>)
        ensures
            final(self).table == old(self).table,
    {
        let ghost t = self.table;
        let ghost n = t.metas().len() as int;
        proof {
            self.lemma_rest();
            if self.blk_iter.remaining().len() > 0 {
                assert(self.rest().drop_first() =~= self.blk_iter.remaining().drop_first()
                    + t.from_block(self.blk_idx + 1));
            }
        }
        self.blk_iter.next();
        // If all data of the current block is consumed
        if !self.blk_iter.is_valid() {
            if self.blk_idx < self.table.block_meta.len() {
                self.blk_idx = self.blk_idx + 1;
            }
            if self.blk_idx < self.table.block_meta.len() {
                assert(t.parsed(self.blk_idx as int) is Ok);
                assert(t.block(self.blk_idx as int).len() > 0);
                match self.table.read_block(self.blk_idx) {
                    Ok(next_block) => {
                        self.blk_iter = BlockIterator::create_and_seek_to_first(next_block);
                        assert(self.rest() =~= t.from_block(self.blk_idx as int));
                    },
                    Err(e) => {
                        return Err(e);
                    },
                }
            }
        }
        Ok(())
    }

    fn num_active_iterators(&self) -> (r: usize) {
        1
    }
}

} // verus!
