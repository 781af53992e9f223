//! Walking sorted tables one after another.
use std::sync::Arc;

use vstd::prelude::*;

use crate::error::LsmError;
use crate::iterators::StorageIterator;
use crate::key;
use crate::key::{bytes_less, KeySlice, VEntry, VKey};
use crate::outside::share;
use crate::table;
use crate::table::{SsTable, SsTableIterator};

verus! {

broadcast use crate::key::group_models;

/// Concat multiple iterators ordered in key order and their key ranges do not overlap. We do not want to create the
/// iterators when initializing this iterator to reduce the overhead of seeking.
pub struct SstConcatIterator {
    pub current: Option<SsTableIterator>,
    pub next_sst_idx: usize,
    pub sstables: Vec<Arc<SsTable>>,
}

/// The entries of each table.
pub open spec fn contents(tables: Seq<Arc<SsTable>>) -> Seq<Seq<VEntry>> {
    Seq::new(tables.len(), |i: int| tables[i].entries())
}

/// The entries of all tables, one table after another.
pub open spec fn joined(tables: Seq<Arc<SsTable>>) -> Seq<VEntry> {
    table::builder::flat(contents(tables))
}

/// The entries of the tables from table `i` on.
pub open spec fn joined_from(tables: Seq<Arc<SsTable>>, i: int) -> Seq<VEntry> {
    table::builder::flat(contents(tables).skip(i))
}

/// Tables in key order whose ranges do not overlap. Only a table that stands alone may be empty.
pub open spec fn run_ok(tables: Seq<Arc<SsTable>>) -> bool {
    &&& forall|i: int| 0 <= i < tables.len() ==> (#[trigger] tables[i]).wf()
    &&& forall|i: int|
        0 <= i < tables.len() && tables.len() > 1 ==> (#[trigger] tables[i]).entries().len() > 0
    &&& key::sorted(joined(tables))
    &&& tables.len() + 2 <= usize::MAX
}

/// The table a seek begins with: the first one whose last user key is not before that of `k`. One
/// behind the end where there is none.
pub open spec fn is_seek_table(tables: Seq<Arc<SsTable>>, k: VKey, r: int) -> bool {
    if k.key.len() == 0 || tables.len() == 0 {
        r == 0
    } else if key::bytes_lt(tables.last().last_key@.key, k.key) {
        r == tables.len() + 1
    } else {
        &&& 0 <= r < tables.len()
        &&& !key::bytes_lt(tables[r].last_key@.key, k.key)
        &&& forall|i: int|
            0 <= i < r ==> key::bytes_lt((#[trigger] tables[i]).last_key@.key, k.key)
    }
}

/// The entries of table `i` and those of the tables behind it.
pub proof fn lemma_joined_step(tables: Seq<Arc<SsTable>>, i: int)
    requires
        0 <= i < tables.len(),
    ensures
        joined_from(tables, i) == tables[i].entries() + joined_from(tables, i + 1),
{
    assert(contents(tables).skip(i).drop_first() =~= contents(tables).skip(i + 1));
}

pub proof fn lemma_joined_ends(tables: Seq<Arc<SsTable>>)
    ensures
        joined_from(tables, 0) == joined(tables),
        joined_from(tables, tables.len() as int).len() == 0,
{
    assert(contents(tables).skip(0) =~= contents(tables));
    assert(contents(tables).skip(tables.len() as int) =~= Seq::empty());
}

pub proof fn lemma_joined_suffix(tables: Seq<Arc<SsTable>>, i: int)
    requires
        0 <= i <= tables.len(),
    ensures
        joined(tables) == table::builder::flat(contents(tables).take(i)) + joined_from(tables, i),
        key::is_suffix(joined_from(tables, i), joined(tables)),
{
    table::builder::lemma_flat_split(contents(tables), i);
    let a = joined_from(tables, i);
    let all = joined(tables);
    assert(a =~= all.skip(all.len() - a.len()));
}

/// The last user keys of tables in a run ascend.
proof fn lemma_last_keys_ascend(tables: Seq<Arc<SsTable>>, i: int, j: int)
    requires
        run_ok(tables),
        0 <= i < j < tables.len(),
    ensures
        key::bytes_le(tables[i].last_key@.key, tables[j].last_key@.key),
{
    lemma_joined_suffix(tables, i);
    lemma_joined_suffix(tables, j);
    lemma_joined_step(tables, i);
    lemma_joined_step(tables, j);
    lemma_joined_suffix(tables, i + 1);
    lemma_flat_take_grows(contents(tables), i + 1, j);
    let all = joined(tables);
    let a = tables[i].entries();
    let b = tables[j].entries();
    let p = table::builder::flat(contents(tables).take(i)).len() as int;
    let q = table::builder::flat(contents(tables).take(j)).len() as int;
    assert(tables[i].wf() && tables[j].wf());
    assert(a.len() > 0 && b.len() > 0);
    assert(all[p + a.len() - 1] == a.last());
    assert(all[q + b.len() - 1] == b.last());
}

proof fn lemma_flat_take_grows(s: Seq<Seq<VEntry>>, i: int, j: int)
    requires
        0 <= i <= j <= s.len(),
    ensures
        table::builder::flat(s.take(i)).len() <= table::builder::flat(s.take(j)).len(),
{
    table::builder::lemma_flat_split(s.take(j), i);
    assert(s.take(j).take(i) =~= s.take(i));
}

impl SstConcatIterator {
    pub open spec fn inv(&self) -> bool {
        &&& run_ok(self.sstables@)
        &&& self.current matches Some(iter) ==> {
            &&& iter.inv()
            &&& 1 <= self.next_sst_idx <= self.sstables@.len()
            &&& iter.table == self.sstables@[self.next_sst_idx - 1]
        }
        &&& self.next_sst_idx <= self.sstables@.len() + 2
    }

    /// The entries from the current one on.
    pub open spec fn rest(&self) -> Seq<VEntry> {
        match self.current {
            Some(iter) => if iter.rest().len() > 0 {
                iter.rest() + joined_from(self.sstables@, self.next_sst_idx as int)
            } else {
                Seq::empty()
            },
            None => Seq::empty(),
        }
    }

    proof fn lemma_rest(&self)
        requires
            self.inv(),
        ensures
            key::is_suffix(self.rest(), joined(self.sstables@)),
            key::sorted(self.rest()),
    {
        let tables = self.sstables@;
        let all = joined(tables);
        match self.current {
            Some(iter) => {
                iter.lemma_rest();
                let i = self.next_sst_idx - 1;
                lemma_joined_step(tables, i);
                lemma_joined_suffix(tables, i);
                if iter.rest().len() > 0 {
                    assert(self.rest() =~= all.skip(all.len() - self.rest().len()));
                } else {
                    assert(self.rest() =~= all.skip(all.len() as int));
                }
            },
            None => {
                assert(self.rest() =~= all.skip(all.len() as int));
            },
        }
        table::iterator::lemma_suffix_sorted(self.rest(), all);
    }

    /// The table a seek begins with.
    pub fn search_table_idx(sstables: &[Arc<SsTable>], key: KeySlice) -> (r: usize)
        requires
            run_ok(sstables@),
        ensures
            is_seek_table(sstables@, key@, r as int),
    {
        let n: usize = sstables.len();
        // An empty key means we start from the first table.
        if key.is_empty() || n == 0 {
            return 0;
        }
        if bytes_less(sstables[n - 1].last_key().raw_ref(), key.raw_ref()) {
            return n + 1;
        }
        let mut l: usize = 0;
        let mut r: usize = n - 1;
        while l < r
            invariant
                l <= r < n == sstables@.len(),
                run_ok(sstables@),
                !key::bytes_lt(sstables@[r as int].last_key@.key, key@.key),
                forall|i: int|
                    0 <= i < l ==> key::bytes_lt((#[trigger] sstables@[i]).last_key@.key, key@.key),
            decreases r - l,
        {
            let mid: usize = l + (r - l) / 2;
            let t = &sstables[mid];
            if bytes_less(t.last_key().raw_ref(), key.raw_ref()) {
                proof {
                    assert forall|i: int| 0 <= i < mid + 1 implies key::bytes_lt(
                        (#[trigger] sstables@[i]).last_key@.key,
                        key@.key,
                    ) by {
                        if i < mid {
                            lemma_last_keys_ascend(sstables@, i, mid as int);
                            if sstables@[i].last_key@.key != sstables@[mid as int].last_key@.key {
                                key::lemma_bytes_lt_transitive(
                                    sstables@[i].last_key@.key,
                                    sstables@[mid as int].last_key@.key,
                                    key@.key,
                                );
                            }
                        }
                    }
                }
                l = mid + 1;
            } else {
                r = mid;
            }
        }
        l
    }

    pub fn create_and_seek_to_first(sstables: Vec<Arc<SsTable>>) -> (r: Result<Self, LsmError>)
        requires
            run_ok(sstables@),
        ensures
            r matches Ok(iter) && iter.inv() && iter.sstables == sstables && iter.rest() == joined(
                sstables@,
            ),
    {
        proof {
            lemma_joined_ends(sstables@);
        }
        if sstables.len() == 0 {
            let iter = Self { current: None, next_sst_idx: 1, sstables };
            assert(iter.rest() =~= joined(sstables@));
            return Ok(iter);
        }
        assert(sstables@[0].wf());
        match SsTableIterator::create_and_seek_to_first(share(&sstables[0])) {
            Ok(first) => {
                proof {
                    lemma_joined_step(sstables@, 0);
                }
                let iter = Self { current: Some(first), next_sst_idx: 1, sstables };
                assert(iter.rest() =~= joined(sstables@));
                Ok(iter)
            },
            Err(e) => Err(e),
        }
    }

    /// Begins with the table that `search_table_idx` finds, at the first entry in it that is not
    /// before `key`.
    pub fn create_and_seek_to_key(sstables: Vec<Arc<SsTable>>, key: KeySlice) -> (r: Result<
        Self,
        LsmError,
    >)
        requires
            run_ok(sstables@),
        ensures
            r is Ok,
            r matches Ok(iter) ==> {
                &&& iter.inv()
                &&& iter.sstables == sstables
                &&& forall|i: int| #[trigger]
                    is_seek_table(sstables@, key@, i) ==> iter.rest() == seek_result(
                        sstables@,
                        key@,
                        i,
                    )
            },
    {
        let table_idx: usize = Self::search_table_idx(sstables.as_slice(), key);
        proof {
            lemma_joined_ends(sstables@);
            assert forall|i: int| is_seek_table(sstables@, key@, i) implies i == table_idx by {
                if key@.key.len() > 0 && sstables@.len() > 0 && !key::bytes_lt(
                    sstables@.last().last_key@.key,
                    key@.key,
                ) {
                    let j = table_idx as int;
                    if i < j {
                        assert(key::bytes_lt(sstables@[i].last_key@.key, key@.key));
                    } else if j < i {
                        assert(key::bytes_lt(sstables@[j].last_key@.key, key@.key));
                    }
                }
            }
        }
        if table_idx >= sstables.len() {
            return Ok(Self { current: None, next_sst_idx: table_idx + 1, sstables });
        }
        assert(sstables@[table_idx as int].wf());
        match SsTableIterator::create_and_seek_to_key(share(&sstables[table_idx]), key) {
            Ok(iter) => {
                Ok(Self { current: Some(iter), next_sst_idx: table_idx + 1, sstables })
            },
            Err(e) => Err(e),
        }
    }
}

/// What a seek that begins with table `i` leaves.
pub open spec fn seek_result(tables: Seq<Arc<SsTable>>, k: VKey, i: int) -> Seq<VEntry> {
    if 0 <= i < tables.len() {
        let es = tables[i].entries();
        let found = es.skip(key::seek_index(es, k));
        if found.len() > 0 {
            found + joined_from(tables, i + 1)
        } else {
            Seq::empty()
        }
    } else {
        Seq::empty()
    }
}

impl StorageIterator for SstConcatIterator {
    type KeyType<'a> = KeySlice<'a>;

    open spec fn wf(&self) -> bool {
        self.inv()
    }

    open spec fn remaining(&self) -> Seq<VEntry> {
        self.rest()
    }

    open spec fn readable(&self) -> bool {
        self.current is Some
    }

    open spec fn infallible(&self) -> bool {
        true
    }

    open spec fn stays_exhausted(&self) -> bool {
        false
    }

    open spec fn num_active(&self) -> nat {
        self.sstables@.len()
    }

    proof fn lemma_wf(&self) {
        self.lemma_rest();
    }

    fn key(&self) -> (r: KeySlice<'_>) {
        self.current.as_ref().unwrap().key()
    }

    fn value(&self) -> (r: &[u8]) {
        self.current.as_ref().unwrap().value()
    }

    fn is_valid(&self) -> (r: bool) {
        match &self.current {
            Some(iter) => iter.is_valid(),
            None => false,
        }
    }

    fn next(&mut self) -> (r: Result<(), LsmError>) {
        let ghost tables = self.sstables@;
        proof {
            lemma_joined_ends(tables);
        }
        let ghost before = self.rest();
        let taken = self.current.take();
        match taken {
            Some(iter) => {
                let mut iter = iter;
                let ghost idx = self.next_sst_idx as int;
                let ghost old_rest = iter.rest();
                proof {
                    if old_rest.len() > 0 {
                        assert(before.drop_first() =~= old_rest.drop_first() + joined_from(
                            tables,
                            idx,
                        ));
                    }
                }
                match iter.next() {
                    Ok(()) => {},
                    Err(e) => {
                        self.current = Some(iter);
                        return Err(e);
                    },
                }
                if iter.is_valid() {
                    self.current = Some(iter);
                } else {
                    if self.next_sst_idx < self.sstables.len() {
                        assert(tables[idx].wf());
                        match SsTableIterator::create_and_seek_to_first(
                            share(&self.sstables[self.next_sst_idx]),
                        ) {
                            Ok(next_iter) => {
                                proof {
                                    lemma_joined_step(tables, idx);
                                    assert(tables[idx].entries().len() > 0);
                                }
                                self.current = Some(next_iter);
                            },
                            Err(e) => {
                                self.current = Some(iter);
                                return Err(e);
                            },
                        }
                    }
                    self.next_sst_idx = self.next_sst_idx + 1;
                    assert(old_rest.len() > 0 ==> self.rest() =~= before.drop_first());
                }
                Ok(())
            },
            None => Ok(()),
        }
    }

    fn num_active_iterators(&self) -> (r: usize) {
        self.sstables.len()
    }
}

/// Seeking to the newest possible version of a user key finds everything from that key on.
pub proof fn lemma_seek_to_user_key(tables: Seq<Arc<SsTable>>, k: VKey, i: int)
    requires
        run_ok(tables),
        k.ts == key::TS_RANGE_BEGIN,
        is_seek_table(tables, k, i),
    ensures
        seek_result(tables, k, i) == joined(tables).skip(key::seek_index(joined(tables), k)),
{
    let all = joined(tables);
    lemma_joined_ends(tables);
    if tables.len() == 0 {
        assert(all =~= Seq::empty());
        assert(seek_result(tables, k, i) =~= all.skip(key::seek_index(all, k)));
    } else if k.key.len() > 0 && key::bytes_lt(tables.last().last_key@.key, k.key) {
        let n = tables.len() as int;
        assert forall|j: int| 0 <= j < n implies key::bytes_lt(
            (#[trigger] tables[j]).last_key@.key,
            k.key,
        ) by {
            if j < n - 1 {
                lemma_last_keys_ascend(tables, j, n - 1);
                if tables[j].last_key@.key != tables[n - 1].last_key@.key {
                    key::lemma_bytes_lt_transitive(
                        tables[j].last_key@.key,
                        tables[n - 1].last_key@.key,
                        k.key,
                    );
                }
            }
        }
        lemma_prefix_before(tables, k, n);
        assert(contents(tables).take(n) =~= contents(tables));
        table::iterator::lemma_seek_past(all, Seq::empty(), k);
        assert(all + Seq::<VEntry>::empty() =~= all);
        assert(seek_result(tables, k, i) =~= all.skip(key::seek_index(all, k)));
    } else {
        if k.key.len() == 0 {
            key::lemma_empty_first(k.key, tables[i].last_key@.key);
        }
        lemma_seek_in_table(tables, k, i);
    }
}

/// Seeking to the newest possible version of a user key that table `i` reaches.
proof fn lemma_seek_in_table(tables: Seq<Arc<SsTable>>, k: VKey, i: int)
    requires
        run_ok(tables),
        k.ts == key::TS_RANGE_BEGIN,
        0 <= i < tables.len(),
        !key::bytes_lt(tables[i].last_key@.key, k.key),
        forall|j: int| 0 <= j < i ==> key::bytes_lt((#[trigger] tables[j]).last_key@.key, k.key),
    ensures
        seek_result(tables, k, i) == joined(tables).skip(key::seek_index(joined(tables), k)),
{
    let all = joined(tables);
    let es = tables[i].entries();
    let p = table::builder::flat(contents(tables).take(i));
    let rest = joined_from(tables, i + 1);
    assert(tables[i].wf());
    lemma_prefix_before(tables, k, i);
    lemma_joined_suffix(tables, i);
    lemma_joined_step(tables, i);
    assert(all == p + (es + rest));
    table::iterator::lemma_seek_past(p, es + rest, k);
    key::lemma_seek_index(es, k);
    if es.len() > 0 {
        table::iterator::lemma_seek_within(es, rest, k);
        let s = key::seek_index(es, k);
        assert(s < es.len());
        assert(es.skip(s) + rest =~= all.skip(p.len() + s));
    } else {
        lemma_joined_ends(tables);
        assert(tables.len() == 1);
        assert(es + rest =~= Seq::empty());
        assert(key::seek_index(es + rest, k) == 0);
        assert(seek_result(tables, k, i) =~= all.skip(p.len() as int));
    }
}

/// Entries of tables whose last user keys are before that of `k` are before `k`.
proof fn lemma_prefix_before(tables: Seq<Arc<SsTable>>, k: VKey, i: int)
    requires
        run_ok(tables),
        0 <= i <= tables.len(),
        forall|j: int| 0 <= j < i ==> key::bytes_lt((#[trigger] tables[j]).last_key@.key, k.key)
            || tables[j].entries().len() == 0,
    ensures
        forall|j: int|
            0 <= j < table::builder::flat(contents(tables).take(i)).len() ==> key::key_lt(
                (#[trigger] table::builder::flat(contents(tables).take(i))[j]).key,
                k,
            ),
    decreases i,
{
    let p = table::builder::flat(contents(tables).take(i));
    if i > 0 {
        lemma_prefix_before(tables, k, i - 1);
        let q = table::builder::flat(contents(tables).take(i - 1));
        let es = tables[i - 1].entries();
        assert(contents(tables).take(i) =~= contents(tables).take(i - 1).push(es));
        table::builder::lemma_flat_push(contents(tables).take(i - 1), es);
        assert(tables[i - 1].wf());
        assert forall|j: int| 0 <= j < p.len() implies key::key_lt((#[trigger] p[j]).key, k) by {
            if j < q.len() {
                assert(p[j] == q[j]);
            } else {
                let m = j - q.len();
                assert(p[j] == es[m]);
                assert(key::bytes_lt(tables[i - 1].last_key@.key, k.key));
                if m < es.len() - 1 {
                    assert(key::key_lt(es[m].key, es.last().key));
                    key::lemma_key_lt_transitive(es[m].key, es.last().key, k);
                }
            }
        }
    } else {
        assert(p =~= Seq::empty());
    }
}

/// Every seek has a table to begin with.
pub proof fn lemma_seek_table_exists(tables: Seq<Arc<SsTable>>, k: VKey)
    ensures
        exists|i: int| is_seek_table(tables, k, i),
{
    if k.key.len() == 0 || tables.len() == 0 {
        assert(is_seek_table(tables, k, 0));
    } else if key::bytes_lt(tables.last().last_key@.key, k.key) {
        assert(is_seek_table(tables, k, tables.len() + 1int));
    } else {
        let i = lemma_first_reaching(tables, k, 0);
        assert(is_seek_table(tables, k, i));
    }
}

/// The first table from `from` on whose last user key is not before that of `k`.
proof fn lemma_first_reaching(tables: Seq<Arc<SsTable>>, k: VKey, from: int) -> (r: int)
    requires
        0 <= from < tables.len(),
        !key::bytes_lt(tables.last().last_key@.key, k.key),
        forall|i: int| 0 <= i < from ==> key::bytes_lt((#[trigger] tables[i]).last_key@.key, k.key),
    ensures
        0 <= r < tables.len(),
        !key::bytes_lt(tables[r].last_key@.key, k.key),
        forall|i: int| 0 <= i < r ==> key::bytes_lt((#[trigger] tables[i]).last_key@.key, k.key),
    decreases tables.len() - from,
{
    if key::bytes_lt(tables[from].last_key@.key, k.key) {
        lemma_first_reaching(tables, k, from + 1)
    } else {
        from
    }
}

/// The entries of all tables fit into blocks.
pub proof fn lemma_joined_fits(tables: Seq<Arc<SsTable>>)
    requires
        run_ok(tables),
    ensures
        crate::block::entries_fit(joined(tables)),
{
    lemma_joined_ends(tables);
    lemma_joined_from_fits(tables, 0);
}

proof fn lemma_joined_from_fits(tables: Seq<Arc<SsTable>>, i: int)
    requires
        run_ok(tables),
        0 <= i <= tables.len(),
    ensures
        crate::block::entries_fit(joined_from(tables, i)),
    decreases tables.len() - i,
{
    if i < tables.len() {
        lemma_joined_from_fits(tables, i + 1);
        lemma_joined_step(tables, i);
        assert(tables[i].wf());
        let all = joined_from(tables, i);
        let head = tables[i].entries();
        let rest = joined_from(tables, i + 1);
        assert forall|j: int| 0 <= j < all.len() implies crate::block::entry_fits(
            #[trigger] all[j],
        ) by {
            if j < head.len() {
                assert(all[j] == head[j]);
            } else {
                assert(all[j] == rest[j - head.len()]);
            }
        }
    } else {
        lemma_joined_ends(tables);
    }
}

} // verus!
