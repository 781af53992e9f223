//! Checking that a state is what a state should be.
use std::collections::HashMap;
use std::sync::Arc;

use vstd::prelude::*;

use crate::compact::ids::contains_id;
use crate::compact::{all_are_loaded, leveled};
use crate::iterators::concat_iterator;
use crate::key::VEntry;
use crate::lsm_storage::{engine, state};
use crate::lsm_storage::{LsmStorageInner, LsmStorageState};
use crate::table::SsTable;
use crate::{key, table};

verus! {

broadcast use vstd::std_specs::hash::group_hash_axioms;

/// Table `i` ends before the next one begins.
spec fn ends_before_next(tables: Seq<Arc<SsTable>>, i: int) -> bool {
    key::key_lt(tables[i].entries().last().key, tables[i + 1].entries()[0].key)
}

/// Tables of which each ends before the next one begins have sorted entries together.
proof fn lemma_adjacent_sorted(tables: Seq<Arc<SsTable>>, i: int)
    requires
        0 <= i <= tables.len(),
        forall|j: int| 0 <= j < tables.len() ==> (#[trigger] tables[j]).wf(),
        forall|j: int| 0 <= j < tables.len() ==> (#[trigger] tables[j]).entries().len() > 0,
        forall|j: int| 0 <= j < tables.len() - 1 ==> #[trigger] ends_before_next(tables, j),
    ensures
        key::sorted(concat_iterator::joined_from(tables, i)),
        i < tables.len() ==> concat_iterator::joined_from(tables, i).len() > 0
            && concat_iterator::joined_from(tables, i)[0] == tables[i].entries()[0],
    decreases tables.len() - i,
{
    if i == tables.len() {
        concat_iterator::lemma_joined_ends(tables);
    } else {
        lemma_adjacent_sorted(tables, i + 1);
        concat_iterator::lemma_joined_step(tables, i);
        let a = tables[i].entries();
        let b = concat_iterator::joined_from(tables, i + 1);
        let all = concat_iterator::joined_from(tables, i);
        assert(tables[i].wf());
        assert(all[0] == a[0]);
        if b.len() > 0 {
            if i + 1 < tables.len() {
                assert(ends_before_next(tables, i));
            } else {
                concat_iterator::lemma_joined_ends(tables);
            }
        }
        lemma_sorted_join(a, b);
        assert(all =~= a + b);
    }
}

/// Sorted entries behind sorted entries are sorted together.
proof fn lemma_sorted_join(a: Seq<VEntry>, b: Seq<VEntry>)
    requires
        key::sorted(a),
        key::sorted(b),
        a.len() > 0 && b.len() > 0 ==> key::key_lt(a.last().key, b[0].key),
    ensures
        key::sorted(a + b),
{
    let s = a + b;
    assert forall|i: int, j: int| #![trigger s[i], s[j]] 0 <= i < j < s.len() implies key::key_lt(
        s[i].key,
        s[j].key,
    ) by {
        if j < a.len() {
            assert(s[i] == a[i] && s[j] == a[j]);
        } else if i >= a.len() {
            assert(s[i] == b[i - a.len()] && s[j] == b[j - a.len()]);
        } else {
            assert(s[i] == a[i] && s[j] == b[j - a.len()]);
            if i < a.len() - 1 {
                assert(key::key_lt(a[i].key, a[a.len() - 1].key));
                key::lemma_key_lt_transitive(a[i].key, a.last().key, b[0].key);
            }
            if j > a.len() {
                assert(key::key_lt(b[0].key, b[j - a.len()].key));
                key::lemma_key_lt_transitive(a[i].key, b[0].key, b[j - a.len()].key);
            }
        }
    }
}

/// In a run, each table ends before the next one begins.
proof fn lemma_run_adjacent(tables: Seq<Arc<SsTable>>, i: int)
    requires
        concat_iterator::run_ok(tables),
        0 <= i < tables.len() - 1,
    ensures
        ends_before_next(tables, i),
{
    concat_iterator::lemma_joined_suffix(tables, i);
    concat_iterator::lemma_joined_step(tables, i);
    concat_iterator::lemma_joined_step(tables, i + 1);
    let s = concat_iterator::joined_from(tables, i);
    table::iterator::lemma_suffix_sorted(s, concat_iterator::joined(tables));
    let a = tables[i].entries();
    let b = tables[i + 1].entries();
    assert(a.len() > 0);
    assert(b.len() > 0);
    assert(s[a.len() - 1] == a.last());
    assert(s[a.len() as int] == b[0]);
}

/// Whether the listed tables form a run.
fn is_run(tables: &HashMap<usize, Arc<SsTable>>, ids: &Vec<usize>) -> (r: bool)
    requires
        state::tables_ok(tables@),
        leveled::all_loaded(tables@, ids@),
    ensures
        r == concat_iterator::run_ok(state::tables_of(tables@, ids@)),
{
    let ghost run = state::tables_of(tables@, ids@);
    let n: usize = ids.len();
    proof {
        assert forall|i: int| 0 <= i < run.len() implies (#[trigger] run[i]).wf() by {
            assert(tables@.contains_key(ids@[i]));
        }
    }
    if n >= usize::MAX - 1 {
        return false;
    }
    if n <= 1 {
        proof {
            if n == 1 {
                concat_iterator::lemma_joined_step(run, 0);
                concat_iterator::lemma_joined_ends(run);
                assert(run[0].wf());
                assert(concat_iterator::joined(run) =~= run[0].entries());
            } else {
                concat_iterator::lemma_joined_ends(run);
            }
        }
        return true;
    }
    let mut i: usize = 0;
    while i < n
        invariant
            i <= n,
            n == ids@.len(),
            n > 1,
            run == state::tables_of(tables@, ids@),
            state::tables_ok(tables@),
            leveled::all_loaded(tables@, ids@),
            forall|j: int| 0 <= j < i ==> (#[trigger] run[j]).entries().len() > 0,
            forall|j: int| 0 <= j < i - 1 ==> #[trigger] ends_before_next(run, j),
        decreases n - i,
    {
        assert(tables@.contains_key(ids@[i as int]));
        let t: &Arc<SsTable> = tables.get(&ids[i]).unwrap();
        assert(run[i as int].wf());
        proof {
            if t.entries().len() > 0 {
                assert(crate::block::entry_fits(t.entries()[0]));
            }
        }
        if t.first_key.is_empty() {
            assert(run[i as int].entries().len() == 0);
            return false;
        }
        if i > 0 {
            assert(tables@.contains_key(ids@[i - 1]));
            let p: &Arc<SsTable> = tables.get(&ids[i - 1]).unwrap();
            assert(run[i - 1].entries().len() > 0);
            proof {
                table::sound::lemma_end_keys(&**p);
                table::sound::lemma_end_keys(&**t);
            }
            let last = p.block_meta[p.block_meta.len() - 1].last_key.as_key_slice();
            let first = t.block_meta[0].first_key.as_key_slice();
            if !last.less_than(first) {
                proof {
                    assert(!ends_before_next(run, i - 1));
                    if concat_iterator::run_ok(run) {
                        lemma_run_adjacent(run, i - 1);
                    }
                }
                return false;
            }
            assert(ends_before_next(run, i - 1));
        }
        i = i + 1;
    }
    proof {
        lemma_adjacent_sorted(run, 0);
        concat_iterator::lemma_joined_ends(run);
    }
    true
}

impl LsmStorageState {
    /// Whether all listed tables are loaded, the levels have the right numbers, and every level is
    /// a run.
    pub fn lists_sound(&self) -> (r: bool)
        requires
            state::tables_ok(self.sstables@),
            self.memtable.fits(),
            forall|i: int|
                0 <= i < self.imm_memtables@.len() ==> (#[trigger] self.imm_memtables@[i]).fits(),
        ensures
            r == self.wf(),
    {
        if !all_are_loaded(&self.sstables, self.l0_sstables.as_slice()) {
            return false;
        }
        let mut i: usize = 0;
        while i < self.levels.len()
            invariant
                i <= self.levels@.len(),
                state::tables_ok(self.sstables@),
                forall|j: int| 0 <= j < i ==> #[trigger] self.level_ok(j),
            decreases self.levels@.len() - i,
        {
            let level = &self.levels[i];
            if level.0 != i + 1 || !all_are_loaded(&self.sstables, level.1.as_slice()) || !is_run(
                &self.sstables,
                &level.1,
            ) {
                assert(!self.level_ok(i as int));
                return false;
            }
            assert(self.level_ok(i as int));
            i = i + 1;
        }
        true
    }
}

/// Whether no id is in both lists.
fn are_apart(a: &Vec<usize>, b: &Vec<usize>) -> (r: bool)
    ensures
        r == engine::apart(a@, b@),
{
    let mut i: usize = 0;
    while i < a.len()
        invariant
            i <= a@.len(),
            forall|j: int| 0 <= j < i ==> !b@.contains(#[trigger] a@[j]),
        decreases a@.len() - i,
    {
        if contains_id(b, a[i]) {
            assert(a@.contains(a@[i as int]));
            return false;
        }
        i = i + 1;
    }
    true
}

impl LsmStorageState {
    /// Whether no table is in two lists.
    fn are_lists_apart(&self) -> (r: bool)
        ensures
            r == engine::lists_apart(*self),
    {
        let n: usize = self.levels.len();
        let mut i: usize = 0;
        while i < n
            invariant
                i <= n,
                n == self.levels@.len(),
                forall|a: int|
                    0 <= a < i ==> engine::apart(self.l0_sstables@, #[trigger] self.levels@[a].1@),
                forall|a: int, b: int|
                    #![trigger self.levels@[a], self.levels@[b]]
                    0 <= a < i && 0 <= b < n && a != b ==> engine::apart(
                        self.levels@[a].1@,
                        self.levels@[b].1@,
                    ),
            decreases n - i,
        {
            if !are_apart(&self.l0_sstables, &self.levels[i].1) {
                return false;
            }
            let mut k: usize = 0;
            while k < n
                invariant
                    k <= n,
                    i < n,
                    n == self.levels@.len(),
                    forall|b: int|
                        0 <= b < k && b != i ==> engine::apart(
                            self.levels@[i as int].1@,
                            #[trigger] self.levels@[b].1@,
                        ),
                decreases n - k,
            {
                if k != i && !are_apart(&self.levels[i].1, &self.levels[k].1) {
                    return false;
                }
                k = k + 1;
            }
            i = i + 1;
        }
        true
    }
}

impl LsmStorageInner {
    /// Whether the ids of tables are below the next id, and no table is in two lists.
    pub fn sst_ids_sound(&self) -> (r: bool)
        ensures
            r == self.sst_ids_ok(),
    {
        let max_id: usize = Self::max_sst_id(&self.state.sstables);
        if self.state.sstables.len() > 0 && max_id >= self.next_sst_id {
            proof {
                if max_id > 0 {
                    assert(self.state.sstables@.contains_key(max_id));
                } else {
                    let id = self.state.sstables@.dom().choose();
                    assert(self.state.sstables@.contains_key(id));
                }
            }
            return false;
        }
        proof {
            assert forall|id: usize| #[trigger]
                self.state.sstables@.contains_key(id) implies id < self.next_sst_id by {
                if self.state.sstables@.dom().len() == 0 {
                    self.state.sstables@.dom().lemma_len0_is_empty();
                }
            }
        }
        self.state.are_lists_apart()
    }

    /// Whether no id stands for two things.
    pub fn ids_sound(&self) -> (r: bool)
        ensures
            r == self.ids_ok(),
    {
        let ghost mems = self.write_state().mems;
        if !self.sst_ids_sound() {
            return false;
        }
        let n: usize = self.state.imm_memtables.len();
        let mut seen: Vec<usize> = Vec::new();
        let mut i: usize = 0;
        assert(mems[0].id == self.state.memtable.id);
        if self.state.memtable.id() >= self.next_sst_id || self.state.sstables.contains_key(
            &self.state.memtable.id(),
        ) {
            return false;
        }
        seen.push(self.state.memtable.id());
        while i < n
            invariant
                i <= n,
                n == self.state.imm_memtables@.len(),
                mems == self.write_state().mems,
                seen@.len() == i + 1,
                forall|a: int| 0 <= a <= i ==> #[trigger] seen@[a] == mems[a].id,
                forall|a: int|
                    0 <= a <= i ==> (#[trigger] mems[a]).id < self.next_sst_id
                        && !self.state.sstables@.contains_key(mems[a].id),
                forall|a: int, b: int|
                    #![trigger mems[a], mems[b]]
                    0 <= a < b <= i ==> mems[a].id != mems[b].id,
            decreases n - i,
        {
            let id: usize = self.state.imm_memtables[i].id();
            assert(mems[i + 1].id == id);
            if id >= self.next_sst_id || self.state.sstables.contains_key(&id) {
                return false;
            }
            if contains_id(&seen, id) {
                proof {
                    let a = seen@.index_of(id);
                    assert(seen@[a] == mems[a].id);
                }
                return false;
            }
            proof {
                assert forall|a: int| 0 <= a <= i implies (#[trigger] mems[a]).id != id by {
                    assert(seen@[a] == mems[a].id);
                    assert(seen@.contains(seen@[a]));
                }
            }
            seen.push(id);
            i = i + 1;
        }
        true
    }
}

} // verus!
