//! How large the levels are meant to be, which of them are compacted, and what a leveled compaction
//! does to the lists of tables.
use std::sync::Arc;

use vstd::prelude::*;

use crate::compact::leveled::{LeveledCompactionOptions, LeveledCompactionTask};
use crate::compact::{choosing, ids, leveled};
use crate::key;
use crate::lsm_storage::LsmStorageState;
use crate::table::SsTable;

verus! {

/// The size of a list of tables is the sum of the sizes of its parts.
pub proof fn lemma_sizes_add(tables: Map<usize, Arc<SsTable>>, a: Seq<usize>, b: Seq<usize>)
    ensures
        leveled::ids_size(tables, a + b) == leveled::ids_size(tables, a) + leveled::ids_size(
            tables,
            b,
        ),
    decreases b.len(),
{
    if b.len() == 0 {
        assert(a + b =~= a);
    } else {
        lemma_sizes_add(tables, a, b.drop_last());
        assert((a + b).drop_last() =~= a + b.drop_last());
    }
}

/// A single table counts with the bytes of its file, and not at all where it is not loaded.
pub proof fn lemma_size_of_one(tables: Map<usize, Arc<SsTable>>, id: usize)
    ensures
        tables.contains_key(id) && tables[id].file.wf() ==> leveled::ids_size(tables, seq![id])
            == tables[id].file.bytes().len(),
        !tables.contains_key(id) ==> leveled::ids_size(tables, seq![id]) == 0,
        leveled::ids_size(tables, Seq::empty()) == 0,
{
    assert(seq![id].drop_last() =~= Seq::empty());
    assert(leveled::ids_size(tables, Seq::empty()) == 0);
    assert(seq![id].last() == id);
}

/// Target sizes as they are meant to be. The last level has its own size or that of the base level,
/// whichever is the larger. A level above one that is meant to be larger than the base level is meant
/// to be smaller than that one by the multiplier; above one that is not, there is nothing.
pub open spec fn targets_right(
    t: Seq<usize>,
    last_size: int,
    options: LeveledCompactionOptions,
) -> bool {
    let base = options.base_level_size_mb * 1048576;
    let m = options.level_size_multiplier;
    &&& t.len() > 0
    &&& t.last() >= base && t.last() >= last_size && (t.last() == base || t.last() == last_size)
    &&& forall|i: int|
        #![trigger t[i]]
        0 <= i < t.len() - 1 ==> {
            &&& t[i + 1] <= base ==> t[i] == 0
            &&& t[i + 1] > base ==> t[i] * m <= t[i + 1] < (t[i] + 1) * m
        }
}

/// The targets of a state are right.
pub proof fn lemma_targets_right(
    state: LsmStorageState,
    options: LeveledCompactionOptions,
    t: Seq<usize>,
)
    requires
        leveled::sizes_ok(state, options),
        t.len() == state.levels@.len(),
        forall|i: int| 0 <= i < t.len() ==> #[trigger] t[i] == leveled::target_of(state, options, i),
    ensures
        targets_right(
            t,
            leveled::ids_size(state.sstables@, state.levels@.last().1@),
            options,
        ),
{
    let n = t.len() as int;
    let m = options.level_size_multiplier as int;
    assert(t[n - 1] == leveled::target_of(state, options, n - 1));
    assert forall|i: int| #![trigger t[i]] 0 <= i < n - 1 implies {
        &&& t[i + 1] <= options.base_level_size_mb * 1048576 ==> t[i] == 0
        &&& t[i + 1] > options.base_level_size_mb * 1048576 ==> t[i] * m <= t[i + 1] < (t[i] + 1)
            * m
    } by {
        let next = t[i + 1] as int;
        assert(next == leveled::target_of(state, options, i + 1));
        let q = next / m;
        assert(q * m <= next < (q + 1) * m) by (nonlinear_arith)
            requires
                q == next / m,
                m > 0,
        ;
    }
}

/// There is at most one level with a target above nothing that is not larger than the base level: all
/// levels below one that has a target have one above it. With a multiplier of at least two the
/// targets halve at least from level to level.
pub proof fn lemma_one_base_level(
    t: Seq<usize>,
    last_size: int,
    options: LeveledCompactionOptions,
    i: int,
    j: int,
)
    requires
        targets_right(t, last_size, options),
        options.level_size_multiplier > 0,
        0 <= i < j < t.len(),
        t[i] > 0,
    ensures
        t[j] > options.base_level_size_mb * 1048576,
        t[i] * options.level_size_multiplier <= t[i + 1],
        t[i] <= t[j],
    decreases j - i,
{
    let m = options.level_size_multiplier as int;
    assert(t[i] <= t[i] * m) by (nonlinear_arith)
        requires
            m >= 1,
            t[i] >= 0,
    ;
    if i + 1 < j {
        lemma_one_base_level(t, last_size, options, i + 1, j);
    }
}

/// Leveled compaction merges L0 exactly when it has reached its trigger, into the first level that
/// has a target. Otherwise, of the levels but the last whose priority is above 1, that with the
/// highest priority, the first of several, gives its first table to the next level. Where there is
/// none, nothing is done.
pub proof fn lemma_leveled_choice(
    options: LeveledCompactionOptions,
    state: LsmStorageState,
    ranks: Seq<u64>,
    r: Option<LeveledCompactionTask>,
)
    requires
        leveled::generated(options, state, ranks, r),
        leveled::sizes_ok(state, options),
        ranks.len() == state.levels@.len(),
    ensures
        ({
            let n = state.levels@.len();
            let one = 0x3FF0_0000_0000_0000u64;
            if state.l0_sstables@.len() >= options.level0_file_num_compaction_trigger {
                &&& r matches Some(task)
                &&& task.upper_level is None
                &&& task.upper_level_sst_ids@ == state.l0_sstables@
                &&& 1 <= task.lower_level <= n
                &&& task.is_lower_level_bottom_level == (task.lower_level == n)
                &&& forall|t: Seq<usize>|
                    #![trigger t.len()]
                    t.len() == n && (forall|i: int|
                        0 <= i < n ==> #[trigger] t[i] == leveled::target_of(state, options, i))
                        ==> t[task.lower_level - 1] > 0 && (forall|i: int|
                        0 <= i < task.lower_level - 1 ==> #[trigger] t[i] == 0)
            } else {
                &&& r is None <==> forall|j: int| 0 <= j < n - 1 ==> #[trigger] ranks[j] <= one
                &&& r matches Some(task) ==> task.upper_level matches Some(u) && {
                    &&& 1 <= u < n
                    &&& ranks[u - 1] > one
                    &&& forall|j: int| 0 <= j < n - 1 ==> #[trigger] ranks[j] <= ranks[u - 1]
                    &&& forall|j: int| 0 <= j < u - 1 ==> #[trigger] ranks[j] < ranks[u - 1]
                    &&& task.upper_level_sst_ids@ == seq![state.levels@[u - 1].1@[0]]
                    &&& task.lower_level == u + 1
                    &&& task.is_lower_level_bottom_level == (u + 1 == n)
                }
            }
        }),
{
    if state.l0_sstables@.len() >= options.level0_file_num_compaction_trigger {
        let task = r->0;
        assert forall|t: Seq<usize>|
            #![trigger t.len()]
            t.len() == state.levels@.len() && (forall|i: int|
                0 <= i < state.levels@.len() ==> #[trigger] t[i] == leveled::target_of(
                    state,
                    options,
                    i,
                )) implies t[task.lower_level - 1] > 0 && (forall|i: int|
            0 <= i < task.lower_level - 1 ==> #[trigger] t[i] == 0) by {
            assert(t[task.lower_level - 1] == leveled::target_of(
                state,
                options,
                task.lower_level - 1,
            ));
            assert forall|i: int| 0 <= i < task.lower_level - 1 implies #[trigger] t[i] == 0 by {
                assert(t[i] == leveled::target_of(state, options, i));
            }
        }
    } else {
        let n = state.levels@.len() as int;
        let top = choose|top: Option<usize>| #[trigger]
            leveled::is_top_level(ranks, n, top) && match top {
                Some(l) => r matches Some(task) && leveled::merges_one(task, state, l as int),
                None => r is None,
            };
        match top {
            Some(l) => {
                assert(ranks[l - 1] > 0x3FF0_0000_0000_0000u64);
            },
            None => {},
        }
    }
}

/// Of two leveled compactions with L0 below its trigger, raising the priority of levels but the last
/// never turns a task into none.
pub proof fn lemma_leveled_higher_priority(
    options: LeveledCompactionOptions,
    state: LsmStorageState,
    a: Seq<u64>,
    b: Seq<u64>,
    ra: Option<LeveledCompactionTask>,
    rb: Option<LeveledCompactionTask>,
)
    requires
        leveled::generated(options, state, a, ra),
        leveled::generated(options, state, b, rb),
        leveled::sizes_ok(state, options),
        a.len() == state.levels@.len(),
        b.len() == state.levels@.len(),
        state.l0_sstables@.len() < options.level0_file_num_compaction_trigger,
        forall|i: int| 0 <= i < a.len() - 1 ==> #[trigger] a[i] <= b[i],
        ra is Some,
    ensures
        rb is Some,
{
    lemma_leveled_choice(options, state, a, ra);
    lemma_leveled_choice(options, state, b, rb);
    let u = (ra->0).upper_level->0;
    assert(a[u - 1] <= b[u - 1]);
}

/// What applying a leveled compaction does to the lists: the upper level has lost the tables that
/// were merged and no other, the lower level too, and the lower level has gained the new ones. Its
/// tables are in the order of their first keys. All other levels are as they were.
pub proof fn lemma_leveled_lists(
    before: LsmStorageState,
    after: LsmStorageState,
    task: LeveledCompactionTask,
    output: Seq<usize>,
)
    requires
        leveled::leveled_applied(before, after, task, output),
        1 <= task.lower_level <= before.levels@.len(),
        task.upper_level matches Some(u) ==> 1 <= u <= before.levels@.len() && u
            != task.lower_level,
    ensures
        ({
            let l = task.lower_level - 1;
            let list = after.levels@[l].1@;
            &&& after.levels@.len() == before.levels@.len()
            &&& forall|x: usize| #[trigger]
                list.contains(x) <==> output.contains(x) || (before.levels@[l].1@.contains(x)
                    && !task.lower_level_sst_ids@.contains(x))
            &&& forall|i: int, j: int|
                #![trigger list[i], list[j]]
                0 <= i < j < list.len() ==> key::key_le(
                    before.sstables@[list[i]].first_key@,
                    before.sstables@[list[j]].first_key@,
                )
            &&& task.upper_level is None ==> forall|x: usize| #[trigger]
                after.l0_sstables@.contains(x) <==> before.l0_sstables@.contains(x)
                    && !task.upper_level_sst_ids@.contains(x)
            &&& task.upper_level matches Some(u) ==> after.l0_sstables == before.l0_sstables && (
            forall|x: usize| #[trigger]
                after.levels@[u - 1].1@.contains(x) <==> before.levels@[u - 1].1@.contains(x)
                    && !task.upper_level_sst_ids@.contains(x))
            &&& forall|i: int|
                0 <= i < before.levels@.len() && i != l && task.upper_level != Some(
                    (i + 1) as usize,
                ) ==> #[trigger] after.levels@[i] == before.levels@[i]
        }),
{
    let l = task.lower_level - 1;
    let kept = ids::without(before.levels@[l].1@, task.lower_level_sst_ids@);
    let list = after.levels@[l].1@;
    leveled::lemma_by_first_key(before.sstables@, kept + output);
    list.to_multiset_ensures();
    (kept + output).to_multiset_ensures();
    assert forall|x: usize| #[trigger] list.contains(x) <==> output.contains(x) || (
    before.levels@[l].1@.contains(x) && !task.lower_level_sst_ids@.contains(x)) by {
        assert(list.contains(x) <==> list.to_multiset().count(x) > 0);
        assert((kept + output).contains(x) <==> (kept + output).to_multiset().count(x) > 0);
        choosing::lemma_in_both(kept, output, x);
        ids::lemma_without(before.levels@[l].1@, task.lower_level_sst_ids@, x);
    }
    match task.upper_level {
        None => {
            assert forall|x: usize| #[trigger] after.l0_sstables@.contains(x)
                <==> before.l0_sstables@.contains(x) && !task.upper_level_sst_ids@.contains(x) by {
                ids::lemma_without(before.l0_sstables@, task.upper_level_sst_ids@, x);
            }
        },
        Some(u) => {
            assert forall|x: usize| #[trigger] after.levels@[u - 1].1@.contains(x)
                <==> before.levels@[u - 1].1@.contains(x) && !task.upper_level_sst_ids@.contains(
                x,
            ) by {
                ids::lemma_without(before.levels@[u - 1].1@, task.upper_level_sst_ids@, x);
            }
        },
    }
}

} // verus!
