//! Which tables are listed and loaded after a compaction.
use std::sync::Arc;

use vstd::prelude::*;

use crate::compact::simple_leveled::{SimpleLeveledCompactionOptions, SimpleLeveledCompactionTask};
use crate::compact::tiered::TieredCompactionTask;
use crate::compact::{choosing, executor, ids, laws, simple_leveled, tiered};
use crate::lsm_storage::{engine, Action, LsmStorageInner, LsmStorageState};
use crate::table::SsTable;

verus! {

/// What is left of a list, and what is taken out of it, keeps its order.
pub proof fn lemma_lists_keep_order(s: Seq<usize>, t: Seq<usize>)
    ensures
        ids::without(s, t) == s.filter(|x: usize| !t.contains(x)),
        ids::common(s, t) == s.filter(|x: usize| t.contains(x)),
    decreases s.len(),
{
    reveal(Seq::filter);
    if s.len() > 0 {
        lemma_lists_keep_order(s.drop_last(), t);
    } else {
        assert(ids::without(s, t) =~= s.filter(|x: usize| !t.contains(x)));
        assert(ids::common(s, t) =~= s.filter(|x: usize| t.contains(x)));
    }
}

/// The table is in L0 or in one of the levels.
pub open spec fn listed(s: LsmStorageState, x: usize) -> bool {
    s.l0_sstables@.contains(x) || exists|i: int|
        0 <= i < s.levels@.len() && #[trigger] s.levels@[i].1@.contains(x)
}

/// A table is listed after a compaction exactly where it is new, or was listed and has not been
/// merged.
pub open spec fn lists_follow(
    before: LsmStorageState,
    after: LsmStorageState,
    merged: Seq<usize>,
    output: Seq<usize>,
) -> bool {
    forall|x: usize| #[trigger]
        listed(after, x) <==> output.contains(x) || (listed(before, x) && !merged.contains(x))
}

/// Lists of which two levels have given way to one, and the others are as they were.
proof fn lemma_two_levels(
    before: LsmStorageState,
    after: LsmStorageState,
    u: int,
    merged: Seq<usize>,
    output: Seq<usize>,
)
    requires
        engine::lists_apart(before),
        -1 <= u < before.levels@.len() - 1,
        after.levels@.len() == before.levels@.len(),
        u >= 0 ==> after.l0_sstables == before.l0_sstables && after.levels@[u].1@.len() == 0,
        u == -1 ==> after.l0_sstables@.len() == 0,
        after.levels@[u + 1].1@ == output,
        forall|i: int|
            0 <= i < before.levels@.len() && i != u && i != u + 1 ==> #[trigger] after.levels@[i]
                == before.levels@[i],
        forall|x: usize| #[trigger]
            merged.contains(x) <==> (if u >= 0 {
                before.levels@[u].1@.contains(x)
            } else {
                before.l0_sstables@.contains(x)
            }) || before.levels@[u + 1].1@.contains(x),
    ensures
        lists_follow(before, after, merged, output),
{
    assert forall|x: usize| #[trigger] listed(after, x) <==> output.contains(x) || (listed(before, x)
        && !merged.contains(x)) by {
        if output.contains(x) {
            assert(after.levels@[u + 1].1@.contains(x));
        }
        if listed(before, x) && !merged.contains(x) {
            if !before.l0_sstables@.contains(x) {
                let i = choose|i: int|
                    0 <= i < before.levels@.len() && #[trigger] before.levels@[i].1@.contains(x);
                assert(after.levels@[i] == before.levels@[i]);
                assert(after.levels@[i].1@.contains(x));
            }
        }
        if listed(after, x) && !output.contains(x) {
            if after.l0_sstables@.contains(x) {
                assert(engine::apart(before.l0_sstables@, before.levels@[u].1@));
                assert(engine::apart(before.l0_sstables@, before.levels@[u + 1].1@));
            } else {
                let i = choose|i: int|
                    0 <= i < after.levels@.len() && #[trigger] after.levels@[i].1@.contains(x);
                assert(after.levels@[i] == before.levels@[i]);
                assert(before.levels@[i].1@.contains(x));
                assert(engine::apart(before.levels@[i].1@, before.levels@[u + 1].1@));
                if u >= 0 {
                    assert(engine::apart(before.levels@[i].1@, before.levels@[u].1@));
                } else {
                    assert(engine::apart(before.l0_sstables@, before.levels@[i].1@));
                }
            }
        }
    }
}

/// Simple leveled compaction takes the tables of the two levels of the task out of the lists and
/// puts the new ones in as the lower level. No other table comes or goes.
pub proof fn lemma_simple_lists(
    options: SimpleLeveledCompactionOptions,
    before: LsmStorageState,
    after: LsmStorageState,
    task: SimpleLeveledCompactionTask,
    output: Seq<usize>,
)
    requires
        simple_leveled::generated(options, before, Some(task)),
        simple_leveled::simple_lists(before, after, task, output),
        before.levels@.len() > 0,
        engine::lists_apart(before),
        forall|i: int| 0 <= i < before.levels@.len() ==> (#[trigger] before.levels@[i]).0 == i + 1,
    ensures
        after.levels@[task.lower_level - 1].1@ == output,
        lists_follow(
            before,
            after,
            task.upper_level_sst_ids@ + task.lower_level_sst_ids@,
            output,
        ),
        forall|x: usize| #[trigger]
            simple_leveled::simple_consumed(before, task).contains(x) <==> (
            task.upper_level_sst_ids@ + task.lower_level_sst_ids@).contains(x),
{
    let merged = task.upper_level_sst_ids@ + task.lower_level_sst_ids@;
    choosing::lemma_simple_choice(options, before, Some(task));
    assert forall|x: usize| #[trigger] merged.contains(x) <==> task.upper_level_sst_ids@.contains(x)
        || task.lower_level_sst_ids@.contains(x) by {
        choosing::lemma_in_both(task.upper_level_sst_ids@, task.lower_level_sst_ids@, x);
    }
    match task.upper_level {
        None => {
            let l0 = before.l0_sstables@;
            assert(after.l0_sstables@.len() == 0) by {
                if after.l0_sstables@.len() > 0 {
                    let x = after.l0_sstables@[0];
                    assert(after.l0_sstables@.contains(x));
                    ids::lemma_without(l0, l0, x);
                }
            }
            assert forall|x: usize| #[trigger]
                simple_leveled::simple_consumed(before, task).contains(x) <==> merged.contains(
                    x,
                ) by {
                ids::lemma_without(l0, l0, x);
                choosing::lemma_in_both(ids::common(l0, l0), before.levels@[0].1@, x);
            }
            lemma_two_levels(before, after, -1, merged, output);
        },
        Some(u) => {
            let i = choose|i: int|
                0 <= i < before.levels@.len() - 1 && (#[trigger] before.levels@[i]).1@.len() > 0
                    && task.upper_level == Some(before.levels@[i].0) && task.upper_level_sst_ids@
                    == before.levels@[i].1@ && task.lower_level == before.levels@[i + 1].0
                    && task.lower_level_sst_ids@ == before.levels@[i + 1].1@;
            assert(before.levels@[i].0 == i + 1);
            assert(before.levels@[i + 1].0 == i + 2);
            lemma_two_levels(before, after, i, merged, output);
        },
    }
}

/// Tiered compaction puts the new tables in place of the first tiers. No other table comes or goes.
pub proof fn lemma_tier_lists(
    before: LsmStorageState,
    after: LsmStorageState,
    task: TieredCompactionTask,
    output: Seq<usize>,
    n: int,
)
    requires
        tiered::tier_lists(before, after, task, output),
        1 <= n <= before.levels@.len(),
        choosing::has_first_tiers(task, before.levels@, n),
        engine::lists_apart(before),
    ensures
        after.levels@.len() == before.levels@.len() - n + 1,
        after.levels@[0].1@ == output,
        forall|i: int|
            0 < i < after.levels@.len() ==> (#[trigger] after.levels@[i]).1@ == before.levels@[i - 1
                + n].1@,
        lists_follow(before, after, choosing::all_ids(task.tiers@), output),
{
    let merged = choosing::all_ids(task.tiers@);
    assert forall|x: usize| #[trigger] merged.contains(x) <==> exists|j: int|
        0 <= j < n && #[trigger] before.levels@[j].1@.contains(x) by {
        lemma_in_tiers(task.tiers@, x);
        if merged.contains(x) {
            let j = choose|j: int|
                0 <= j < task.tiers@.len() && #[trigger] task.tiers@[j].1@.contains(x);
            assert(before.levels@[j].1@.contains(x));
        }
        if exists|j: int| 0 <= j < n && #[trigger] before.levels@[j].1@.contains(x) {
            let j = choose|j: int| 0 <= j < n && #[trigger] before.levels@[j].1@.contains(x);
            assert(task.tiers@[j].1@.contains(x));
        }
    }
    assert forall|x: usize| #[trigger] listed(after, x) <==> output.contains(x) || (listed(before, x)
        && !merged.contains(x)) by {
        if output.contains(x) {
            assert(after.levels@[0].1@.contains(x));
        }
        if listed(before, x) && !merged.contains(x) && !before.l0_sstables@.contains(x) {
            let i = choose|i: int|
                0 <= i < before.levels@.len() && #[trigger] before.levels@[i].1@.contains(x);
            assert(i >= n);
            assert(after.levels@[i - n + 1].1@.contains(x));
        }
        if listed(after, x) && !output.contains(x) {
            if after.l0_sstables@.contains(x) {
                assert forall|j: int| 0 <= j < n implies !(
                #[trigger] before.levels@[j].1@.contains(x)) by {
                    assert(engine::apart(before.l0_sstables@, before.levels@[j].1@));
                }
            } else {
                let i = choose|i: int|
                    0 <= i < after.levels@.len() && #[trigger] after.levels@[i].1@.contains(x);
                assert(after.levels@[i].1@ == before.levels@[i - 1 + n].1@);
                assert(before.levels@[i - 1 + n].1@.contains(x));
                assert forall|j: int| 0 <= j < n implies !(
                #[trigger] before.levels@[j].1@.contains(x)) by {
                    assert(engine::apart(before.levels@[j].1@, before.levels@[i - 1 + n].1@));
                }
            }
        }
    }
}

/// An id is among those of tiers exactly where it is in one of them.
proof fn lemma_in_tiers(tiers: Seq<(usize, Vec<usize>)>, x: usize)
    ensures
        choosing::all_ids(tiers).contains(x) <==> exists|j: int|
            0 <= j < tiers.len() && #[trigger] tiers[j].1@.contains(x),
    decreases tiers.len(),
{
    choosing::lemma_tier_ids(tiers);
    if tiers.len() > 0 {
        let front = tiers.drop_last();
        choosing::lemma_tier_ids(front);
        lemma_in_tiers(front, x);
        choosing::lemma_in_both(ids::tier_ids(front), tiers.last().1@, x);
        if exists|j: int| 0 <= j < front.len() && #[trigger] front[j].1@.contains(x) {
            let j = choose|j: int| 0 <= j < front.len() && #[trigger] front[j].1@.contains(x);
            assert(tiers[j].1@.contains(x));
        }
        if exists|j: int| 0 <= j < tiers.len() && #[trigger] tiers[j].1@.contains(x) {
            let j = choose|j: int| 0 <= j < tiers.len() && #[trigger] tiers[j].1@.contains(x);
            if j < front.len() {
                assert(front[j].1@.contains(x));
            } else {
                assert(tiers.last().1@.contains(x));
            }
        }
        if tiers.last().1@.contains(x) {
            assert(tiers[tiers.len() - 1].1@.contains(x));
        }
    }
}

/// A full compaction leaves L0 empty and puts the new tables in as L1. No other table comes or goes.
pub proof fn lemma_full_lists(
    before: LsmStorageInner,
    after: LsmStorageInner,
    v: Seq<Arc<SsTable>>,
    r: Seq<Action>,
)
    requires
        executor::fully_compacted(before, after, v, r),
        before.state.levels@.len() > 0,
        engine::lists_apart(before.state),
    ensures
        after.state.l0_sstables@.len() == 0,
        lists_follow(
            before.state,
            after.state,
            before.state.l0_sstables@ + before.state.levels@[0].1@,
            after.state.levels@[0].1@,
        ),
        forall|x: usize| #[trigger]
            after.state.levels@[0].1@.contains(x) <==> exists|i: int|
                0 <= i < v.len() && (#[trigger] v[i]).id == x,
{
    let merged = before.state.l0_sstables@ + before.state.levels@[0].1@;
    assert forall|x: usize| #[trigger] merged.contains(x) <==> before.state.l0_sstables@.contains(x)
        || before.state.levels@[0].1@.contains(x) by {
        choosing::lemma_in_both(before.state.l0_sstables@, before.state.levels@[0].1@, x);
    }
    lemma_two_levels(before.state, after.state, -1, merged, executor::table_ids(v));
    lemma_table_ids(v);
}

proof fn lemma_table_ids(v: Seq<Arc<SsTable>>)
    ensures
        forall|x: usize| #[trigger]
            executor::table_ids(v).contains(x) <==> exists|i: int|
                0 <= i < v.len() && (#[trigger] v[i]).id == x,
{
    let t = executor::table_ids(v);
    assert forall|x: usize| #[trigger] t.contains(x) <==> exists|i: int|
        0 <= i < v.len() && (#[trigger] v[i]).id == x by {
        if t.contains(x) {
            let i = t.index_of(x);
            assert(v[i].id == x);
        }
        if exists|i: int| 0 <= i < v.len() && (#[trigger] v[i]).id == x {
            let i = choose|i: int| 0 <= i < v.len() && (#[trigger] v[i]).id == x;
            assert(t[i] == x);
        }
    }
}

/// After a compaction exactly those tables are loaded that are new, or were loaded and have not been
/// merged. The files of the new tables, and no others, are written.
pub proof fn lemma_loaded_after(
    before: LsmStorageInner,
    after: LsmStorageInner,
    merged: Seq<usize>,
    v: Seq<Arc<SsTable>>,
    r: Seq<Action>,
)
    requires
        executor::tables_replaced(before, after, merged, v, r),
        executor::new_tables_ok(v, before.next_sst_id as int),
    ensures
        forall|x: usize| #[trigger]
            after.state.sstables@.contains_key(x) <==> (before.state.sstables@.contains_key(x)
                && !merged.contains(x)) || exists|i: int|
                0 <= i < v.len() && (#[trigger] v[i]).id == x,
        forall|i: int|
            0 <= i < v.len() ==> after.state.sstables@[(#[trigger] v[i]).id] == v[i],
        r.len() == v.len(),
        forall|i: int|
            0 <= i < v.len() ==> (#[trigger] r[i] matches Action::WriteSst(t) && t == v[i]),
{
    let m = executor::remove_all(before.state.sstables@, merged);
    let first = before.next_sst_id as int;
    assert forall|x: usize| #[trigger] after.state.sstables@.contains_key(x) <==> (
    before.state.sstables@.contains_key(x) && !merged.contains(x)) || exists|i: int|
        0 <= i < v.len() && (#[trigger] v[i]).id == x by {
        laws::lemma_remove_all(before.state.sstables@, merged, x);
        laws::lemma_insert_all(m, v, first, x);
        if first <= x < first + v.len() {
            assert(v[x - first].id == x);
        }
    }
    assert forall|i: int| 0 <= i < v.len() implies after.state.sstables@[(#[trigger] v[i]).id]
        == v[i] by {
        laws::lemma_insert_all(m, v, first, v[i].id);
    }
    assert(engine::action_views(r).len() == v.len());
    assert forall|i: int| 0 <= i < v.len() implies (#[trigger] r[i] matches Action::WriteSst(t) && t
        == v[i]) by {
        assert(engine::action_views(r)[i] == r[i]@);
        assert(executor::write_tables(v)[i] == engine::VAction::WriteSst(v[i]));
    }
}

/// Where only listed tables are loaded, this stays so: what a compaction has merged is not kept.
pub proof fn lemma_only_listed_loaded(
    before: LsmStorageInner,
    after: LsmStorageInner,
    merged: Seq<usize>,
    v: Seq<Arc<SsTable>>,
    r: Seq<Action>,
)
    requires
        executor::tables_replaced(before, after, merged, v, r),
        executor::new_tables_ok(v, before.next_sst_id as int),
        lists_follow(before.state, after.state, merged, executor::table_ids(v)),
        forall|x: usize| #[trigger]
            before.state.sstables@.contains_key(x) ==> listed(before.state, x),
    ensures
        forall|x: usize| #[trigger]
            after.state.sstables@.contains_key(x) ==> listed(after.state, x),
{
    lemma_loaded_after(before, after, merged, v, r);
    lemma_table_ids(v);
    assert forall|x: usize| #[trigger] after.state.sstables@.contains_key(x) implies listed(
        after.state,
        x,
    ) by {
        assert(listed(after.state, x) <==> executor::table_ids(v).contains(x) || (listed(
            before.state,
            x,
        ) && !merged.contains(x)));
    }
}

} // verus!
