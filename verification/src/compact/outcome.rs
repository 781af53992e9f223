//! What a compaction writes, and when it can be done.
use std::sync::Arc;

use vstd::prelude::*;

use crate::compact::simple_leveled::{SimpleLeveledCompactionOptions, SimpleLeveledCompactionTask};
use crate::compact::tiered::{TieredCompactionOptions, TieredCompactionTask};
use crate::compact::{choosing, executor, ids, laws, leveled, simple_leveled, tiered, tombstones};
use crate::error::LsmError;
use crate::iterators::{concat_iterator, merging};
use crate::key;
use crate::key::{VEntry, VKey};
use crate::lsm_storage::{state, Action, LsmStorageInner};
use crate::table::SsTable;

verus! {

/// A list of tables is refused exactly where one of them is not loaded, and the error names the first
/// of those.
pub proof fn lemma_first_missing(tables: Map<usize, Arc<SsTable>>, ids: Seq<usize>)
    ensures
        executor::missing(tables, ids) is None <==> forall|i: int|
            0 <= i < ids.len() ==> tables.contains_key(#[trigger] ids[i]),
        executor::missing(tables, ids) matches Some(e) ==> exists|i: int|
            0 <= i < ids.len() && !tables.contains_key(#[trigger] ids[i]) && e
                == LsmError::SstableNotFound(ids[i]) && (forall|j: int|
                0 <= j < i ==> tables.contains_key(#[trigger] ids[j])),
    decreases ids.len(),
{
    if ids.len() > 0 {
        let rest = ids.drop_first();
        lemma_first_missing(tables, rest);
        if tables.contains_key(ids[0]) {
            if executor::missing(tables, ids) is Some {
                let i = choose|i: int|
                    0 <= i < rest.len() && !tables.contains_key(#[trigger] rest[i])
                        && executor::missing(tables, rest)->0 == LsmError::SstableNotFound(rest[i])
                        && (forall|j: int|
                        0 <= j < i ==> tables.contains_key(#[trigger] rest[j]));
                assert(ids[i + 1] == rest[i]);
                assert forall|j: int| 0 <= j < i + 1 implies tables.contains_key(
                    #[trigger] ids[j],
                ) by {
                    if j > 0 {
                        assert(rest[j - 1] == ids[j]);
                    }
                }
            } else {
                assert forall|i: int| 0 <= i < ids.len() implies tables.contains_key(
                    #[trigger] ids[i],
                ) by {
                    if i > 0 {
                        assert(rest[i - 1] == ids[i]);
                    }
                }
            }
            if forall|i: int| 0 <= i < ids.len() ==> tables.contains_key(#[trigger] ids[i]) {
                assert forall|i: int| 0 <= i < rest.len() implies tables.contains_key(
                    #[trigger] rest[i],
                ) by {
                    assert(rest[i] == ids[i + 1]);
                }
            }
        }
    }
}

proof fn lemma_pruned_len(s: Seq<VEntry>)
    ensures
        tombstones::pruned(s).len() <= s.len(),
    decreases s.len(),
{
    if s.len() > 0 {
        lemma_pruned_len(s.drop_first());
    }
}

proof fn lemma_cut_len(es: Seq<VEntry>, before: LsmStorageInner)
    ensures
        executor::cut(es, before.options).len() <= es.len(),
    decreases es.len(),
{
    if es.len() > 0 {
        lemma_cut_len(es.drop_last(), before);
    }
}

/// A compaction doesn't fail for want of ids where there are as many left as there are entries to be
/// merged, and two more.
pub proof fn lemma_enough_ids(
    before: LsmStorageInner,
    upper: Seq<usize>,
    lower: Seq<usize>,
    bottom: bool,
)
    ensures
        before.next_sst_id + executor::merged(before.state.sstables@, upper, lower).len() + 2
            <= usize::MAX ==> executor::ids_left(before, upper, lower, bottom),
{
    let s = executor::merged(before.state.sstables@, upper, lower);
    lemma_pruned_len(s);
    lemma_cut_len(tombstones::kept(s, bottom), before);
}

/// Simple leveled compaction changes nothing where no two levels are out of proportion. Where there is
/// a task and there are enough ids, it is run, and its new tables are the lower level. It fails only
/// for want of ids, and then nothing has changed.
pub proof fn lemma_simple_trigger(
    options: SimpleLeveledCompactionOptions,
    before: LsmStorageInner,
    after: LsmStorageInner,
    r: Result<Vec<Action>, LsmError>,
)
    requires
        executor::simple_triggered(options, before, after, r),
    ensures
        ({
            let levels = before.state.levels@;
            let due = before.state.l0_sstables@.len() >= options.level0_file_num_compaction_trigger
                || exists|u: int|
                0 <= u < levels.len() - 1 && (#[trigger] levels[u]).1@.len() > 0 && 100 * levels[u
                    + 1].1@.len() < options.size_ratio_percent * levels[u].1@.len();
            &&& !due ==> (r matches Ok(actions) && actions@.len() == 0) && after == before
            &&& r matches Err(e) ==> due && e == LsmError::OutOfIds && after == before
            &&& due && r is Ok ==> exists|task: SimpleLeveledCompactionTask, v: Seq<Arc<SsTable>>|
                choosing::simple_chosen(options, before.state, Some(task))
                    && #[trigger] executor::simple_compacted(before, after, task, v, r->Ok_0@)
            &&& (forall|task: SimpleLeveledCompactionTask| #[trigger]
                choosing::simple_chosen(options, before.state, Some(task)) ==> before.next_sst_id
                    + executor::merged(
                    before.state.sstables@,
                    task.upper_level_sst_ids@,
                    task.lower_level_sst_ids@,
                ).len() + 2 <= usize::MAX) ==> r is Ok
        }),
{
    let state = before.state;
    let levels = state.levels@;
    assert forall|task: SimpleLeveledCompactionTask| #[trigger]
        simple_leveled::generated(options, state, Some(task)) implies choosing::simple_chosen(
        options,
        state,
        Some(task),
    ) by {
        choosing::lemma_simple_choice(options, state, Some(task));
    }
    assert forall|task: SimpleLeveledCompactionTask| #[trigger]
        simple_leveled::generated(options, state, Some(task)) && state.l0_sstables@.len()
            < options.level0_file_num_compaction_trigger implies exists|u: int|
        0 <= u < levels.len() - 1 && (#[trigger] levels[u]).1@.len() > 0 && 100 * levels[u
            + 1].1@.len() < options.size_ratio_percent * levels[u].1@.len() by {
        choosing::lemma_simple_choice(options, state, Some(task));
    }
    if simple_leveled::generated(options, state, None) {
        choosing::lemma_simple_choice(options, state, None);
    }
    match r {
        Ok(actions) => {
            if !(simple_leveled::generated(options, state, None) && after == before
                && actions@.len() == 0) {
                let (task, v) = choose|task: SimpleLeveledCompactionTask, v: Seq<Arc<SsTable>>|
                    simple_leveled::generated(options, state, Some(task))
                        && executor::simple_ids_left(before, task)
                        && #[trigger] executor::simple_compacted(
                        before,
                        after,
                        task,
                        v,
                        actions@,
                    );
                assert(simple_leveled::generated(options, state, Some(task)));
            }
        },
        Err(_) => {
            let task = choose|task: SimpleLeveledCompactionTask| #[trigger]
                simple_leveled::generated(options, state, Some(task))
                    && !executor::simple_ids_left(before, task);
            assert(simple_leveled::generated(options, state, Some(task)));
            lemma_enough_ids(
                before,
                task.upper_level_sst_ids@,
                task.lower_level_sst_ids@,
                task.is_lower_level_bottom_level,
            );
        },
    }
}

/// Tiered compaction changes nothing with fewer than two or fewer than `num_tiers` tiers. Otherwise its
/// task is run where there are enough ids. It fails only for want of ids, and then nothing has
/// changed.
pub proof fn lemma_tiered_trigger(
    options: TieredCompactionOptions,
    before: LsmStorageInner,
    after: LsmStorageInner,
    r: Result<Vec<Action>, LsmError>,
)
    requires
        executor::tiers_triggered(options, before, after, r),
    ensures
        ({
            let n = before.state.levels@.len();
            let due = n >= 2 && n >= options.num_tiers;
            &&& !due ==> (r matches Ok(actions) && actions@.len() == 0) && after == before
            &&& r matches Err(e) ==> due && e == LsmError::OutOfIds && after == before
            &&& due && r is Ok ==> exists|task: TieredCompactionTask, v: Seq<Arc<SsTable>>|
                choosing::tiers_chosen(options, before.state, Some(task))
                    && #[trigger] executor::tiers_compacted(before, after, task, v, r->Ok_0@)
            &&& (forall|task: TieredCompactionTask| #[trigger]
                choosing::tiers_chosen(options, before.state, Some(task)) ==> before.next_sst_id
                    + executor::merged(
                    before.state.sstables@,
                    ids::tier_ids(task.tiers@.drop_last()),
                    task.tiers@.last().1@,
                ).len() + 2 <= usize::MAX) ==> r is Ok
        }),
{
    let state = before.state;
    assert forall|task: Option<TieredCompactionTask>| #[trigger]
        tiered::tiers_generated(options, state, task) implies choosing::tiers_chosen(
        options,
        state,
        task,
    ) by {
        choosing::lemma_tiered_choice(options, state, task);
    }
    match r {
        Ok(actions) => {
            if !(tiered::tiers_generated(options, state, None) && after == before
                && actions@.len() == 0) {
                let (task, v) = choose|task: TieredCompactionTask, v: Seq<Arc<SsTable>>|
                    tiered::tiers_generated(options, state, Some(task)) && executor::tier_ids_left(
                        before,
                        task,
                    ) && #[trigger] executor::tiers_compacted(before, after, task, v, actions@);
                assert(tiered::tiers_generated(options, state, Some(task)));
            }
        },
        Err(_) => {
            let task = choose|task: TieredCompactionTask| #[trigger]
                tiered::tiers_generated(options, state, Some(task)) && !executor::tier_ids_left(
                    before,
                    task,
                );
            assert(tiered::tiers_generated(options, state, Some(task)));
            lemma_enough_ids(
                before,
                ids::tier_ids(task.tiers@.drop_last()),
                task.tiers@.last().1@,
                task.bottom_tier_included,
            );
        },
    }
}

/// What two groups of tables say together: what the upper ones say counts before what the lower ones
/// say, and in each group what the earlier ones say.
pub open spec fn said(
    tables: Map<usize, Arc<SsTable>>,
    upper: Seq<usize>,
    lower: Seq<usize>,
) -> Map<VKey, Seq<u8>> {
    merging::union_layers(state::table_layers(tables, upper) + state::table_layers(tables, lower))
}

/// The new tables of a compaction together have exactly the versions that the merged tables had; on
/// the bottom level all but the tombstones of which the merged tables had no older version. They are
/// in key order, and none is empty.
pub proof fn lemma_output_says(
    before: LsmStorageInner,
    upper: Seq<usize>,
    lower: Seq<usize>,
    bottom: bool,
    v: Seq<Arc<SsTable>>,
)
    requires
        executor::compacted(before, upper, lower, bottom, v),
        state::tables_ok(before.state.sstables@),
        leveled::all_loaded(before.state.sstables@, upper),
        leveled::all_loaded(before.state.sstables@, lower),
    ensures
        ({
            let m = said(before.state.sstables@, upper, lower);
            let n = merging::to_map(concat_iterator::joined(v));
            &&& forall|x: VKey| #[trigger]
                n.contains_key(x) <==> m.contains_key(x) && (!bottom || m[x].len() > 0 || exists|
                    y: VKey,
                | #[trigger]
                    m.contains_key(y) && y.key == x.key && y.ts < x.ts)
            &&& forall|x: VKey| #[trigger] n.contains_key(x) ==> n[x] == m[x]
            &&& key::sorted(concat_iterator::joined(v))
            &&& forall|i: int| 0 <= i < v.len() ==> (#[trigger] v[i]).entries().len() > 0
        }),
{
    let tables = before.state.sstables@;
    let a = executor::merged_tables(tables, upper);
    let b = executor::merged_tables(tables, lower);
    let s = executor::merged(tables, upper, lower);
    let es = tombstones::kept(s, bottom);
    let m = said(tables, upper, lower);
    let n = merging::to_map(es);
    executor::lemma_merged_tables(tables, upper);
    executor::lemma_merged_tables(tables, lower);
    laws::lemma_merged_map(tables, upper);
    laws::lemma_merged_map(tables, lower);
    merging::lemma_merge2_sorted(a, b);
    merging::lemma_merge2_map(a, b);
    merging::lemma_union_concat(
        state::table_layers(tables, upper),
        state::table_layers(tables, lower),
    );
    assert(merging::to_map(s) == m);
    tombstones::lemma_pruned(s);
    assert forall|x: VKey| #[trigger] n.contains_key(x) <==> m.contains_key(x) && (!bottom
        || m[x].len() > 0 || exists|y: VKey| #[trigger]
        m.contains_key(y) && y.key == x.key && y.ts < x.ts) by {
        lemma_kept_map(s, bottom, x);
    }
    assert forall|x: VKey| #[trigger] n.contains_key(x) implies n[x] == m[x] by {
        lemma_kept_map(s, bottom, x);
    }
}

/// What is kept, as a map.
proof fn lemma_kept_map(s: Seq<VEntry>, bottom: bool, x: VKey)
    requires
        key::sorted(s),
    ensures
        ({
            let m = merging::to_map(s);
            let n = merging::to_map(tombstones::kept(s, bottom));
            &&& n.contains_key(x) <==> m.contains_key(x) && (!bottom || m[x].len() > 0 || exists|
                y: VKey,
            | #[trigger]
                m.contains_key(y) && y.key == x.key && y.ts < x.ts)
            &&& n.contains_key(x) ==> n[x] == m[x]
        }),
{
    let m = merging::to_map(s);
    let p = tombstones::kept(s, bottom);
    let n = merging::to_map(p);
    tombstones::lemma_pruned(s);
    merging::lemma_to_map_contains(s, x);
    merging::lemma_to_map_contains(p, x);
    if n.contains_key(x) {
        let i = choose|i: int| 0 <= i < p.len() && (#[trigger] p[i]).key == x;
        let e = p[i];
        assert(p.contains(e));
        tombstones::lemma_kept(s, bottom, e);
        let j = s.index_of(e);
        assert(s[j].key == x);
        assert(m[x] == e.value && n[x] == e.value);
        if bottom && e.value.len() == 0 {
            let f = choose|f: VEntry| #[trigger]
                s.contains(f) && f.key.key == e.key.key && f.key.ts < e.key.ts;
            let l = s.index_of(f);
            merging::lemma_to_map_contains(s, f.key);
            assert(s[l].key == f.key);
            assert(m.contains_key(f.key));
        }
    }
    if m.contains_key(x) {
        let i = choose|i: int| 0 <= i < s.len() && (#[trigger] s[i]).key == x;
        let e = s[i];
        assert(s.contains(e));
        assert(m[x] == e.value);
        tombstones::lemma_kept(s, bottom, e);
        if !bottom || m[x].len() > 0 || exists|y: VKey| #[trigger]
            m.contains_key(y) && y.key == x.key && y.ts < x.ts {
            if bottom && m[x].len() == 0 {
                let y = choose|y: VKey| #[trigger]
                    m.contains_key(y) && y.key == x.key && y.ts < x.ts;
                merging::lemma_to_map_contains(s, y);
                let j = choose|j: int| 0 <= j < s.len() && (#[trigger] s[j]).key == y;
                assert(s.contains(s[j]));
            }
            assert(p.contains(e));
            let k = p.index_of(e);
            assert(p[k].key == x);
        }
    }
}

/// A full compaction with no tables below L1 leaves no tombstone in L1 of which L0 and L1 had no older
/// version: a user key that was deleted and has no version left is gone.
pub proof fn lemma_full_drops_tombstones(
    before: LsmStorageInner,
    after: LsmStorageInner,
    v: Seq<Arc<SsTable>>,
    r: Seq<Action>,
    x: VKey,
)
    requires
        executor::fully_compacted(before, after, v, r),
        before.wf(),
        before.state.levels@.len() > 0,
        forall|i: int|
            0 < i < before.state.levels@.len() ==> (#[trigger] before.state.levels@[i]).1@.len()
                == 0,
    ensures
        ({
            let m = said(
                before.state.sstables@,
                before.state.l0_sstables@,
                before.state.levels@[0].1@,
            );
            let n = merging::to_map(concat_iterator::joined(v));
            m.contains_key(x) && m[x].len() == 0 && (forall|y: VKey| #[trigger]
                m.contains_key(y) && y.key == x.key ==> y.ts >= x.ts) ==> !n.contains_key(x)
        }),
{
    assert(before.state.level_ok(0));
    assert(executor::l1_is_bottom(before.state.levels@));
    lemma_output_says(
        before,
        before.state.l0_sstables@,
        before.state.levels@[0].1@,
        true,
        v,
    );
}

} // verus!
