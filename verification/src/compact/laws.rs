//! What compaction keeps.
use std::sync::Arc;

use vstd::prelude::*;

use crate::compact::executor;
use crate::compact::ids;
use crate::compact::{leveled, simple_leveled, tiered, tombstones};
use crate::compact::{
    SimpleLeveledCompactionOptions, SimpleLeveledCompactionTask, TieredCompactionOptions,
    TieredCompactionTask,
};
use crate::iterators::{concat_iterator, merging};
use crate::key;
use crate::key::{VEntry, VKey};
use crate::lsm_iterator;
use crate::lsm_storage::engine::Action;
use crate::lsm_storage::{engine, laws, read, state};
use crate::lsm_storage::{LsmStorageInner, LsmStorageState};
use crate::table;
use crate::table::SsTable;

verus! {

broadcast use vstd::std_specs::hash::group_hash_axioms;

/// Which tables are left when some are taken out.
pub proof fn lemma_remove_all(m: Map<usize, Arc<SsTable>>, ids: Seq<usize>, x: usize)
    ensures
        executor::remove_all(m, ids).contains_key(x) <==> m.contains_key(x) && !ids.contains(x),
        executor::remove_all(m, ids).contains_key(x) ==> executor::remove_all(m, ids)[x] == m[x],
    decreases ids.len(),
{
    if ids.len() > 0 {
        lemma_remove_all(m, ids.drop_last(), x);
        ids::lemma_push_contains(ids.drop_last(), ids.last(), x);
        assert(ids =~= ids.drop_last().push(ids.last()));
    }
}

/// Which tables there are when new ones come in.
pub proof fn lemma_insert_all(
    m: Map<usize, Arc<SsTable>>,
    new: Seq<Arc<SsTable>>,
    first: int,
    x: usize,
)
    requires
        executor::new_tables_ok(new, first),
    ensures
        first <= x < first + new.len() ==> executor::insert_all(m, new).contains_key(x)
            && executor::insert_all(m, new)[x] == new[x - first],
        !(first <= x < first + new.len()) ==> (executor::insert_all(m, new).contains_key(x)
            <==> m.contains_key(x)) && (m.contains_key(x) ==> executor::insert_all(m, new)[x]
            == m[x]),
    decreases new.len(),
{
    if new.len() > 0 {
        let front = new.drop_last();
        assert forall|i: int| 0 <= i < front.len() implies (#[trigger] front[i]).wf() && front[i].id
            == first + i && front[i].entries().len() > 0 && table::builder::is_built(*front[i]) by {
            assert(front[i] == new[i]);
        }
        lemma_insert_all(m, front, first, x);
        assert(new[new.len() - 1].id == first + new.len() - 1);
    }
}

/// Lists of tables that are neither taken out nor new stay as they are.
pub proof fn lemma_list_stays(
    m: Map<usize, Arc<SsTable>>,
    consumed: Seq<usize>,
    new: Seq<Arc<SsTable>>,
    first: int,
    list: Seq<usize>,
)
    requires
        executor::new_tables_ok(new, first),
        leveled::all_loaded(m, list),
        engine::apart(list, consumed),
        forall|id: usize| #[trigger] m.contains_key(id) ==> id < first,
    ensures
        leveled::all_loaded(executor::replaced(m, consumed, new), list),
        state::tables_of(executor::replaced(m, consumed, new), list) == state::tables_of(m, list),
        state::table_layers(executor::replaced(m, consumed, new), list) == state::table_layers(
            m,
            list,
        ),
{
    let n = executor::replaced(m, consumed, new);
    assert forall|i: int| 0 <= i < list.len() implies n.contains_key(#[trigger] list[i])
        && n[list[i]] == m[list[i]] by {
        assert(m.contains_key(list[i]));
        assert(list.contains(list[i]));
        lemma_remove_all(m, consumed, list[i]);
        lemma_insert_all(executor::remove_all(m, consumed), new, first, list[i]);
    }
    assert(state::tables_of(n, list) =~= state::tables_of(m, list));
    assert(state::table_layers(n, list) =~= state::table_layers(m, list));
}

/// New tables are loaded, and all loaded tables are well formed.
pub proof fn lemma_new_tables(
    m: Map<usize, Arc<SsTable>>,
    consumed: Seq<usize>,
    new: Seq<Arc<SsTable>>,
    first: int,
)
    requires
        executor::new_tables_ok(new, first),
        state::tables_ok(m),
    ensures
        state::tables_ok(executor::replaced(m, consumed, new)),
        leveled::all_loaded(executor::replaced(m, consumed, new), executor::table_ids(new)),
        state::tables_of(executor::replaced(m, consumed, new), executor::table_ids(new)) == new,
{
    let n = executor::replaced(m, consumed, new);
    let list = executor::table_ids(new);
    assert forall|i: int| 0 <= i < list.len() implies n.contains_key(#[trigger] list[i])
        && n[list[i]] == new[i] by {
        assert(new[i].id == first + i);
        lemma_insert_all(executor::remove_all(m, consumed), new, first, list[i]);
    }
    assert(state::tables_of(n, list) =~= new);
    assert forall|id: usize| #[trigger] n.contains_key(id) implies n[id].wf() && n[id].id == id by {
        lemma_remove_all(m, consumed, id);
        lemma_insert_all(executor::remove_all(m, consumed), new, first, id);
        if first <= id < first + new.len() {
            assert(new[id - first].wf());
        }
    }
}

/// Sorted entries say what their parts say, one after another.
pub proof fn lemma_to_map_concat(a: Seq<VEntry>, b: Seq<VEntry>)
    ensures
        merging::to_map(a + b) == merging::to_map(b).union_prefer_right(merging::to_map(a)),
    decreases a.len(),
{
    if a.len() == 0 {
        assert(a + b =~= b);
        assert(merging::to_map(b).union_prefer_right(merging::to_map(a)) =~= merging::to_map(b));
    } else {
        lemma_to_map_concat(a.drop_first(), b);
        assert((a + b).drop_first() =~= a.drop_first() + b);
        assert(merging::to_map(a + b) =~= merging::to_map(b).union_prefer_right(
            merging::to_map(a),
        ));
    }
}

/// Tables one after another say what the tables say together.
pub proof fn lemma_joined_map(c: Seq<Seq<VEntry>>)
    ensures
        merging::to_map(table::builder::flat(c)) == merging::union_layers(merging::maps_of(c)),
    decreases c.len(),
{
    if c.len() > 0 {
        lemma_joined_map(c.drop_first());
        lemma_to_map_concat(c[0], table::builder::flat(c.drop_first()));
        assert(merging::maps_of(c).drop_first() =~= merging::maps_of(c.drop_first()));
    }
}

/// What the merged entries of tables say.
pub proof fn lemma_merged_map(tables: Map<usize, Arc<SsTable>>, list: Seq<usize>)
    requires
        state::tables_ok(tables),
        leveled::all_loaded(tables, list),
    ensures
        merging::to_map(executor::merged_tables(tables, list)) == merging::union_layers(
            state::table_layers(tables, list),
        ),
        merging::to_map(concat_iterator::joined(state::tables_of(tables, list)))
            == merging::union_layers(state::table_layers(tables, list)),
{
    let c = concat_iterator::contents(state::tables_of(tables, list));
    executor::lemma_merged_tables(tables, list);
    merging::lemma_merge_all_map(c);
    lemma_joined_map(c);
    assert(merging::maps_of(c) =~= state::table_layers(tables, list));
}

/// What tiers say together is what their tables say, one tier after another.
pub proof fn lemma_tiers_map(s: LsmStorageState, n: int)
    requires
        s.wf(),
        0 <= n <= s.levels@.len(),
    ensures
        merging::union_layers(
            state::table_layers(s.sstables@, ids::tier_ids(s.levels@.take(n))),
        ) == merging::union_layers(state::level_layers(s.sstables@, s.levels@.take(n))),
    decreases n,
{
    let tiers = s.levels@.take(n);
    if n == 0 {
        assert(state::table_layers(s.sstables@, ids::tier_ids(tiers)) =~= Seq::empty());
        assert(state::level_layers(s.sstables@, tiers) =~= Seq::empty());
    } else {
        lemma_tiers_map(s, n - 1);
        let front = s.levels@.take(n - 1);
        let last = s.levels@[n - 1].1@;
        assert(tiers.drop_last() =~= front);
        assert(s.level_ok(n - 1));
        lemma_merged_map(s.sstables@, last);
        let a = state::table_layers(s.sstables@, ids::tier_ids(front));
        let b = state::table_layers(s.sstables@, last);
        assert(state::table_layers(s.sstables@, ids::tier_ids(tiers)) =~= a + b);
        merging::lemma_union_concat(a, b);
        let c = state::level_layers(s.sstables@, front);
        let m = merging::to_map(concat_iterator::joined(state::tables_of(s.sstables@, last)));
        assert(state::level_layers(s.sstables@, tiers) =~= c.push(m));
        merging::lemma_union_push(c, m);
    }
}

/// `n` says what `m` says, except for some tombstones of which `m` has no older version.
pub open spec fn thinned(m: Map<VKey, Seq<u8>>, n: Map<VKey, Seq<u8>>) -> bool {
    &&& forall|x: VKey| #[trigger] n.contains_key(x) ==> m.contains_key(x) && m[x] == n[x]
    &&& forall|x: VKey, y: VKey|
        #![trigger m.contains_key(x), m.contains_key(y)]
        m.contains_key(x) && !n.contains_key(x) && m.contains_key(y) && x.key == y.key ==> y.ts
            >= x.ts
    &&& forall|x: VKey| #[trigger]
        m.contains_key(x) && !n.contains_key(x) ==> m[x].len() == 0
}

/// Tombstones that hide nothing can go without any reader seeing a difference.
pub proof fn lemma_thinned_seen(m: Map<VKey, Seq<u8>>, n: Map<VKey, Seq<u8>>, k: Seq<u8>, ts: u64)
    requires
        thinned(m, n),
    ensures
        read::seen(n, k, ts) == read::seen(m, k, ts),
{
    if exists|t: u64| lsm_iterator::is_latest(m, k, ts, t) {
        let t = choose|t: u64| lsm_iterator::is_latest(m, k, ts, t);
        let x = VKey { key: k, ts: t };
        lsm_iterator::lemma_latest_unique(m, k, ts, t);
        assert(m.contains_key(x));
        if n.contains_key(x) {
            assert forall|u: u64| t < u <= ts implies !(#[trigger] n.contains_key(
                VKey { key: k, ts: u },
            )) by {
                assert(!m.contains_key(VKey { key: k, ts: u }));
            }
            assert(lsm_iterator::is_latest(n, k, ts, t));
            lsm_iterator::lemma_latest_unique(n, k, ts, t);
        } else if exists|u: u64| lsm_iterator::is_latest(n, k, ts, u) {
            let u = choose|u: u64| lsm_iterator::is_latest(n, k, ts, u);
            let y = VKey { key: k, ts: u };
            assert(n.contains_key(y));
            assert(m.contains_key(y));
            assert(u >= t);
        }
    } else if exists|u: u64| lsm_iterator::is_latest(n, k, ts, u) {
        let u = choose|u: u64| lsm_iterator::is_latest(n, k, ts, u);
        lemma_latest_exists(m, k, ts, u);
    }
}

/// A user key with a version that a reader may see has a latest one.
proof fn lemma_latest_exists(m: Map<VKey, Seq<u8>>, k: Seq<u8>, ts: u64, u: u64)
    requires
        m.contains_key(VKey { key: k, ts: u }),
        u <= ts,
    ensures
        exists|t: u64| lsm_iterator::is_latest(m, k, ts, t),
    decreases ts - u,
{
    if exists|w: u64| u < w <= ts && #[trigger] m.contains_key(VKey { key: k, ts: w }) {
        let w = choose|w: u64| u < w <= ts && #[trigger] m.contains_key(VKey { key: k, ts: w });
        lemma_latest_exists(m, k, ts, w);
    } else {
        assert(lsm_iterator::is_latest(m, k, ts, u));
    }
}

/// What replacing some layers by others keeps: nothing is added, nothing is lost but tombstones that
/// hide nothing, and those only on the bottom.
pub open spec fn layers_kept(
    a: Seq<Map<VKey, Seq<u8>>>,
    b: Seq<Map<VKey, Seq<u8>>>,
    bottom: bool,
) -> bool {
    let m = merging::union_layers(a);
    let n = merging::union_layers(b);
    &&& forall|x: VKey| #[trigger] n.contains_key(x) ==> m.contains_key(x)
    &&& !bottom ==> m == n
    &&& laws::layers_aged(a) ==> laws::layers_aged(b) && thinned(m, n)
}

/// Replacing a group of layers by a group that says the same, or on the bottom the same but for
/// tombstones that hide nothing.
#[verifier::spinoff_prover]
#[verifier::rlimit(40)]
proof fn lemma_group_kept(
    above: Seq<Map<VKey, Seq<u8>>>,
    old_group: Seq<Map<VKey, Seq<u8>>>,
    new_group: Seq<Map<VKey, Seq<u8>>>,
    below: Seq<Map<VKey, Seq<u8>>>,
    bottom: bool,
)
    requires
        thinned(merging::union_layers(old_group), merging::union_layers(new_group)),
        !bottom ==> merging::union_layers(old_group) == merging::union_layers(new_group),
        bottom ==> merging::union_layers(below) == Map::<VKey, Seq<u8>>::empty(),
        laws::layers_aged(new_group),
    ensures
        layers_kept(above + old_group + below, above + new_group + below, bottom),
{
    let a = merging::union_layers(above);
    let o = merging::union_layers(old_group);
    let n = merging::union_layers(new_group);
    let b = merging::union_layers(below);
    merging::lemma_union_concat(above, old_group);
    merging::lemma_union_concat(above, new_group);
    merging::lemma_union_concat(above + old_group, below);
    merging::lemma_union_concat(above + new_group, below);
    let before = merging::union_layers(above + old_group + below);
    let after = merging::union_layers(above + new_group + below);
    assert(before == b.union_prefer_right(o.union_prefer_right(a)));
    assert(after == b.union_prefer_right(n.union_prefer_right(a)));
    if laws::layers_aged(above + old_group + below) {
        lemma_group_aged(above, old_group, new_group, below);
        assert forall|x: VKey, y: VKey|
            #![trigger before.contains_key(x), before.contains_key(y)]
            before.contains_key(x) && !after.contains_key(x) && before.contains_key(y) && x.key
                == y.key implies y.ts >= x.ts by {
            assert(o.contains_key(x) && !n.contains_key(x) && !a.contains_key(x));
            if a.contains_key(y) {
                lemma_above_is_newer(above, old_group, below, y, x);
            } else {
                assert(o.contains_key(y));
            }
        }
    }
}

/// A version above is not older than one of the same user key in the group.
proof fn lemma_above_is_newer(
    above: Seq<Map<VKey, Seq<u8>>>,
    group: Seq<Map<VKey, Seq<u8>>>,
    below: Seq<Map<VKey, Seq<u8>>>,
    x: VKey,
    y: VKey,
)
    requires
        laws::layers_aged(above + group + below),
        merging::union_layers(above).contains_key(x),
        merging::union_layers(group).contains_key(y),
        x.key == y.key,
    ensures
        x.ts >= y.ts,
{
    let all = above + group + below;
    merging::lemma_union_contains(above, x);
    merging::lemma_union_contains(group, y);
    let i = choose|i: int| 0 <= i < above.len() && (#[trigger] above[i]).contains_key(x);
    let j = choose|j: int| 0 <= j < group.len() && (#[trigger] group[j]).contains_key(y);
    assert(all[i] == above[i]);
    assert(all[above.len() + j] == group[j]);
    assert(all[i].contains_key(x) && all[above.len() + j].contains_key(y));
}

/// Layers stay in the order of age where a group is replaced by one that says no more.
proof fn lemma_group_aged(
    above: Seq<Map<VKey, Seq<u8>>>,
    old_group: Seq<Map<VKey, Seq<u8>>>,
    new_group: Seq<Map<VKey, Seq<u8>>>,
    below: Seq<Map<VKey, Seq<u8>>>,
)
    requires
        laws::layers_aged(above + old_group + below),
        laws::layers_aged(new_group),
        thinned(merging::union_layers(old_group), merging::union_layers(new_group)),
    ensures
        laws::layers_aged(above + new_group + below),
{
    let old = above + old_group + below;
    let new = above + new_group + below;
    let p = above.len() as int;
    let q = new_group.len() as int;
    assert forall|i: int, j: int, x: VKey, y: VKey|
        0 <= i < j < new.len() && #[trigger] new[i].contains_key(x)
            && #[trigger] new[j].contains_key(y) && x.key == y.key implies x.ts >= y.ts by {
        let oi = lemma_old_place(above, old_group, new_group, below, i, x);
        let oj = lemma_old_place(above, old_group, new_group, below, j, y);
        if p <= i && j < p + q {
            assert(new[i] == new_group[i - p]);
            assert(new[j] == new_group[j - p]);
        } else {
            assert(old[oi].contains_key(x) && old[oj].contains_key(y));
        }
    }
}

/// Where a version of the new layers stood in the old ones.
proof fn lemma_old_place(
    above: Seq<Map<VKey, Seq<u8>>>,
    old_group: Seq<Map<VKey, Seq<u8>>>,
    new_group: Seq<Map<VKey, Seq<u8>>>,
    below: Seq<Map<VKey, Seq<u8>>>,
    i: int,
    x: VKey,
) -> (o: int)
    requires
        thinned(merging::union_layers(old_group), merging::union_layers(new_group)),
        0 <= i < (above + new_group + below).len(),
        (above + new_group + below)[i].contains_key(x),
    ensures
        0 <= o < (above + old_group + below).len(),
        (above + old_group + below)[o].contains_key(x),
        i < above.len() ==> o == i,
        above.len() <= i < above.len() + new_group.len() ==> above.len() <= o < above.len()
            + old_group.len(),
        i >= above.len() + new_group.len() ==> o == i - new_group.len() + old_group.len(),
{
    let old = above + old_group + below;
    let new = above + new_group + below;
    let p = above.len() as int;
    if i < p {
        assert(old[i] == above[i] && new[i] == above[i]);
        i
    } else if i < p + new_group.len() {
        assert(new[i] == new_group[i - p]);
        merging::lemma_union_contains(new_group, x);
        merging::lemma_union_contains(old_group, x);
        let o = choose|o: int| 0 <= o < old_group.len() && (#[trigger] old_group[o]).contains_key(
            x,
        );
        assert(old[p + o] == old_group[o]);
        p + o
    } else {
        let o = i - new_group.len() + old_group.len();
        assert(old[o] == below[i - p - new_group.len()]);
        assert(new[i] == below[i - p - new_group.len()]);
        o
    }
}

/// What two groups of tables say together.
proof fn lemma_two_groups(
    tables: Map<usize, Arc<SsTable>>,
    upper: Seq<usize>,
    lower: Seq<usize>,
)
    requires
        state::tables_ok(tables),
        leveled::all_loaded(tables, upper),
        leveled::all_loaded(tables, lower),
    ensures
        key::sorted(executor::merged(tables, upper, lower)),
        merging::to_map(executor::merged(tables, upper, lower)) == merging::union_layers(
            state::table_layers(tables, lower),
        ).union_prefer_right(merging::union_layers(state::table_layers(tables, upper))),
{
    executor::lemma_merged_tables(tables, upper);
    executor::lemma_merged_tables(tables, lower);
    lemma_merged_map(tables, upper);
    lemma_merged_map(tables, lower);
    let a = executor::merged_tables(tables, upper);
    let b = executor::merged_tables(tables, lower);
    merging::lemma_merge2_sorted(a, b);
    merging::lemma_merge2_map(a, b);
}

/// The new tables say what the merged tables say, but for tombstones that hide nothing.
proof fn lemma_compacted_thins(
    before: LsmStorageInner,
    upper: Seq<usize>,
    lower: Seq<usize>,
    bottom: bool,
    v: Seq<Arc<SsTable>>,
)
    requires
        state::tables_ok(before.state.sstables@),
        leveled::all_loaded(before.state.sstables@, upper),
        leveled::all_loaded(before.state.sstables@, lower),
        executor::compacted(before, upper, lower, bottom, v),
    ensures
        ({
            let m = merging::union_layers(
                state::table_layers(before.state.sstables@, lower),
            ).union_prefer_right(
                merging::union_layers(state::table_layers(before.state.sstables@, upper)),
            );
            let n = merging::to_map(concat_iterator::joined(v));
            thinned(m, n) && (!bottom ==> m == n)
        }),
{
    lemma_two_groups(before.state.sstables@, upper, lower);
    let s = executor::merged(before.state.sstables@, upper, lower);
    if bottom {
        let m = merging::to_map(s);
        let n = merging::to_map(tombstones::pruned(s));
        assert forall|x: VKey| #[trigger] n.contains_key(x) implies m.contains_key(x) && m[x]
            == n[x] by {
            tombstones::lemma_pruned_out(s, x);
        }
        assert forall|x: VKey, y: VKey|
            #![trigger m.contains_key(x), m.contains_key(y)]
            m.contains_key(x) && !n.contains_key(x) && m.contains_key(y) && x.key
                == y.key implies y.ts >= x.ts by {
            tombstones::lemma_pruned_out(s, x);
        }
        assert forall|x: VKey| #[trigger]
            m.contains_key(x) && !n.contains_key(x) implies m[x].len() == 0 by {
            tombstones::lemma_pruned_out(s, x);
        }
    }
}

/// A level of a well-formed state says what its tables say together.
proof fn lemma_level_layer(s: LsmStorageState, i: int)
    requires
        s.wf(),
        0 <= i < s.levels@.len(),
    ensures
        leveled::all_loaded(s.sstables@, s.levels@[i].1@),
        state::level_layers(s.sstables@, s.levels@)[i] == merging::union_layers(
            state::table_layers(s.sstables@, s.levels@[i].1@),
        ),
{
    assert(s.level_ok(i));
    lemma_merged_map(s.sstables@, s.levels@[i].1@);
}

/// The mem-tables keep their ids, and the new tables have other ones.
proof fn lemma_mem_ids_stay(
    before: LsmStorageInner,
    after: LsmStorageInner,
    consumed: Seq<usize>,
    v: Seq<Arc<SsTable>>,
    r: Seq<Action>,
)
    requires
        before.mem_ids_ok(),
        executor::new_tables_ok(v, before.next_sst_id as int),
        executor::tables_replaced(before, after, consumed, v, r),
        after.state.memtable == before.state.memtable,
        after.state.imm_memtables == before.state.imm_memtables,
    ensures
        after.mem_ids_ok(),
{
    let a = before.write_state().mems;
    let b = after.write_state().mems;
    assert(a =~= b);
    assert forall|i: int| 0 <= i < b.len() implies (#[trigger] b[i]).id < after.next_sst_id
        && !after.state.sstables@.contains_key(b[i].id) by {
        assert(a[i] == b[i]);
        lemma_remove_all(before.state.sstables@, consumed, b[i].id);
        lemma_insert_all(
            executor::remove_all(before.state.sstables@, consumed),
            v,
            before.next_sst_id as int,
            b[i].id,
        );
    }
}

/// The ids of loaded tables stay below the next id.
proof fn lemma_next_id_stays_ahead(
    before: LsmStorageInner,
    after: LsmStorageInner,
    consumed: Seq<usize>,
    v: Seq<Arc<SsTable>>,
    r: Seq<Action>,
)
    requires
        before.sst_ids_ok(),
        executor::new_tables_ok(v, before.next_sst_id as int),
        executor::tables_replaced(before, after, consumed, v, r),
    ensures
        forall|id: usize| #[trigger]
            after.state.sstables@.contains_key(id) ==> id < after.next_sst_id,
{
    assert forall|id: usize| #[trigger] after.state.sstables@.contains_key(id) implies id
        < after.next_sst_id by {
        lemma_remove_all(before.state.sstables@, consumed, id);
        lemma_insert_all(
            executor::remove_all(before.state.sstables@, consumed),
            v,
            before.next_sst_id as int,
            id,
        );
    }
}

/// New ids are in no list.
proof fn lemma_new_ids_apart(e: LsmStorageInner, v: Seq<Arc<SsTable>>, list: Seq<usize>)
    requires
        e.sst_ids_ok(),
        executor::new_tables_ok(v, e.next_sst_id as int),
        leveled::all_loaded(e.state.sstables@, list),
    ensures
        engine::apart(list, executor::table_ids(v)),
        engine::apart(executor::table_ids(v), list),
{
    let new = executor::table_ids(v);
    assert forall|x: usize| list.contains(x) && new.contains(x) implies false by {
        let i = list.index_of(x);
        let j = new.index_of(x);
        assert(e.state.sstables@.contains_key(list[i]));
        assert(v[j].id == e.next_sst_id + j);
    }
}

/// A list that is apart from two lists is apart from both together.
proof fn lemma_apart_concat(a: Seq<usize>, b: Seq<usize>, c: Seq<usize>)
    requires
        engine::apart(a, b),
        engine::apart(a, c),
    ensures
        engine::apart(a, b + c),
{
    assert forall|x: usize| #[trigger] a.contains(x) implies !(b + c).contains(x) by {
        if (b + c).contains(x) {
            let i = (b + c).index_of(x);
            if i < b.len() {
                assert(b[i] == x);
                assert(b.contains(x));
            } else {
                assert(c[i - b.len()] == x);
                assert(c.contains(x));
            }
        }
    }
}

proof fn lemma_apart_swap(a: Seq<usize>, b: Seq<usize>)
    requires
        engine::apart(a, b),
    ensures
        engine::apart(b, a),
{
}

/// One level that is not touched.
proof fn lemma_level_stays(
    before: LsmStorageState,
    after: LsmStorageState,
    consumed: Seq<usize>,
    v: Seq<Arc<SsTable>>,
    first: int,
    i: int,
    j: int,
)
    requires
        before.level_ok(i),
        0 <= i < before.levels@.len(),
        0 <= j < after.levels@.len(),
        after.levels@[j].0 == j + 1,
        after.levels@[j].1@ == before.levels@[i].1@,
        after.sstables@ == executor::replaced(before.sstables@, consumed, v),
        executor::new_tables_ok(v, first),
        engine::apart(before.levels@[i].1@, consumed),
        forall|id: usize| #[trigger] before.sstables@.contains_key(id) ==> id < first,
    ensures
        after.level_ok(j),
        state::level_layers(after.sstables@, after.levels@)[j] == state::level_layers(
            before.sstables@,
            before.levels@,
        )[i],
{
    lemma_list_stays(before.sstables@, consumed, v, first, before.levels@[i].1@);
}

/// One level that consists of the new tables.
proof fn lemma_level_is_new(
    before: LsmStorageState,
    after: LsmStorageState,
    consumed: Seq<usize>,
    v: Seq<Arc<SsTable>>,
    first: int,
    j: int,
)
    requires
        state::tables_ok(before.sstables@),
        0 <= j < after.levels@.len(),
        after.levels@[j].0 == j + 1,
        after.levels@[j].1@ == executor::table_ids(v),
        after.sstables@ == executor::replaced(before.sstables@, consumed, v),
        executor::new_tables_ok(v, first),
        concat_iterator::run_ok(v),
    ensures
        after.level_ok(j),
        state::level_layers(after.sstables@, after.levels@)[j] == merging::to_map(
            concat_iterator::joined(v),
        ),
{
    lemma_new_tables(before.sstables@, consumed, v, first);
}

/// The lists after L0 and L1 have been merged into a new L1.
spec fn l1_renewed(
    before: LsmStorageInner,
    after: LsmStorageInner,
    v: Seq<Arc<SsTable>>,
    bottom: bool,
    r: Seq<Action>,
) -> bool {
    let a = before.state;
    let b = after.state;
    &&& executor::compacted(before, a.l0_sstables@, a.levels@[0].1@, bottom, v)
    &&& b.memtable == a.memtable
    &&& b.imm_memtables == a.imm_memtables
    &&& b.l0_sstables@.len() == 0
    &&& b.levels@.len() == a.levels@.len()
    &&& b.levels@[0].0 == 1
    &&& b.levels@[0].1@ == executor::table_ids(v)
    &&& forall|i: int| 0 < i < b.levels@.len() ==> #[trigger] b.levels@[i] == a.levels@[i]
    &&& executor::tables_replaced(before, after, a.l0_sstables@ + a.levels@[0].1@, v, r)
}

/// Levels below L1 are not touched when L1 is renewed.
proof fn lemma_l1_others(
    before: LsmStorageInner,
    after: LsmStorageInner,
    v: Seq<Arc<SsTable>>,
    bottom: bool,
    r: Seq<Action>,
    i: int,
)
    requires
        before.wf(),
        before.sst_ids_ok(),
        l1_renewed(before, after, v, bottom, r),
        0 < i < before.state.levels@.len(),
    ensures
        after.state.level_ok(i),
        state::level_layers(after.state.sstables@, after.state.levels@)[i] == state::level_layers(
            before.state.sstables@,
            before.state.levels@,
        )[i],
{
    let a = before.state;
    let consumed = a.l0_sstables@ + a.levels@[0].1@;
    assert(a.level_ok(i));
    lemma_apart_swap(a.l0_sstables@, a.levels@[i].1@);
    assert(engine::apart(a.levels@[i].1@, a.levels@[0].1@));
    lemma_apart_concat(a.levels@[i].1@, a.l0_sstables@, a.levels@[0].1@);
    lemma_level_stays(a, after.state, consumed, v, before.next_sst_id as int, i, i);
}

/// Renewing L1 keeps the engine well formed and its ids in order.
#[verifier::spinoff_prover]
#[verifier::rlimit(40)]
proof fn lemma_l1_wf(
    before: LsmStorageInner,
    after: LsmStorageInner,
    v: Seq<Arc<SsTable>>,
    bottom: bool,
    r: Seq<Action>,
)
    requires
        before.wf(),
        before.sst_ids_ok(),
        before.state.levels@.len() > 0,
        l1_renewed(before, after, v, bottom, r),
    ensures
        after.parts_ok(),
        after.sst_ids_ok(),
        before.ids_ok() ==> after.ids_ok(),
{
    let a = before.state;
    let b = after.state;
    let first = before.next_sst_id as int;
    let consumed = a.l0_sstables@ + a.levels@[0].1@;
    lemma_new_tables(a.sstables@, consumed, v, first);
    assert forall|i: int| 0 <= i < b.levels@.len() implies #[trigger] b.level_ok(i) by {
        if i == 0 {
            lemma_level_is_new(a, b, consumed, v, first, 0);
        } else {
            lemma_l1_others(before, after, v, bottom, r, i);
        }
    }
    lemma_next_id_stays_ahead(before, after, consumed, v, r);
    assert forall|i: int| 0 <= i < b.levels@.len() implies engine::apart(
        b.l0_sstables@,
        #[trigger] b.levels@[i].1@,
    ) by {}
    assert forall|i: int, j: int|
        #![trigger b.levels@[i], b.levels@[j]]
        0 <= i < b.levels@.len() && 0 <= j < b.levels@.len() && i != j implies engine::apart(
        b.levels@[i].1@,
        b.levels@[j].1@,
    ) by {
        if i > 0 && j > 0 {
            assert(engine::apart(a.levels@[i].1@, a.levels@[j].1@));
        } else if i == 0 {
            assert(a.level_ok(j));
            lemma_new_ids_apart(before, v, a.levels@[j].1@);
        } else {
            assert(a.level_ok(i));
            lemma_new_ids_apart(before, v, a.levels@[i].1@);
        }
    }
    if before.ids_ok() {
        lemma_mem_ids_stay(before, after, consumed, v, r);
    }
}

/// Renewing L1 keeps what the engine holds, but for tombstones that hide nothing.
#[verifier::spinoff_prover]
#[verifier::rlimit(40)]
proof fn lemma_l1_contents(
    before: LsmStorageInner,
    after: LsmStorageInner,
    v: Seq<Arc<SsTable>>,
    bottom: bool,
    r: Seq<Action>,
)
    requires
        before.wf(),
        before.sst_ids_ok(),
        before.state.levels@.len() > 0,
        l1_renewed(before, after, v, bottom, r),
        bottom ==> executor::l1_is_bottom(before.state.levels@),
    ensures
        layers_kept(before.state.layers(), after.state.layers(), bottom),
{
    let a = before.state;
    let b = after.state;
    let first = before.next_sst_id as int;
    let upper = a.l0_sstables@;
    let lower = a.levels@[0].1@;
    lemma_level_layer(a, 0);
    lemma_compacted_thins(before, upper, lower, bottom, v);
    lemma_level_is_new(a, b, upper + lower, v, first, 0);
    let mems = state::mem_layers(a);
    let l0 = state::table_layers(a.sstables@, upper);
    let la = state::level_layers(a.sstables@, a.levels@);
    let lb = state::level_layers(b.sstables@, b.levels@);
    let old_group = l0 + seq![la[0]];
    let new_group = seq![lb[0]];
    let below = la.skip(1);
    merging::lemma_union_push(l0, la[0]);
    assert(l0.push(la[0]) =~= old_group);
    lemma_single_layer(lb[0]);
    lemma_nothing_below(a, 1, bottom);
    lemma_group_kept(mems, old_group, new_group, below, bottom);
    assert(a.layers() =~= mems + old_group + below);
    assert(b.layers() =~= mems + new_group + below) by {
        assert(state::mem_layers(b) =~= mems);
        assert(state::table_layers(b.sstables@, b.l0_sstables@) =~= Seq::empty());
        assert forall|i: int| 0 < i < lb.len() implies #[trigger] lb[i] == la[i] by {
            lemma_l1_others(before, after, v, bottom, r, i);
        }
        assert(lb =~= new_group + below);
    }
}

/// Where the levels from `i` on have no tables, nothing is said below.
proof fn lemma_nothing_below(s: LsmStorageState, i: int, bottom: bool)
    requires
        0 <= i <= s.levels@.len(),
        bottom ==> forall|j: int| i <= j < s.levels@.len() ==> (#[trigger] s.levels@[j]).1@.len()
            == 0,
    ensures
        bottom ==> merging::union_layers(
            state::level_layers(s.sstables@, s.levels@).skip(i),
        ) == Map::<VKey, Seq<u8>>::empty(),
{
    if bottom {
        let below = state::level_layers(s.sstables@, s.levels@).skip(i);
        assert forall|k: VKey| !merging::union_layers(below).contains_key(k) by {
            merging::lemma_union_contains(below, k);
            if merging::union_layers(below).contains_key(k) {
                let j = choose|j: int| 0 <= j < below.len() && (#[trigger] below[j]).contains_key(
                    k,
                );
                lemma_empty_level(s, i + j);
            }
        }
        assert(merging::union_layers(below) =~= Map::<VKey, Seq<u8>>::empty());
    }
}

proof fn lemma_single_layer(m: Map<VKey, Seq<u8>>)
    ensures
        merging::union_layers(seq![m]) == m,
{
    assert(seq![m].drop_first() =~= Seq::empty());
    assert(merging::union_layers(seq![m].drop_first()) =~= Map::empty());
    assert(merging::union_layers(seq![m]) =~= m);
}

/// What a full compaction keeps: the engine stays well formed, its ids stay in order, and where they
/// are in order, what lies further up stays the newer. Every reader goes on to see the same of every
/// user key.
pub proof fn lemma_full_compaction_keeps(
    before: LsmStorageInner,
    after: LsmStorageInner,
    v: Seq<Arc<SsTable>>,
    r: Seq<Action>,
    k: Seq<u8>,
    read_ts: u64,
)
    requires
        before.wf(),
        before.sst_ids_ok(),
        before.state.levels@.len() > 0,
        executor::fully_compacted(before, after, v, r),
    ensures
        after.wf(),
        after.sst_ids_ok(),
        before.ids_ok() ==> after.ids_ok(),
        before.aged() ==> after.aged() && thinned(before.contents(), after.contents()),
        before.aged() ==> read::seen(after.contents(), k, read_ts) == read::seen(
            before.contents(),
            k,
            read_ts,
        ),
{
    let bottom = executor::l1_is_bottom(before.state.levels@);
    lemma_l1_wf(before, after, v, bottom, r);
    lemma_l1_contents(before, after, v, bottom, r);
    if before.aged() {
        lemma_thinned_seen(before.contents(), after.contents(), k, read_ts);
    }
}

/// A list without its own ids is empty, and has all of them in common with itself.
proof fn lemma_without_subset(s: Seq<usize>, t: Seq<usize>)
    requires
        forall|i: int| 0 <= i < s.len() ==> t.contains(#[trigger] s[i]),
    ensures
        ids::without(s, t).len() == 0,
        ids::common(s, t) == s,
    decreases s.len(),
{
    if s.len() > 0 {
        let front = s.drop_last();
        assert forall|i: int| 0 <= i < front.len() implies t.contains(#[trigger] front[i]) by {
            assert(front[i] == s[i]);
        }
        lemma_without_subset(front, t);
        assert(t.contains(s[s.len() - 1]));
        assert(front.push(s.last()) =~= s);
    }
}

/// A task of simple leveled compaction on L0 renews L1.
proof fn lemma_simple_l0(
    options: SimpleLeveledCompactionOptions,
    before: LsmStorageInner,
    after: LsmStorageInner,
    task: SimpleLeveledCompactionTask,
    v: Seq<Arc<SsTable>>,
    r: Seq<Action>,
)
    requires
        before.state.levels@.len() > 0,
        simple_leveled::generated(options, before.state, Some(task)),
        executor::simple_compacted(before, after, task, v, r),
        before.state.l0_sstables@.len() >= options.level0_file_num_compaction_trigger,
    ensures
        l1_renewed(before, after, v, task.is_lower_level_bottom_level, r),
        task.upper_level_sst_ids@ == before.state.l0_sstables@,
        task.lower_level_sst_ids@ == before.state.levels@[0].1@,
{
    let l0 = before.state.l0_sstables@;
    assert forall|i: int| 0 <= i < l0.len() implies l0.contains(#[trigger] l0[i]) by {}
    lemma_without_subset(l0, l0);
}

/// The level at index `i` has been merged into the next one.
spec fn next_level_renewed(
    before: LsmStorageInner,
    after: LsmStorageInner,
    v: Seq<Arc<SsTable>>,
    bottom: bool,
    r: Seq<Action>,
    i: int,
) -> bool {
    let a = before.state;
    let b = after.state;
    &&& 0 <= i && i + 1 < a.levels@.len()
    &&& executor::compacted(before, a.levels@[i].1@, a.levels@[i + 1].1@, bottom, v)
    &&& b.memtable == a.memtable
    &&& b.imm_memtables == a.imm_memtables
    &&& b.l0_sstables == a.l0_sstables
    &&& b.levels@.len() == a.levels@.len()
    &&& b.levels@[i].0 == i + 1
    &&& b.levels@[i].1@.len() == 0
    &&& b.levels@[i + 1].0 == i + 2
    &&& b.levels@[i + 1].1@ == executor::table_ids(v)
    &&& forall|j: int|
        0 <= j < b.levels@.len() && j != i && j != i + 1 ==> #[trigger] b.levels@[j]
            == a.levels@[j]
    &&& executor::tables_replaced(before, after, a.levels@[i].1@ + a.levels@[i + 1].1@, v, r)
}

/// A task of simple leveled compaction below L0 merges a level into the next one.
proof fn lemma_simple_below(
    options: SimpleLeveledCompactionOptions,
    before: LsmStorageInner,
    after: LsmStorageInner,
    task: SimpleLeveledCompactionTask,
    v: Seq<Arc<SsTable>>,
    r: Seq<Action>,
) -> (i: int)
    requires
        before.wf(),
        simple_leveled::generated(options, before.state, Some(task)),
        executor::simple_compacted(before, after, task, v, r),
        before.state.l0_sstables@.len() < options.level0_file_num_compaction_trigger,
    ensures
        next_level_renewed(before, after, v, task.is_lower_level_bottom_level, r, i),
        task.upper_level_sst_ids@ == before.state.levels@[i].1@,
        task.lower_level_sst_ids@ == before.state.levels@[i + 1].1@,
        task.is_lower_level_bottom_level ==> i + 2 == before.state.levels@.len(),
{
    let levels = before.state.levels@;
    executor::lemma_first_due(levels, options.size_ratio_percent as int, 0);
    let i = simple_leveled::first_due(levels, options.size_ratio_percent as int, 0)->0;
    assert(before.state.level_ok(i));
    assert(before.state.level_ok(i + 1));
    i
}

/// Other levels are not touched when a level is merged into the next one.
proof fn lemma_next_others(
    before: LsmStorageInner,
    after: LsmStorageInner,
    v: Seq<Arc<SsTable>>,
    bottom: bool,
    r: Seq<Action>,
    i: int,
    j: int,
)
    requires
        before.wf(),
        before.sst_ids_ok(),
        next_level_renewed(before, after, v, bottom, r, i),
        0 <= j < before.state.levels@.len(),
        j != i,
        j != i + 1,
    ensures
        after.state.level_ok(j),
        state::level_layers(after.state.sstables@, after.state.levels@)[j] == state::level_layers(
            before.state.sstables@,
            before.state.levels@,
        )[j],
{
    let a = before.state;
    let consumed = a.levels@[i].1@ + a.levels@[i + 1].1@;
    assert(a.level_ok(j));
    assert(engine::apart(a.levels@[j].1@, a.levels@[i].1@));
    assert(engine::apart(a.levels@[j].1@, a.levels@[i + 1].1@));
    lemma_apart_concat(a.levels@[j].1@, a.levels@[i].1@, a.levels@[i + 1].1@);
    lemma_level_stays(a, after.state, consumed, v, before.next_sst_id as int, j, j);
}

/// An empty level is in order and says nothing.
proof fn lemma_empty_level(s: LsmStorageState, i: int)
    requires
        0 <= i < s.levels@.len(),
        s.levels@[i].0 == i + 1,
        s.levels@[i].1@.len() == 0,
    ensures
        s.level_ok(i),
        state::level_layers(s.sstables@, s.levels@)[i] == Map::<VKey, Seq<u8>>::empty(),
{
    let tables = state::tables_of(s.sstables@, s.levels@[i].1@);
    assert(concat_iterator::contents(tables) =~= Seq::empty());
    assert(concat_iterator::joined(tables) =~= Seq::empty());
}

/// L0 is not touched when a level is merged into the next one.
proof fn lemma_next_l0(
    before: LsmStorageInner,
    after: LsmStorageInner,
    v: Seq<Arc<SsTable>>,
    bottom: bool,
    r: Seq<Action>,
    i: int,
)
    requires
        before.wf(),
        before.sst_ids_ok(),
        next_level_renewed(before, after, v, bottom, r, i),
    ensures
        leveled::all_loaded(after.state.sstables@, after.state.l0_sstables@),
        state::table_layers(after.state.sstables@, after.state.l0_sstables@)
            == state::table_layers(before.state.sstables@, before.state.l0_sstables@),
{
    let a = before.state;
    assert(engine::apart(a.l0_sstables@, a.levels@[i].1@));
    assert(engine::apart(a.l0_sstables@, a.levels@[i + 1].1@));
    lemma_apart_concat(a.l0_sstables@, a.levels@[i].1@, a.levels@[i + 1].1@);
    lemma_list_stays(
        a.sstables@,
        a.levels@[i].1@ + a.levels@[i + 1].1@,
        v,
        before.next_sst_id as int,
        a.l0_sstables@,
    );
}

/// Merging a level into the next one keeps the engine well formed and its ids in order.
#[verifier::spinoff_prover]
#[verifier::rlimit(40)]
proof fn lemma_next_wf(
    before: LsmStorageInner,
    after: LsmStorageInner,
    v: Seq<Arc<SsTable>>,
    bottom: bool,
    r: Seq<Action>,
    i: int,
)
    requires
        before.wf(),
        before.sst_ids_ok(),
        next_level_renewed(before, after, v, bottom, r, i),
    ensures
        after.parts_ok(),
        after.sst_ids_ok(),
        before.ids_ok() ==> after.ids_ok(),
{
    let a = before.state;
    let b = after.state;
    let first = before.next_sst_id as int;
    let consumed = a.levels@[i].1@ + a.levels@[i + 1].1@;
    lemma_new_tables(a.sstables@, consumed, v, first);
    lemma_next_l0(before, after, v, bottom, r, i);
    assert forall|j: int| 0 <= j < b.levels@.len() implies #[trigger] b.level_ok(j) by {
        if j == i {
            lemma_empty_level(b, i);
        } else if j == i + 1 {
            lemma_level_is_new(a, b, consumed, v, first, i + 1);
        } else {
            lemma_next_others(before, after, v, bottom, r, i, j);
        }
    }
    lemma_next_id_stays_ahead(before, after, consumed, v, r);
    assert forall|j: int| 0 <= j < b.levels@.len() implies engine::apart(
        b.l0_sstables@,
        #[trigger] b.levels@[j].1@,
    ) by {
        if j == i + 1 {
            lemma_new_ids_apart(before, v, a.l0_sstables@);
        } else if j != i {
            assert(engine::apart(a.l0_sstables@, a.levels@[j].1@));
        }
    }
    assert forall|j: int, l: int|
        #![trigger b.levels@[j], b.levels@[l]]
        0 <= j < b.levels@.len() && 0 <= l < b.levels@.len() && j != l implies engine::apart(
        b.levels@[j].1@,
        b.levels@[l].1@,
    ) by {
        if j != i && l != i {
            if j == i + 1 {
                assert(a.level_ok(l));
                lemma_new_ids_apart(before, v, a.levels@[l].1@);
            } else if l == i + 1 {
                assert(a.level_ok(j));
                lemma_new_ids_apart(before, v, a.levels@[j].1@);
            } else {
                assert(engine::apart(a.levels@[j].1@, a.levels@[l].1@));
            }
        }
    }
    if before.ids_ok() {
        lemma_mem_ids_stay(before, after, consumed, v, r);
    }
}

/// Merging a level into the next one keeps what the engine holds, but for tombstones that hide
/// nothing.
#[verifier::spinoff_prover]
#[verifier::rlimit(40)]
proof fn lemma_next_contents(
    before: LsmStorageInner,
    after: LsmStorageInner,
    v: Seq<Arc<SsTable>>,
    bottom: bool,
    r: Seq<Action>,
    i: int,
)
    requires
        before.wf(),
        before.sst_ids_ok(),
        next_level_renewed(before, after, v, bottom, r, i),
        bottom ==> i + 2 == before.state.levels@.len(),
    ensures
        layers_kept(before.state.layers(), after.state.layers(), bottom),
{
    let a = before.state;
    let b = after.state;
    let first = before.next_sst_id as int;
    let upper = a.levels@[i].1@;
    let lower = a.levels@[i + 1].1@;
    lemma_level_layer(a, i);
    lemma_level_layer(a, i + 1);
    lemma_compacted_thins(before, upper, lower, bottom, v);
    lemma_level_is_new(a, b, upper + lower, v, first, i + 1);
    lemma_empty_level(b, i);
    lemma_next_l0(before, after, v, bottom, r, i);
    let mems = state::mem_layers(a);
    let l0 = state::table_layers(a.sstables@, a.l0_sstables@);
    let la = state::level_layers(a.sstables@, a.levels@);
    let lb = state::level_layers(b.sstables@, b.levels@);
    let above = mems + l0 + la.take(i);
    let old_group = seq![la[i], la[i + 1]];
    let new_group = seq![lb[i], lb[i + 1]];
    let below = la.skip(i + 2);
    lemma_two_layers(la[i], la[i + 1]);
    lemma_two_layers(lb[i], lb[i + 1]);
    assert(lb[i + 1].union_prefer_right(lb[i]) =~= lb[i + 1]);
    lemma_nothing_below(a, i + 2, bottom);
    lemma_group_kept(above, old_group, new_group, below, bottom);
    lemma_split_layers(a, i);
    lemma_split_layers(b, i);
    assert forall|j: int| 0 <= j < lb.len() && j != i && j != i + 1 implies #[trigger] lb[j]
        == la[j] by {
        lemma_next_others(before, after, v, bottom, r, i, j);
    }
    assert(lb.take(i) =~= la.take(i));
    assert(lb.skip(i + 2) =~= below);
    assert(state::mem_layers(b) =~= mems);
}

/// The layers above a level, that level and the next one, and the layers below.
proof fn lemma_split_layers(s: LsmStorageState, i: int)
    requires
        0 <= i,
        i + 1 < s.levels@.len(),
    ensures
        ({
            let l = state::level_layers(s.sstables@, s.levels@);
            s.layers() == (state::mem_layers(s) + state::table_layers(
                s.sstables@,
                s.l0_sstables@,
            ) + l.take(i)) + seq![l[i], l[i + 1]] + l.skip(i + 2)
        }),
{
    let l = state::level_layers(s.sstables@, s.levels@);
    let above = state::mem_layers(s) + state::table_layers(s.sstables@, s.l0_sstables@);
    assert(l =~= l.take(i) + seq![l[i], l[i + 1]] + l.skip(i + 2));
    assert(s.layers() =~= (above + l.take(i)) + seq![l[i], l[i + 1]] + l.skip(i + 2));
}

proof fn lemma_two_layers(m: Map<VKey, Seq<u8>>, n: Map<VKey, Seq<u8>>)
    ensures
        merging::union_layers(seq![m, n]) == n.union_prefer_right(m),
{
    lemma_single_layer(n);
    assert(seq![m, n].drop_first() =~= seq![n]);
}

/// What a task of simple leveled compaction keeps: the engine stays well formed, its ids stay in
/// order, and what lies further up stays the newer. Where the task is not on the bottom level, the
/// engine holds the same as before. Every reader goes on to see the same of every user key.
pub proof fn lemma_simple_compaction_keeps(
    options: SimpleLeveledCompactionOptions,
    before: LsmStorageInner,
    after: LsmStorageInner,
    task: SimpleLeveledCompactionTask,
    v: Seq<Arc<SsTable>>,
    r: Seq<Action>,
    k: Seq<u8>,
    read_ts: u64,
)
    requires
        before.wf(),
        before.sst_ids_ok(),
        simple_leveled::can_generate(options, before.state),
        simple_leveled::generated(options, before.state, Some(task)),
        executor::simple_compacted(before, after, task, v, r),
    ensures
        after.wf(),
        after.sst_ids_ok(),
        before.ids_ok() ==> after.ids_ok(),
        !task.is_lower_level_bottom_level ==> after.contents() == before.contents(),
        before.aged() ==> after.aged() && thinned(before.contents(), after.contents()),
        before.aged() ==> read::seen(after.contents(), k, read_ts) == read::seen(
            before.contents(),
            k,
            read_ts,
        ),
{
    let bottom = task.is_lower_level_bottom_level;
    if before.state.l0_sstables@.len() >= options.level0_file_num_compaction_trigger {
        lemma_simple_l0(options, before, after, task, v, r);
        lemma_l1_wf(before, after, v, bottom, r);
        lemma_l1_contents(before, after, v, bottom, r);
    } else {
        let i = lemma_simple_below(options, before, after, task, v, r);
        lemma_next_wf(before, after, v, bottom, r, i);
        lemma_next_contents(before, after, v, bottom, r, i);
    }
    if before.aged() {
        lemma_thinned_seen(before.contents(), after.contents(), k, read_ts);
    }
}

/// The first `n` tiers have been merged into one.
spec fn first_tiers_renewed(
    before: LsmStorageInner,
    after: LsmStorageInner,
    v: Seq<Arc<SsTable>>,
    bottom: bool,
    r: Seq<Action>,
    n: int,
) -> bool {
    let a = before.state;
    let b = after.state;
    &&& 0 < n <= a.levels@.len()
    &&& executor::compacted(
        before,
        ids::tier_ids(a.levels@.take(n - 1)),
        a.levels@[n - 1].1@,
        bottom,
        v,
    )
    &&& b.memtable == a.memtable
    &&& b.imm_memtables == a.imm_memtables
    &&& b.l0_sstables == a.l0_sstables
    &&& b.levels@.len() == a.levels@.len() - n + 1
    &&& b.levels@[0].0 == 1
    &&& b.levels@[0].1@ == executor::table_ids(v)
    &&& forall|j: int|
        0 < j < b.levels@.len() ==> (#[trigger] b.levels@[j]).0 == j + 1 && b.levels@[j].1@
            == a.levels@[j - 1 + n].1@
    &&& executor::tables_replaced(before, after, ids::tier_ids(a.levels@.take(n)), v, r)
}

/// A list that is apart from each of the first tiers is apart from all of them.
proof fn lemma_apart_tiers(levels: Seq<(usize, Vec<usize>)>, n: int, list: Seq<usize>)
    requires
        0 <= n <= levels.len(),
        forall|i: int| 0 <= i < n ==> engine::apart(list, (#[trigger] levels[i]).1@),
    ensures
        engine::apart(list, ids::tier_ids(levels.take(n))),
    decreases n,
{
    if n > 0 {
        lemma_apart_tiers(levels, n - 1, list);
        assert(levels.take(n).drop_last() =~= levels.take(n - 1));
        assert(engine::apart(list, levels[n - 1].1@));
        lemma_apart_concat(list, ids::tier_ids(levels.take(n - 1)), levels[n - 1].1@);
    }
}

/// Later tiers are not touched when the first ones are merged.
proof fn lemma_tiers_others(
    before: LsmStorageInner,
    after: LsmStorageInner,
    v: Seq<Arc<SsTable>>,
    bottom: bool,
    r: Seq<Action>,
    n: int,
    j: int,
)
    requires
        before.wf(),
        before.sst_ids_ok(),
        first_tiers_renewed(before, after, v, bottom, r, n),
        0 < j < after.state.levels@.len(),
    ensures
        after.state.level_ok(j),
        state::level_layers(after.state.sstables@, after.state.levels@)[j] == state::level_layers(
            before.state.sstables@,
            before.state.levels@,
        )[j - 1 + n],
{
    let a = before.state;
    let i = j - 1 + n;
    assert(a.level_ok(i));
    assert forall|l: int| 0 <= l < n implies engine::apart(
        a.levels@[i].1@,
        (#[trigger] a.levels@[l]).1@,
    ) by {}
    lemma_apart_tiers(a.levels@, n, a.levels@[i].1@);
    lemma_level_stays(
        a,
        after.state,
        ids::tier_ids(a.levels@.take(n)),
        v,
        before.next_sst_id as int,
        i,
        j,
    );
}

/// L0 is not touched when the first tiers are merged.
proof fn lemma_tiers_l0(
    before: LsmStorageInner,
    after: LsmStorageInner,
    v: Seq<Arc<SsTable>>,
    bottom: bool,
    r: Seq<Action>,
    n: int,
)
    requires
        before.wf(),
        before.sst_ids_ok(),
        first_tiers_renewed(before, after, v, bottom, r, n),
    ensures
        leveled::all_loaded(after.state.sstables@, after.state.l0_sstables@),
        state::table_layers(after.state.sstables@, after.state.l0_sstables@)
            == state::table_layers(before.state.sstables@, before.state.l0_sstables@),
{
    let a = before.state;
    assert forall|l: int| 0 <= l < n implies engine::apart(
        a.l0_sstables@,
        (#[trigger] a.levels@[l]).1@,
    ) by {}
    lemma_apart_tiers(a.levels@, n, a.l0_sstables@);
    lemma_list_stays(
        a.sstables@,
        ids::tier_ids(a.levels@.take(n)),
        v,
        before.next_sst_id as int,
        a.l0_sstables@,
    );
}

/// Merging the first tiers keeps the engine well formed and its ids in order.
#[verifier::spinoff_prover]
#[verifier::rlimit(40)]
proof fn lemma_tiers_wf(
    before: LsmStorageInner,
    after: LsmStorageInner,
    v: Seq<Arc<SsTable>>,
    bottom: bool,
    r: Seq<Action>,
    n: int,
)
    requires
        before.wf(),
        before.sst_ids_ok(),
        first_tiers_renewed(before, after, v, bottom, r, n),
    ensures
        after.parts_ok(),
        after.sst_ids_ok(),
        before.ids_ok() ==> after.ids_ok(),
{
    let a = before.state;
    let b = after.state;
    let first = before.next_sst_id as int;
    let consumed = ids::tier_ids(a.levels@.take(n));
    lemma_new_tables(a.sstables@, consumed, v, first);
    lemma_tiers_l0(before, after, v, bottom, r, n);
    assert forall|j: int| 0 <= j < b.levels@.len() implies #[trigger] b.level_ok(j) by {
        if j == 0 {
            lemma_level_is_new(a, b, consumed, v, first, 0);
        } else {
            lemma_tiers_others(before, after, v, bottom, r, n, j);
        }
    }
    lemma_next_id_stays_ahead(before, after, consumed, v, r);
    assert forall|j: int| 0 <= j < b.levels@.len() implies engine::apart(
        b.l0_sstables@,
        #[trigger] b.levels@[j].1@,
    ) by {
        if j == 0 {
            lemma_new_ids_apart(before, v, a.l0_sstables@);
        } else {
            assert(engine::apart(a.l0_sstables@, a.levels@[j - 1 + n].1@));
        }
    }
    assert forall|j: int, l: int|
        #![trigger b.levels@[j], b.levels@[l]]
        0 <= j < b.levels@.len() && 0 <= l < b.levels@.len() && j != l implies engine::apart(
        b.levels@[j].1@,
        b.levels@[l].1@,
    ) by {
        if j == 0 {
            assert(a.level_ok(l - 1 + n));
            lemma_new_ids_apart(before, v, a.levels@[l - 1 + n].1@);
        } else if l == 0 {
            assert(a.level_ok(j - 1 + n));
            lemma_new_ids_apart(before, v, a.levels@[j - 1 + n].1@);
        } else {
            assert(engine::apart(a.levels@[j - 1 + n].1@, a.levels@[l - 1 + n].1@));
        }
    }
    if before.ids_ok() {
        lemma_mem_ids_stay(before, after, consumed, v, r);
    }
}

/// Merging the first tiers keeps what the engine holds, but for tombstones that hide nothing.
#[verifier::spinoff_prover]
#[verifier::rlimit(40)]
proof fn lemma_tiers_contents(
    before: LsmStorageInner,
    after: LsmStorageInner,
    v: Seq<Arc<SsTable>>,
    bottom: bool,
    r: Seq<Action>,
    n: int,
)
    requires
        before.wf(),
        before.sst_ids_ok(),
        first_tiers_renewed(before, after, v, bottom, r, n),
        bottom ==> n == before.state.levels@.len(),
    ensures
        layers_kept(before.state.layers(), after.state.layers(), bottom),
{
    let a = before.state;
    let b = after.state;
    let first = before.next_sst_id as int;
    let upper = ids::tier_ids(a.levels@.take(n - 1));
    let lower = a.levels@[n - 1].1@;
    executor::lemma_tiers_loaded(before, n - 1);
    lemma_level_layer(a, n - 1);
    lemma_tiers_map(a, n - 1);
    lemma_compacted_thins(before, upper, lower, bottom, v);
    lemma_level_is_new(a, b, ids::tier_ids(a.levels@.take(n)), v, first, 0);
    lemma_tiers_l0(before, after, v, bottom, r, n);
    let mems = state::mem_layers(a);
    let l0 = state::table_layers(a.sstables@, a.l0_sstables@);
    let la = state::level_layers(a.sstables@, a.levels@);
    let lb = state::level_layers(b.sstables@, b.levels@);
    let above = mems + l0;
    let front = state::level_layers(a.sstables@, a.levels@.take(n - 1));
    let old_group = front.push(la[n - 1]);
    let new_group = seq![lb[0]];
    let below = la.skip(n);
    merging::lemma_union_push(front, la[n - 1]);
    lemma_single_layer(lb[0]);
    lemma_nothing_below(a, n, bottom);
    lemma_group_kept(above, old_group, new_group, below, bottom);
    assert(a.layers() =~= above + old_group + below);
    assert(b.layers() =~= above + new_group + below) by {
        assert(state::mem_layers(b) =~= mems);
        assert forall|j: int| 0 < j < lb.len() implies #[trigger] lb[j] == la[j - 1 + n] by {
            lemma_tiers_others(before, after, v, bottom, r, n, j);
        }
        assert(lb =~= new_group + below);
    }
}

/// What a task of tiered compaction keeps: the engine stays well formed, its ids stay in order, and
/// what lies further up stays the newer. Where the last tier is not merged, the engine holds the
/// same as before. Every reader goes on to see the same of every user key.
pub proof fn lemma_tiered_compaction_keeps(
    options: TieredCompactionOptions,
    before: LsmStorageInner,
    after: LsmStorageInner,
    task: TieredCompactionTask,
    v: Seq<Arc<SsTable>>,
    r: Seq<Action>,
    k: Seq<u8>,
    read_ts: u64,
)
    requires
        before.wf(),
        before.sst_ids_ok(),
        tiered::has_tiers(before.state.levels@, options),
        tiered::tiers_generated(options, before.state, Some(task)),
        executor::tiers_compacted(before, after, task, v, r),
    ensures
        after.wf(),
        after.sst_ids_ok(),
        before.ids_ok() ==> after.ids_ok(),
        !task.bottom_tier_included ==> after.contents() == before.contents(),
        before.aged() ==> after.aged() && thinned(before.contents(), after.contents()),
        before.aged() ==> read::seen(after.contents(), k, read_ts) == read::seen(
            before.contents(),
            k,
            read_ts,
        ),
{
    let bottom = task.bottom_tier_included;
    let n = task.tiers@.len() as int;
    executor::lemma_tier_task(options, before, task);
    assert(first_tiers_renewed(before, after, v, bottom, r, n));
    lemma_tiers_wf(before, after, v, bottom, r, n);
    lemma_tiers_contents(before, after, v, bottom, r, n);
    if before.aged() {
        lemma_thinned_seen(before.contents(), after.contents(), k, read_ts);
    }
}

} // verus!
