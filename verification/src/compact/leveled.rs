//! Leveled compaction: levels have target sizes, and a level that exceeds its target gives a table
//! to the next one.
use std::collections::HashMap;
use std::sync::Arc;

use vstd::prelude::*;

use crate::compact::{choosing, ids, targets};
use crate::compact::ids::{append_ids, copy_ids, partition_ids};
use crate::key;
use crate::key::{KeyBytes, VKey};
use crate::lsm_storage::LsmStorageState;
use crate::table::SsTable;

verus! {

broadcast use vstd::std_specs::hash::group_hash_axioms;

pub const MB: usize = 1048576;

/// The rank of the priority 1: the bits of the floating-point number, which for numbers that are
/// not negative are ordered as the numbers are.
pub const RANK_OF_ONE: u64 = 0x3FF0_0000_0000_0000;

#[derive(Debug)]
pub struct LeveledCompactionTask {
    // if upper_level is `None`, then it is L0 compaction
    pub upper_level: Option<usize>,
    pub upper_level_sst_ids: Vec<usize>,
    pub lower_level: usize,
    pub lower_level_sst_ids: Vec<usize>,
    pub is_lower_level_bottom_level: bool,
}

#[derive(Debug, Clone, Copy)]
pub struct LeveledCompactionOptions {
    pub level_size_multiplier: usize,
    pub level0_file_num_compaction_trigger: usize,
    pub max_levels: usize,
    pub base_level_size_mb: usize,
}

pub struct LeveledCompactionController {
    pub options: LeveledCompactionOptions,
}

/// The size of the loaded tables among `ids`.
pub open spec fn ids_size(tables: Map<usize, Arc<SsTable>>, ids: Seq<usize>) -> int
    decreases ids.len(),
{
    if ids.len() == 0 {
        0
    } else if tables.contains_key(ids.last()) {
        ids_size(tables, ids.drop_last()) + tables[ids.last()].file.1
    } else {
        ids_size(tables, ids.drop_last())
    }
}

/// The target size of the level at index `i` of `n`: the last level has `last`. A level below a
/// target of at most `base` has none; any other has the next one's target divided by `multiplier`.
pub open spec fn target_size(n: int, last: int, base: int, multiplier: int, i: int) -> int
    decreases n - i,
{
    if i >= n - 1 {
        last
    } else {
        let next = target_size(n, last, base, multiplier, i + 1);
        if next <= base {
            0
        } else {
            next / multiplier
        }
    }
}

/// The ids of the loaded tables among `ids` whose key ranges overlap with the given one.
pub open spec fn overlapping(
    tables: Map<usize, Arc<SsTable>>,
    ids: Seq<usize>,
    first: VKey,
    last: VKey,
) -> Seq<usize>
    decreases ids.len(),
{
    if ids.len() == 0 {
        Seq::empty()
    } else {
        let front = overlapping(tables, ids.drop_last(), first, last);
        let id = ids.last();
        if tables.contains_key(id) && !key::key_lt(last, tables[id].first_key@) && !key::key_lt(
            tables[id].last_key@,
            first,
        ) {
            front.push(tables[id].id)
        } else {
            front
        }
    }
}

/// `first` is the smallest first key and `last` the largest last key of the loaded tables among
/// `ids`.
pub open spec fn is_key_range(
    tables: Map<usize, Arc<SsTable>>,
    ids: Seq<usize>,
    first: VKey,
    last: VKey,
) -> bool {
    &&& exists|i: int|
        0 <= i < ids.len() && tables.contains_key(#[trigger] ids[i]) && tables[ids[i]].first_key@
            == first
    &&& exists|i: int|
        0 <= i < ids.len() && tables.contains_key(#[trigger] ids[i]) && tables[ids[i]].last_key@
            == last
    &&& forall|i: int|
        0 <= i < ids.len() && tables.contains_key(#[trigger] ids[i]) ==> key::key_le(
            first,
            tables[ids[i]].first_key@,
        ) && key::key_le(tables[ids[i]].last_key@, last)
}

/// Some table among `ids` is loaded.
pub open spec fn some_loaded(tables: Map<usize, Arc<SsTable>>, ids: Seq<usize>) -> bool {
    exists|i: int| 0 <= i < ids.len() && tables.contains_key(#[trigger] ids[i])
}

/// All tables among `ids` are loaded.
pub open spec fn all_loaded(tables: Map<usize, Arc<SsTable>>, ids: Seq<usize>) -> bool {
    forall|i: int| 0 <= i < ids.len() ==> tables.contains_key(#[trigger] ids[i])
}

/// Where a table belongs in a list ordered by first keys: behind all that are not behind it.
pub open spec fn insert_pos(tables: Map<usize, Arc<SsTable>>, s: Seq<usize>, id: usize) -> int
    decreases s.len(),
{
    if s.len() > 0 && key::key_lt(tables[id].first_key@, tables[s.last()].first_key@) {
        insert_pos(tables, s.drop_last(), id)
    } else {
        s.len() as int
    }
}

/// The ids in the order of their tables' first keys; tables with one first key keep their order.
pub open spec fn by_first_key(tables: Map<usize, Arc<SsTable>>, ids: Seq<usize>) -> Seq<usize>
    decreases ids.len(),
{
    if ids.len() == 0 {
        Seq::empty()
    } else {
        let front = by_first_key(tables, ids.drop_last());
        front.insert(insert_pos(tables, front, ids.last()), ids.last())
    }
}

/// The first keys do not descend.
pub open spec fn first_keys_ascend(tables: Map<usize, Arc<SsTable>>, s: Seq<usize>) -> bool {
    forall|i: int, j: int|
        #![trigger s[i], s[j]]
        0 <= i < j < s.len() ==> key::key_le(tables[s[i]].first_key@, tables[s[j]].first_key@)
}

proof fn lemma_insert_pos(tables: Map<usize, Arc<SsTable>>, s: Seq<usize>, id: usize)
    requires
        first_keys_ascend(tables, s),
    ensures
        0 <= insert_pos(tables, s, id) <= s.len(),
        forall|i: int|
            0 <= i < insert_pos(tables, s, id) ==> key::key_le(
                tables[#[trigger] s[i]].first_key@,
                tables[id].first_key@,
            ),
        forall|i: int|
            insert_pos(tables, s, id) <= i < s.len() ==> key::key_lt(
                tables[id].first_key@,
                tables[#[trigger] s[i]].first_key@,
            ),
    decreases s.len(),
{
    let k = tables[id].first_key@;
    if s.len() > 0 {
        let l = tables[s.last()].first_key@;
        if key::key_lt(k, l) {
            let front = s.drop_last();
            assert forall|i: int, j: int| #![trigger front[i], front[j]] 0 <= i < j < front.len() implies key::key_le(
                tables[front[i]].first_key@,
                tables[front[j]].first_key@,
            ) by {
                assert(front[i] == s[i]);
                assert(front[j] == s[j]);
            }
            lemma_insert_pos(tables, front, id);
            let p = insert_pos(tables, s, id);
            assert forall|i: int| 0 <= i < p implies key::key_le(
                tables[#[trigger] s[i]].first_key@,
                k,
            ) by {
                assert(front[i] == s[i]);
            }
            assert forall|i: int| p <= i < s.len() implies key::key_lt(
                k,
                tables[#[trigger] s[i]].first_key@,
            ) by {
                if i < front.len() {
                    assert(front[i] == s[i]);
                }
            }
        } else {
            key::lemma_key_total(k, l);
            assert forall|i: int| 0 <= i < s.len() implies key::key_le(
                tables[#[trigger] s[i]].first_key@,
                k,
            ) by {
                if i < s.len() - 1 {
                    let a = tables[s[i]].first_key@;
                    assert(key::key_le(a, l));
                    if a != l && l != k {
                        key::lemma_key_lt_transitive(a, l, k);
                    }
                }
            }
        }
    }
}

/// Ordering ids by first keys keeps the ids and puts the first keys in order.
pub proof fn lemma_by_first_key(tables: Map<usize, Arc<SsTable>>, ids: Seq<usize>)
    ensures
        first_keys_ascend(tables, by_first_key(tables, ids)),
        by_first_key(tables, ids).to_multiset() == ids.to_multiset(),
        by_first_key(tables, ids).len() == ids.len(),
    decreases ids.len(),
{
    broadcast use vstd::seq_lib::group_to_multiset_ensures;

    if ids.len() > 0 {
        let id = ids.last();
        let front = by_first_key(tables, ids.drop_last());
        lemma_by_first_key(tables, ids.drop_last());
        lemma_insert_pos(tables, front, id);
        let p = insert_pos(tables, front, id);
        let all = front.insert(p, id);
        assert(ids =~= ids.drop_last().push(id));
        assert forall|i: int, j: int| #![trigger all[i], all[j]] 0 <= i < j < all.len() implies key::key_le(
            tables[all[i]].first_key@,
            tables[all[j]].first_key@,
        ) by {
            let a = if i < p {
                i
            } else {
                i - 1
            };
            let b = if j < p {
                j
            } else {
                j - 1
            };
            if i != p {
                assert(all[i] == front[a]);
            }
            if j != p {
                assert(all[j] == front[b]);
            }
        }
    }
}

/// Puts ids in the order of their tables' first keys.
pub fn sort_by_first_key(ids: &Vec<usize>, tables: &HashMap<usize, Arc<SsTable>>) -> (r: Vec<usize>)
    requires
        all_loaded(tables@, ids@),
    ensures
        r@ == by_first_key(tables@, ids@),
{
    let mut out: Vec<usize> = Vec::new();
    let mut i: usize = 0;
    assert(ids@.take(0) =~= Seq::empty());
    while i < ids.len()
        invariant
            i <= ids@.len(),
            all_loaded(tables@, ids@),
            out@ == by_first_key(tables@, ids@.take(i as int)),
            out@.len() == i,
            forall|j: int| 0 <= j < out@.len() ==> tables@.contains_key(#[trigger] out@[j]),
        decreases ids@.len() - i,
    {
        let id: usize = ids[i];
        assert(tables@.contains_key(ids@[i as int]));
        let ghost front = out@;
        let mut pos: usize = out.len();
        assert(front.take(pos as int) =~= front);
        let mut placed = false;
        while pos > 0 && !placed
            invariant
                pos <= out@.len(),
                out@ == front,
                tables@.contains_key(id),
                forall|j: int| 0 <= j < front.len() ==> tables@.contains_key(#[trigger] front[j]),
                insert_pos(tables@, front, id) == insert_pos(tables@, front.take(pos as int), id),
                placed ==> insert_pos(tables@, front.take(pos as int), id) == pos,
            decreases pos, (if placed {
                    0int
                } else {
                    1int
                }),
        {
            let other: usize = out[pos - 1];
            assert(tables@.contains_key(front[pos - 1]));
            assert(front.take(pos as int).drop_last() =~= front.take(pos - 1));
            let mine = tables.get(&id).unwrap();
            let theirs = tables.get(&other).unwrap();
            if mine.first_key().as_key_slice().less_than(theirs.first_key().as_key_slice()) {
                pos = pos - 1;
            } else {
                placed = true;
            }
        }
        assert(insert_pos(tables@, front, id) == pos);
        out.insert(pos, id);
        proof {
            assert(ids@.take(i + 1).drop_last() =~= ids@.take(i as int));
            assert forall|j: int| 0 <= j < out@.len() implies tables@.contains_key(
                #[trigger] out@[j],
            ) by {
                if j < pos {
                    assert(out@[j] == front[j]);
                } else if j > pos {
                    assert(out@[j] == front[j - 1]);
                }
            }
        }
        i = i + 1;
    }
    assert(ids@.take(i as int) =~= ids@);
    out
}

/// The size of a level of a state.
pub open spec fn level_size(state: LsmStorageState, level_id: int) -> int {
    ids_size(state.sstables@, state.levels@[level_id - 1].1@)
}

/// The target size of the last level.
pub open spec fn last_target(state: LsmStorageState, options: LeveledCompactionOptions) -> int {
    let size = level_size(state, state.levels@.len() as int);
    let base = options.base_level_size_mb * MB;
    if size > base {
        size
    } else {
        base
    }
}

/// The target size of the level at index `i`.
pub open spec fn target_of(
    state: LsmStorageState,
    options: LeveledCompactionOptions,
    i: int,
) -> int {
    target_size(
        state.levels@.len() as int,
        last_target(state, options),
        options.base_level_size_mb * MB,
        options.level_size_multiplier as int,
        i,
    )
}

/// The sizes fit in a usize, and there is no division by zero.
pub open spec fn sizes_ok(state: LsmStorageState, options: LeveledCompactionOptions) -> bool {
    &&& state.levels@.len() > 0
    &&& forall|i: int|
        1 <= i <= state.levels@.len() ==> #[trigger] level_size(state, i) <= usize::MAX
    &&& options.base_level_size_mb * MB <= usize::MAX
    &&& options.level_size_multiplier > 0
}

/// The level with the highest rank above that of 1, the first of several; the last level never.
pub open spec fn is_top_level(ranks: Seq<u64>, n: int, r: Option<usize>) -> bool {
    match r {
        Some(l) => {
            &&& 1 <= l < n
            &&& ranks[l - 1] > RANK_OF_ONE
            &&& forall|j: int| 0 <= j < n - 1 ==> #[trigger] ranks[j] <= ranks[l - 1]
            &&& forall|j: int| 0 <= j < l - 1 ==> #[trigger] ranks[j] < ranks[l - 1]
        },
        None => forall|j: int| 0 <= j < n - 1 ==> #[trigger] ranks[j] <= RANK_OF_ONE,
    }
}

proof fn lemma_ids_size_grows(tables: Map<usize, Arc<SsTable>>, ids: Seq<usize>, i: int)
    requires
        0 <= i <= ids.len(),
    ensures
        0 <= ids_size(tables, ids.take(i)) <= ids_size(tables, ids),
    decreases ids.len(),
{
    assert(ids.take(ids.len() as int) =~= ids);
    if i < ids.len() {
        lemma_ids_size_grows(tables, ids.drop_last(), i);
        assert(ids.drop_last().take(i) =~= ids.take(i));
    } else if ids.len() > 0 {
        lemma_ids_size_grows(tables, ids.drop_last(), ids.len() - 1);
        assert(ids.drop_last().take(ids.len() - 1) =~= ids.drop_last());
    }
}

proof fn lemma_target_bounds(n: int, last: int, base: int, multiplier: int, i: int)
    requires
        0 <= last,
        multiplier > 0,
    ensures
        0 <= target_size(n, last, base, multiplier, i) <= last,
    decreases n - i,
{
    if i < n - 1 {
        lemma_target_bounds(n, last, base, multiplier, i + 1);
        let next = target_size(n, last, base, multiplier, i + 1);
        assert(0 <= next / multiplier <= next) by (nonlinear_arith)
            requires
                0 <= next,
                multiplier > 0,
        ;
    }
}

/// Once a target is none, all targets above it are.
proof fn lemma_targets_above(n: int, last: int, base: int, multiplier: int, i: int, j: int)
    requires
        0 <= i <= j < n - 1,
        base >= 0,
        target_size(n, last, base, multiplier, j + 1) <= base,
    ensures
        target_size(n, last, base, multiplier, i) == 0,
    decreases j - i,
{
    if i < j {
        lemma_targets_above(n, last, base, multiplier, i + 1, j);
    }
}

impl LeveledCompactionController {
    pub fn new(options: LeveledCompactionOptions) -> (r: Self)
        ensures
            r.options == options,
    {
        Self { options }
    }

    /// The size of the loaded tables of a level.
    pub fn get_level_size(snapshot: &LsmStorageState, level_id: usize) -> (r: usize)
        requires
            1 <= level_id <= snapshot.levels@.len(),
            level_size(*snapshot, level_id as int) <= usize::MAX,
        ensures
            r == level_size(*snapshot, level_id as int),
    {
        let level = &snapshot.levels[level_id - 1].1;
        let ghost ids = level@;
        let mut size: usize = 0;
        let mut i: usize = 0;
        assert(ids.take(0) =~= Seq::empty());
        while i < level.len()
            invariant
                i <= level@.len(),
                ids == level@,
                ids_size(snapshot.sstables@, ids) <= usize::MAX,
                size == ids_size(snapshot.sstables@, ids.take(i as int)),
            decreases level@.len() - i,
        {
            proof {
                assert(ids.take(i + 1).drop_last() =~= ids.take(i as int));
                lemma_ids_size_grows(snapshot.sstables@, ids, i + 1);
                lemma_ids_size_grows(snapshot.sstables@, ids, i as int);
            }
            match snapshot.sstables.get(&level[i]) {
                Some(sst) => {
                    size = size + sst.file.size() as usize;
                },
                None => {},
            }
            i = i + 1;
        }
        assert(ids.take(i as int) =~= ids);
        size
    }

    /// The target sizes of all levels.
    pub fn get_level_target_sizes(&self, snapshot: &LsmStorageState) -> (r: Vec<usize>)
        requires
            sizes_ok(*snapshot, self.options),
        ensures
            r@.len() == snapshot.levels@.len(),
            forall|i: int|
                0 <= i < r@.len() ==> #[trigger] r@[i] == target_of(*snapshot, self.options, i),
            targets::targets_right(
                r@,
                ids_size(snapshot.sstables@, snapshot.levels@.last().1@),
                self.options,
            ),
    {
        let n: usize = snapshot.levels.len();
        assert(level_size(*snapshot, n as int) <= usize::MAX);
        let last_level_size_byte: usize = Self::get_level_size(snapshot, n);
        let base: usize = self.options.base_level_size_mb * MB;
        let last: usize = if last_level_size_byte > base {
            last_level_size_byte
        } else {
            base
        };
        let ghost m = self.options.level_size_multiplier as int;
        let mut target_sizes: Vec<usize> = vec![0usize; n];
        target_sizes.set(n - 1, last);
        let mut level_idx: usize = n - 1;
        let mut stopped = false;
        while level_idx > 0 && !stopped
            invariant
                level_idx <= n - 1,
                n == snapshot.levels@.len(),
                n > 0,
                target_sizes@.len() == n,
                base == self.options.base_level_size_mb * MB,
                last == last_target(*snapshot, self.options),
                m == self.options.level_size_multiplier,
                m > 0,
                forall|i: int|
                    level_idx <= i < n ==> #[trigger] target_sizes@[i] == target_of(
                        *snapshot,
                        self.options,
                        i,
                    ),
                forall|i: int| 0 <= i < level_idx ==> #[trigger] target_sizes@[i] == 0,
                stopped ==> target_of(*snapshot, self.options, level_idx as int) <= base,
            decreases level_idx, (if stopped {
                    0int
                } else {
                    1int
                }),
        {
            let next_level_target_size: usize = target_sizes[level_idx];
            if next_level_target_size <= base {
                stopped = true;
            } else {
                // There is at most 1 level with a size <= base_level_size_mb.
                // All levels upper of it have a size of 0.
                level_idx = level_idx - 1;
                proof {
                    lemma_target_bounds(n as int, last as int, base as int, m, level_idx as int);
                }
                target_sizes.set(
                    level_idx,
                    next_level_target_size / self.options.level_size_multiplier,
                );
            }
        }
        proof {
            assert forall|i: int| 0 <= i < n implies #[trigger] target_sizes@[i] == target_of(
                *snapshot,
                self.options,
                i,
            ) by {
                if i < level_idx {
                    lemma_targets_above(
                        n as int,
                        last as int,
                        base as int,
                        m,
                        i,
                        level_idx - 1,
                    );
                }
            }
        }
        proof {
            targets::lemma_targets_right(*snapshot, self.options, target_sizes@);
        }
        target_sizes
    }

    /// The number of the first level that has a target size.
    pub fn find_first_level_with_positive_target_size(&self, snapshot: &LsmStorageState) -> (r:
        usize)
        requires
            sizes_ok(*snapshot, self.options),
            last_target(*snapshot, self.options) > 0,
        ensures
            1 <= r <= snapshot.levels@.len(),
            target_of(*snapshot, self.options, r - 1) > 0,
            forall|i: int|
                0 <= i < r - 1 ==> #[trigger] target_of(*snapshot, self.options, i) == 0,
    {
        let level_target_sizes = self.get_level_target_sizes(snapshot);
        let n: usize = level_target_sizes.len();
        proof {
            assert(level_target_sizes@[n - 1] == target_of(*snapshot, self.options, n - 1));
        }
        let mut i: usize = 0;
        while level_target_sizes[i] == 0
            invariant
                i < n,
                n == level_target_sizes@.len(),
                n == snapshot.levels@.len(),
                level_target_sizes@[n - 1] > 0,
                forall|j: int|
                    0 <= j < n ==> #[trigger] level_target_sizes@[j] == target_of(
                        *snapshot,
                        self.options,
                        j,
                    ),
                forall|j: int|
                    0 <= j < i ==> #[trigger] target_of(*snapshot, self.options, j) == 0,
            decreases n - i,
        {
            assert(level_target_sizes@[i as int] == target_of(*snapshot, self.options, i as int));
            i = i + 1;
        }
        i + 1
    }

    /// For each level its size and its target size. The priority of a level is the one divided by
    /// the other, or 0 where it has no target.
    pub fn get_level_priorities(&self, snapshot: &LsmStorageState) -> (r: Vec<(usize, usize)>)
        requires
            sizes_ok(*snapshot, self.options),
            forall|i: int|
                0 <= i < snapshot.levels@.len() ==> 1 <= (#[trigger] snapshot.levels@[i]).0
                    <= snapshot.levels@.len(),
        ensures
            r@.len() == snapshot.levels@.len(),
            forall|i: int|
                0 <= i < r@.len() ==> (#[trigger] r@[i]).0 == level_size(
                    *snapshot,
                    snapshot.levels@[i].0 as int,
                ) && r@[i].1 == target_of(*snapshot, self.options, i),
    {
        let target_sizes = self.get_level_target_sizes(snapshot);
        let n: usize = snapshot.levels.len();
        let mut out: Vec<(usize, usize)> = Vec::new();
        let mut i: usize = 0;
        while i < n
            invariant
                i <= n == snapshot.levels@.len(),
                sizes_ok(*snapshot, self.options),
                forall|j: int|
                    0 <= j < snapshot.levels@.len() ==> 1 <= (#[trigger] snapshot.levels@[j]).0
                        <= snapshot.levels@.len(),
                target_sizes@.len() == n,
                forall|j: int|
                    0 <= j < n ==> #[trigger] target_sizes@[j] == target_of(
                        *snapshot,
                        self.options,
                        j,
                    ),
                out@.len() == i,
                forall|j: int|
                    0 <= j < i ==> (#[trigger] out@[j]).0 == level_size(
                        *snapshot,
                        snapshot.levels@[j].0 as int,
                    ) && out@[j].1 == target_of(*snapshot, self.options, j),
            decreases n - i,
        {
            let id: usize = snapshot.levels[i].0;
            assert(1 <= snapshot.levels@[i as int].0 <= snapshot.levels@.len());
            assert(level_size(*snapshot, id as int) <= usize::MAX);
            out.push((Self::get_level_size(snapshot, id), target_sizes[i]));
            i = i + 1;
        }
        out
    }

    /// The level with the highest priority above 1. `ranks` holds the rank of each level's
    /// priority.
    pub fn get_top_priority_level(&self, snapshot: &LsmStorageState, ranks: &[u64]) -> (r: Option<
        usize,
    >)
        requires
            ranks@.len() == snapshot.levels@.len(),
        ensures
            is_top_level(ranks@, snapshot.levels@.len() as int, r),
    {
        let mut max_priority: u64 = 0;
        let mut max_priority_id: Option<usize> = None;
        let last_level_id: usize = snapshot.levels.len();
        let mut idx: usize = 0;
        while idx < ranks.len()
            invariant
                idx <= ranks@.len(),
                ranks@.len() == last_level_id,
                max_priority_id is None ==> max_priority == 0,
                max_priority_id matches Some(l) ==> 1 <= l <= idx && l < last_level_id
                    && max_priority == ranks@[l - 1],
                is_top_level(
                    ranks@,
                    if idx < last_level_id {
                        idx + 1
                    } else {
                        last_level_id as int
                    },
                    max_priority_id,
                ),
            decreases ranks@.len() - idx,
        {
            let level_id: usize = idx + 1;
            let rank: u64 = ranks[idx];
            // Always merge Ln with Ln+1 so current level can't be the last level.
            if rank > RANK_OF_ONE && rank > max_priority && level_id < last_level_id {
                max_priority = rank;
                max_priority_id = Some(level_id);
            }
            idx = idx + 1;
        }
        max_priority_id
    }

    /// The smallest first key and the largest last key of the loaded tables among the ids.
    pub fn find_key_range(snapshot: &LsmStorageState, sst_ids: &[usize]) -> (r: (KeyBytes, KeyBytes))
        requires
            some_loaded(snapshot.sstables@, sst_ids@),
        ensures
            is_key_range(snapshot.sstables@, sst_ids@, r.0@, r.1@),
    {
        let ghost tables = snapshot.sstables@;
        let ghost ids = sst_ids@;
        let mut found: Option<(KeyBytes, KeyBytes)> = None;
        let mut i: usize = 0;
        while i < sst_ids.len()
            invariant
                i <= ids.len(),
                ids == sst_ids@,
                tables == snapshot.sstables@,
                found is None ==> !some_loaded(tables, ids.take(i as int)),
                found matches Some(range) ==> is_key_range(
                    tables,
                    ids.take(i as int),
                    range.0@,
                    range.1@,
                ),
            decreases ids.len() - i,
        {
            let ghost before = ids.take(i as int);
            let ghost after = ids.take(i + 1);
            assert(after =~= before.push(ids[i as int]));
            match snapshot.sstables.get(&sst_ids[i]) {
                Some(sst) => {
                    assert(tables.contains_key(after[i as int]));
                    let ghost f = sst.first_key@;
                    let ghost l = sst.last_key@;
                    let next: (KeyBytes, KeyBytes) = match found {
                        None => {
                            proof {
                                assert forall|j: int|
                                    0 <= j < after.len() && tables.contains_key(
                                        #[trigger] after[j],
                                    ) implies j == i by {
                                    if j < i {
                                        assert(before[j] == after[j]);
                                        assert(some_loaded(tables, before));
                                    }
                                }
                            }
                            (sst.first_key().clone(), sst.last_key().clone())
                        },
                        Some((first, last)) => {
                            proof {
                                lemma_range_grows(tables, before, ids[i as int], first@, last@);
                            }
                            let first_less = sst.first_key().as_key_slice().less_than(
                                first.as_key_slice(),
                            );
                            let last_more = last.as_key_slice().less_than(
                                sst.last_key().as_key_slice(),
                            );
                            (
                                if first_less {
                                    sst.first_key().clone()
                                } else {
                                    first
                                },
                                if last_more {
                                    sst.last_key().clone()
                                } else {
                                    last
                                },
                            )
                        },
                    };
                    found = Some(next);
                    assert(is_key_range(tables, after, next.0@, next.1@));
                },
                None => {
                    proof {
                        lemma_range_skips(tables, before, ids[i as int]);
                    }
                },
            }
            i = i + 1;
        }
        assert(ids.take(i as int) =~= ids);
        found.unwrap()
    }

    /// The tables of a level whose key ranges overlap with that of the given tables.
    pub fn find_overlapping_ssts(
        snapshot: &LsmStorageState,
        sst_ids: &[usize],
        // Lower level
        in_level: usize,
    ) -> (r: Vec<usize>)
        requires
            some_loaded(snapshot.sstables@, sst_ids@),
            1 <= in_level <= snapshot.levels@.len(),
        ensures
            exists|first: VKey, last: VKey| #[trigger]
                is_key_range(snapshot.sstables@, sst_ids@, first, last) && r@ == overlapping(
                    snapshot.sstables@,
                    snapshot.levels@[in_level - 1].1@,
                    first,
                    last,
                ),
            choosing::ranges_ok(snapshot.sstables@) ==> forall|x: usize| #[trigger]
                r@.contains(x) <==> snapshot.levels@[in_level - 1].1@.contains(x)
                    && snapshot.sstables@.contains_key(x) && choosing::shares_a_key(
                    snapshot.sstables@,
                    sst_ids@,
                    x,
                ),
    {
        let (first_key, last_key) = Self::find_key_range(snapshot, sst_ids);
        let level = &snapshot.levels[in_level - 1].1;
        let ghost ids = level@;
        let mut out: Vec<usize> = Vec::new();
        let mut i: usize = 0;
        assert(ids.take(0) =~= Seq::empty());
        while i < level.len()
            invariant
                i <= level@.len(),
                ids == level@,
                out@ == overlapping(
                    snapshot.sstables@,
                    ids.take(i as int),
                    first_key@,
                    last_key@,
                ),
            decreases level@.len() - i,
        {
            assert(ids.take(i + 1).drop_last() =~= ids.take(i as int));
            match snapshot.sstables.get(&level[i]) {
                Some(lower_sst) => {
                    let apart = last_key.as_key_slice().less_than(
                        lower_sst.first_key().as_key_slice(),
                    ) || lower_sst.last_key().as_key_slice().less_than(first_key.as_key_slice());
                    if !apart {
                        out.push(lower_sst.sst_id());
                    }
                },
                None => {},
            }
            i = i + 1;
        }
        assert(ids.take(i as int) =~= ids);
        proof {
            if choosing::ranges_ok(snapshot.sstables@) {
                choosing::lemma_overlap_exact(
                    snapshot.sstables@,
                    sst_ids@,
                    ids,
                    first_key@,
                    last_key@,
                );
            }
        }
        out
    }

    /// The task merges L0 into the first level that has a target size.
    pub fn generate_merge_l0_task(&self, snapshot: &LsmStorageState) -> (r: Option<
        LeveledCompactionTask,
    >)
        requires
            sizes_ok(*snapshot, self.options),
            last_target(*snapshot, self.options) > 0,
            some_loaded(snapshot.sstables@, snapshot.l0_sstables@),
        ensures
            r matches Some(task) && merges_l0(task, *snapshot, self.options),
    {
        let upper_level_sst_ids = copy_ids(snapshot.l0_sstables.as_slice());
        let first_non_empty_level_id: usize = self.find_first_level_with_positive_target_size(
            snapshot,
        );
        let overlapping_lower_sst_ids = Self::find_overlapping_ssts(
            snapshot,
            upper_level_sst_ids.as_slice(),
            first_non_empty_level_id,
        );
        Some(
            LeveledCompactionTask {
                upper_level: None,
                upper_level_sst_ids,
                lower_level: first_non_empty_level_id,
                lower_level_sst_ids: overlapping_lower_sst_ids,
                is_lower_level_bottom_level: first_non_empty_level_id == snapshot.levels.len(),
            },
        )
    }

    /// The task merges the first table of the level with the highest priority into the next level.
    pub fn generate_non_merge_l0_task(&self, snapshot: &LsmStorageState, ranks: &[u64]) -> (r: Option<
        LeveledCompactionTask,
    >)
        requires
            ranks@.len() == snapshot.levels@.len(),
            ranked_levels_ok(*snapshot, ranks@),
        ensures
            exists|top: Option<usize>| #[trigger]
                is_top_level(ranks@, snapshot.levels@.len() as int, top) && match top {
                    Some(l) => r matches Some(task) && merges_one(task, *snapshot, l as int),
                    None => r is None,
                },
    {
        let top_priority_level = self.get_top_priority_level(snapshot, ranks);
        assert(is_top_level(ranks@, snapshot.levels@.len() as int, top_priority_level));
        match top_priority_level {
            None => None,
            Some(top) => {
                let n: usize = snapshot.levels.len();
                let level = &snapshot.levels[top - 1].1;
                assert(ranks@[top - 1] > RANK_OF_ONE);
                let first_upper_sst_id: usize = level[0];
                let mut upper_level_sst_ids: Vec<usize> = Vec::new();
                upper_level_sst_ids.push(first_upper_sst_id);
                assert(upper_level_sst_ids@ =~= seq![first_upper_sst_id]);
                assert(snapshot.sstables@.contains_key(upper_level_sst_ids@[0]));
                let overlapping_lower_sst_ids = Self::find_overlapping_ssts(
                    snapshot,
                    upper_level_sst_ids.as_slice(),
                    top + 1,
                );
                Some(
                    LeveledCompactionTask {
                        upper_level: Some(top),
                        upper_level_sst_ids,
                        lower_level: top + 1,
                        lower_level_sst_ids: overlapping_lower_sst_ids,
                        is_lower_level_bottom_level: top + 1 == n,
                    },
                )
            },
        }
    }

    /// Generates a compaction task. `ranks` holds the rank of each level's priority.
    pub fn generate_compaction_task(&self, snapshot: &LsmStorageState, ranks: &[u64]) -> (r: Option<
        LeveledCompactionTask,
    >)
        requires
            can_generate(self.options, *snapshot, ranks@),
        ensures
            generated(self.options, *snapshot, ranks@, r),
    {
        if snapshot.l0_sstables.len() >= self.options.level0_file_num_compaction_trigger {
            self.generate_merge_l0_task(snapshot)
        } else {
            self.generate_non_merge_l0_task(snapshot, ranks)
        }
    }

    /// Takes the merged tables out of the upper level.
    pub fn apply_compaction_result_to_upper(
        new_engine: &mut LsmStorageState,
        task: &LeveledCompactionTask,
    )
        requires
            task.upper_level matches Some(u) ==> 1 <= u <= old(new_engine).levels@.len(),
        ensures
            final(new_engine).memtable == old(new_engine).memtable,
            final(new_engine).imm_memtables == old(new_engine).imm_memtables,
            final(new_engine).sstables == old(new_engine).sstables,
            upper_applied(*old(new_engine), *final(new_engine), *task),
    {
        match task.upper_level {
            Some(upper_level_id) => {
                let (_, new_upper_level) = partition_ids(
                    &new_engine.levels[upper_level_id - 1].1,
                    &task.upper_level_sst_ids,
                );
                new_engine.levels.set(upper_level_id - 1, (upper_level_id, new_upper_level));
            },
            None => {
                let (_, new_l0) = partition_ids(
                    &new_engine.l0_sstables,
                    &task.upper_level_sst_ids,
                );
                new_engine.l0_sstables = new_l0;
            },
        }
    }

    /// Takes the merged tables out of the lower level and puts the new ones in.
    pub fn apply_compaction_result_to_lower(
        new_engine: &mut LsmStorageState,
        lower_level_before: &Vec<usize>,
        task: &LeveledCompactionTask,
        output: &[usize],
    )
        requires
            1 <= task.lower_level <= old(new_engine).levels@.len(),
            all_loaded(
                old(new_engine).sstables@,
                ids::without(lower_level_before@, task.lower_level_sst_ids@) + output@,
            ),
        ensures
            final(new_engine).memtable == old(new_engine).memtable,
            final(new_engine).imm_memtables == old(new_engine).imm_memtables,
            final(new_engine).sstables == old(new_engine).sstables,
            final(new_engine).l0_sstables == old(new_engine).l0_sstables,
            final(new_engine).levels@.len() == old(new_engine).levels@.len(),
            final(new_engine).levels@[task.lower_level - 1].0 == task.lower_level,
            final(new_engine).levels@[task.lower_level - 1].1@ == by_first_key(
                old(new_engine).sstables@,
                ids::without(lower_level_before@, task.lower_level_sst_ids@) + output@,
            ),
            forall|i: int|
                0 <= i < old(new_engine).levels@.len() && i != task.lower_level - 1
                    ==> #[trigger] final(new_engine).levels@[i] == old(new_engine).levels@[i],
    {
        let (_, kept) = partition_ids(lower_level_before, &task.lower_level_sst_ids);
        let mut new_lower_level: Vec<usize> = kept;
        append_ids(&mut new_lower_level, output);
        let sorted = sort_by_first_key(&new_lower_level, &new_engine.sstables);
        new_engine.levels.set(task.lower_level - 1, (task.lower_level, sorted));
    }

    // Say an upper sst A is merged with all overlapping lower sst C and D, the outputs are
    // F and G, and the original lower level has B, C, D, E. C and  D need to be removed
    // while F and G need to be insert into where C, B were.
    pub fn apply_compaction_result(
        &self,
        snapshot: LsmStorageState,
        task: &LeveledCompactionTask,
        output: &[usize],
        in_recovery: bool,
    ) -> (r: (LsmStorageState, Vec<usize>))
        requires
            leveled_task_ok(*task, snapshot, output@),
        ensures
            r.0.memtable == snapshot.memtable,
            r.0.imm_memtables == snapshot.imm_memtables,
            r.0.sstables == snapshot.sstables,
            leveled_applied(snapshot, r.0, *task, output@),
            r.1@ == task.upper_level_sst_ids@ + task.lower_level_sst_ids@,
    {
        let mut sst_ids_to_remove: Vec<usize> = copy_ids(task.upper_level_sst_ids.as_slice());
        append_ids(&mut sst_ids_to_remove, task.lower_level_sst_ids.as_slice());

        let mut new_engine = snapshot;
        let lower_level_before = copy_ids(new_engine.levels[task.lower_level - 1].1.as_slice());
        Self::apply_compaction_result_to_upper(&mut new_engine, task);
        Self::apply_compaction_result_to_lower(&mut new_engine, &lower_level_before, task, output);
        (new_engine, sst_ids_to_remove)
    }
}

/// The state has what the choice of a task looks at.
pub open spec fn can_generate(
    options: LeveledCompactionOptions,
    state: LsmStorageState,
    ranks: Seq<u64>,
) -> bool {
    if state.l0_sstables@.len() >= options.level0_file_num_compaction_trigger {
        &&& sizes_ok(state, options)
        &&& last_target(state, options) > 0
        &&& some_loaded(state.sstables@, state.l0_sstables@)
    } else {
        &&& ranks.len() == state.levels@.len()
        &&& ranked_levels_ok(state, ranks)
    }
}

/// The task that is due: L0 is merged once it has enough tables; otherwise the level with the
/// highest priority gives its first table to the next one.
pub open spec fn generated(
    options: LeveledCompactionOptions,
    state: LsmStorageState,
    ranks: Seq<u64>,
    r: Option<LeveledCompactionTask>,
) -> bool {
    if state.l0_sstables@.len() >= options.level0_file_num_compaction_trigger {
        r matches Some(task) && merges_l0(task, state, options)
    } else {
        exists|top: Option<usize>| #[trigger]
            is_top_level(ranks, state.levels@.len() as int, top) && match top {
                Some(l) => r matches Some(task) && merges_one(task, state, l as int),
                None => r is None,
            }
    }
}

/// The upper level of the task is without the tables that were merged, and nothing else differs.
pub open spec fn upper_applied(
    before: LsmStorageState,
    after: LsmStorageState,
    task: LeveledCompactionTask,
) -> bool {
    match task.upper_level {
        Some(u) => {
            &&& after.l0_sstables == before.l0_sstables
            &&& after.levels@.len() == before.levels@.len()
            &&& after.levels@[u - 1].0 == u
            &&& after.levels@[u - 1].1@ == ids::without(
                before.levels@[u - 1].1@,
                task.upper_level_sst_ids@,
            )
            &&& forall|i: int|
                0 <= i < before.levels@.len() && i != u - 1 ==> #[trigger] after.levels@[i]
                    == before.levels@[i]
        },
        None => {
            &&& after.levels == before.levels
            &&& after.l0_sstables@ == ids::without(
                before.l0_sstables@,
                task.upper_level_sst_ids@,
            )
        },
    }
}

/// The levels of the task exist, and all tables that the lower level will have are loaded.
pub open spec fn leveled_task_ok(
    task: LeveledCompactionTask,
    state: LsmStorageState,
    output: Seq<usize>,
) -> bool {
    &&& task.upper_level matches Some(u) ==> 1 <= u <= state.levels@.len()
    &&& 1 <= task.lower_level <= state.levels@.len()
    &&& all_loaded(
        state.sstables@,
        ids::without(state.levels@[task.lower_level - 1].1@, task.lower_level_sst_ids@) + output,
    )
}

/// The tables that were merged are gone from both levels, and the new ones are in the lower one, in
/// the order of their first keys.
pub open spec fn leveled_applied(
    before: LsmStorageState,
    after: LsmStorageState,
    task: LeveledCompactionTask,
    output: Seq<usize>,
) -> bool {
    let l = task.lower_level - 1;
    &&& after.levels@.len() == before.levels@.len()
    &&& after.levels@[l].0 == task.lower_level
    &&& after.levels@[l].1@ == by_first_key(
        before.sstables@,
        ids::without(before.levels@[l].1@, task.lower_level_sst_ids@) + output,
    )
    &&& match task.upper_level {
        Some(u) => {
            &&& after.l0_sstables == before.l0_sstables
            &&& u - 1 != l ==> after.levels@[u - 1].0 == u && after.levels@[u - 1].1@
                == ids::without(before.levels@[u - 1].1@, task.upper_level_sst_ids@)
            &&& forall|i: int|
                0 <= i < before.levels@.len() && i != u - 1 && i != l
                    ==> #[trigger] after.levels@[i] == before.levels@[i]
        },
        None => {
            &&& after.l0_sstables@ == ids::without(before.l0_sstables@, task.upper_level_sst_ids@)
            &&& forall|i: int|
                0 <= i < before.levels@.len() && i != l ==> #[trigger] after.levels@[i]
                    == before.levels@[i]
        },
    }
}

/// A level whose priority is above 1 has tables, and its first table is loaded.
pub open spec fn ranked_levels_ok(state: LsmStorageState, ranks: Seq<u64>) -> bool {
    forall|i: int|
        0 <= i < ranks.len() && #[trigger] ranks[i] > RANK_OF_ONE ==> state.levels@[i].1@.len() > 0
            && state.sstables@.contains_key(state.levels@[i].1@[0])
}

/// The task merges L0 into the first level that has a target size.
pub open spec fn merges_l0(
    task: LeveledCompactionTask,
    state: LsmStorageState,
    options: LeveledCompactionOptions,
) -> bool {
    let l = task.lower_level;
    &&& task.upper_level is None
    &&& task.upper_level_sst_ids@ == state.l0_sstables@
    &&& 1 <= l <= state.levels@.len()
    &&& target_of(state, options, l - 1) > 0
    &&& forall|i: int| 0 <= i < l - 1 ==> #[trigger] target_of(state, options, i) == 0
    &&& exists|first: VKey, last: VKey| #[trigger]
        is_key_range(state.sstables@, state.l0_sstables@, first, last)
            && task.lower_level_sst_ids@ == overlapping(
            state.sstables@,
            state.levels@[l - 1].1@,
            first,
            last,
        )
    &&& task.is_lower_level_bottom_level == (l == state.levels@.len())
}

/// The task merges the first table of level `u` into the next level.
pub open spec fn merges_one(task: LeveledCompactionTask, state: LsmStorageState, u: int) -> bool {
    &&& task.upper_level == Some(u as usize)
    &&& task.upper_level_sst_ids@ == seq![state.levels@[u - 1].1@[0]]
    &&& task.lower_level == u + 1
    &&& exists|first: VKey, last: VKey| #[trigger]
        is_key_range(state.sstables@, seq![state.levels@[u - 1].1@[0]], first, last)
            && task.lower_level_sst_ids@ == overlapping(
            state.sstables@,
            state.levels@[u].1@,
            first,
            last,
        )
    &&& task.is_lower_level_bottom_level == (u + 1 == state.levels@.len())
}

/// What the key range of some tables becomes with one more.
proof fn lemma_range_grows(
    tables: Map<usize, Arc<SsTable>>,
    ids: Seq<usize>,
    id: usize,
    first: VKey,
    last: VKey,
)
    requires
        is_key_range(tables, ids, first, last),
        tables.contains_key(id),
    ensures
        ({
            let f = tables[id].first_key@;
            let l = tables[id].last_key@;
            is_key_range(
                tables,
                ids.push(id),
                if key::key_lt(f, first) {
                    f
                } else {
                    first
                },
                if key::key_lt(last, l) {
                    l
                } else {
                    last
                },
            )
        }),
{
    let f = tables[id].first_key@;
    let l = tables[id].last_key@;
    let all = ids.push(id);
    let nf = if key::key_lt(f, first) {
        f
    } else {
        first
    };
    let nl = if key::key_lt(last, l) {
        l
    } else {
        last
    };
    key::lemma_key_total(f, first);
    key::lemma_key_total(l, last);
    assert(all[ids.len() as int] == id);
    let a = choose|i: int|
        0 <= i < ids.len() && tables.contains_key(#[trigger] ids[i]) && tables[ids[i]].first_key@
            == first;
    assert(all[a] == ids[a]);
    let b = choose|i: int|
        0 <= i < ids.len() && tables.contains_key(#[trigger] ids[i]) && tables[ids[i]].last_key@
            == last;
    assert(all[b] == ids[b]);
    assert forall|i: int|
        0 <= i < all.len() && tables.contains_key(#[trigger] all[i]) implies key::key_le(
        nf,
        tables[all[i]].first_key@,
    ) && key::key_le(tables[all[i]].last_key@, nl) by {
        if i < ids.len() {
            assert(all[i] == ids[i]);
            let x = tables[ids[i]].first_key@;
            let y = tables[ids[i]].last_key@;
            assert(key::key_le(first, x) && key::key_le(y, last));
            if nf != first && first != x {
                key::lemma_key_lt_transitive(nf, first, x);
            }
            if nl != last && last != y {
                key::lemma_key_lt_transitive(y, last, nl);
            }
        }
    }
}

/// A table that is not loaded does not change the key range.
proof fn lemma_range_skips(tables: Map<usize, Arc<SsTable>>, ids: Seq<usize>, id: usize)
    requires
        !tables.contains_key(id),
    ensures
        some_loaded(tables, ids.push(id)) == some_loaded(tables, ids),
        forall|first: VKey, last: VKey| #[trigger]
            is_key_range(tables, ids, first, last) ==> is_key_range(
                tables,
                ids.push(id),
                first,
                last,
            ),
{
    let all = ids.push(id);
    if some_loaded(tables, all) {
        let i = choose|i: int| 0 <= i < all.len() && tables.contains_key(#[trigger] all[i]);
        assert(ids[i] == all[i]);
    }
    if some_loaded(tables, ids) {
        let i = choose|i: int| 0 <= i < ids.len() && tables.contains_key(#[trigger] ids[i]);
        assert(ids[i] == all[i]);
    }
    assert forall|first: VKey, last: VKey| #[trigger]
        is_key_range(tables, ids, first, last) implies is_key_range(tables, all, first, last) by {
        let a = choose|i: int|
            0 <= i < ids.len() && tables.contains_key(#[trigger] ids[i])
                && tables[ids[i]].first_key@ == first;
        assert(all[a] == ids[a]);
        let b = choose|i: int|
            0 <= i < ids.len() && tables.contains_key(#[trigger] ids[i]) && tables[ids[i]].last_key@
                == last;
        assert(all[b] == ids[b]);
        assert forall|i: int|
            0 <= i < all.len() && tables.contains_key(#[trigger] all[i]) implies key::key_le(
            first,
            tables[all[i]].first_key@,
        ) && key::key_le(tables[all[i]].last_key@, last) by {
            assert(all[i] == ids[i]);
        }
    }
}

} // verus!
