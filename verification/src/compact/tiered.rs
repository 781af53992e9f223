//! Tiered compaction: tiers are merged from the newest on.
use vstd::prelude::*;

use crate::compact::{choosing, ids};
use crate::compact::ids::{collect_tier_ids, copy_ids, copy_levels};
use crate::lsm_storage::LsmStorageState;

verus! {

#[derive(Debug)]
pub struct TieredCompactionTask {
    pub tiers: Vec<(usize, Vec<usize>)>,
    pub bottom_tier_included: bool,
}

#[derive(Debug, Clone, Copy)]
pub struct TieredCompactionOptions {
    pub num_tiers: usize,
    // 100 * (num of sst of non-last tier) / (num of sst of last tier)
    pub max_size_amplification_percent: usize,
    // The used ratio is (100 + size_ratio) %, e.g., size_ratio = 1, used ratio is 101%.
    pub size_ratio: usize,
    pub min_merge_width: usize,
    pub max_merge_width: Option<usize>,
}

pub struct TieredCompactionController {
    pub options: TieredCompactionOptions,
}

/// The number of tables in the first `n` tiers.
pub open spec fn tables_before(levels: Seq<(usize, Vec<usize>)>, n: int) -> int
    decreases n,
{
    if n <= 0 {
        0
    } else {
        tables_before(levels, n - 1) + levels[n - 1].1@.len()
    }
}

/// The tiers above the last one have too many tables for its size.
pub open spec fn amplified(levels: Seq<(usize, Vec<usize>)>, percent: int) -> bool {
    let last = levels.last().1@.len() as int;
    last == 0 || 100 * tables_before(levels, levels.len() - 1) / last >= percent
}

/// The tier at index `i` is too large for what lies above it.
pub open spec fn out_of_ratio(
    levels: Seq<(usize, Vec<usize>)>,
    options: TieredCompactionOptions,
    i: int,
) -> bool {
    let above = tables_before(levels, i);
    let here = levels[i].1@.len() as int;
    i >= options.min_merge_width && above > 0 && here * 100 / above > 100 + options.size_ratio
}

/// The index of the first tier from `i` on that is too large for what lies above it.
pub open spec fn first_out_of_ratio(
    levels: Seq<(usize, Vec<usize>)>,
    options: TieredCompactionOptions,
    i: int,
) -> Option<int>
    decreases levels.len() - i,
{
    if i >= levels.len() {
        None
    } else if out_of_ratio(levels, options, i) {
        Some(i)
    } else {
        first_out_of_ratio(levels, options, i + 1)
    }
}

/// The task merges the first `n` tiers.
pub open spec fn merges_first(
    task: TieredCompactionTask,
    levels: Seq<(usize, Vec<usize>)>,
    n: int,
    bottom: bool,
) -> bool {
    ids::same_levels(task.tiers@, levels.take(n)) && task.bottom_tier_included == bottom
}

/// How many tiers are to be merged, and whether the last one is among them.
pub open spec fn due(levels: Seq<(usize, Vec<usize>)>, options: TieredCompactionOptions) -> Option<
    (int, bool),
> {
    let n = levels.len() as int;
    if n <= 1 || n < options.num_tiers {
        None
    } else if amplified(levels, options.max_size_amplification_percent as int) {
        Some((n, true))
    } else {
        match first_out_of_ratio(levels, options, 0) {
            Some(i) => Some((i, false)),
            None => Some((options.num_tiers as int, n == options.num_tiers)),
        }
    }
}

/// If there is something to merge, there is a tier in it.
pub open spec fn has_tiers(
    levels: Seq<(usize, Vec<usize>)>,
    options: TieredCompactionOptions,
) -> bool {
    match due(levels, options) {
        Some((n, _)) => n > 0,
        None => true,
    }
}

/// The numbers that decide about tasks fit in a usize.
pub open spec fn counts_fit(
    levels: Seq<(usize, Vec<usize>)>,
    options: TieredCompactionOptions,
) -> bool {
    &&& 100 * tables_before(levels, levels.len() as int) <= usize::MAX
    &&& 100 + options.size_ratio <= usize::MAX
}

/// The task that is due.
pub open spec fn tiers_generated(
    options: TieredCompactionOptions,
    state: LsmStorageState,
    r: Option<TieredCompactionTask>,
) -> bool {
    match due(state.levels@, options) {
        Some((n, bottom)) => r matches Some(task) && merges_first(task, state.levels@, n, bottom),
        None => r is None,
    }
}

/// The state after the first tiers have been replaced by the output.
pub open spec fn tiers_applied(
    before: LsmStorageState,
    after: LsmStorageState,
    task: TieredCompactionTask,
    output: Seq<usize>,
) -> bool {
    after.sstables == before.sstables && tier_lists(before, after, task, output)
}

/// The tiers after the first ones have been replaced by the output. Tiers are numbered from 1.
pub open spec fn tier_lists(
    before: LsmStorageState,
    after: LsmStorageState,
    task: TieredCompactionTask,
    output: Seq<usize>,
) -> bool {
    &&& after.memtable == before.memtable
    &&& after.imm_memtables == before.imm_memtables
    &&& after.l0_sstables == before.l0_sstables
    &&& after.levels@.len() == before.levels@.len() - task.tiers@.len() + 1
    &&& forall|i: int| 0 <= i < after.levels@.len() ==> (#[trigger] after.levels@[i]).0 == i + 1
    &&& after.levels@[0].1@ == output
    &&& forall|i: int|
        0 < i < after.levels@.len() ==> (#[trigger] after.levels@[i]).1@ == before.levels@[i - 1
            + task.tiers@.len()].1@
}

proof fn lemma_tables_before_grows(levels: Seq<(usize, Vec<usize>)>, i: int, j: int)
    requires
        0 <= i <= j,
    ensures
        0 <= tables_before(levels, i) <= tables_before(levels, j),
    decreases j,
{
    if i < j {
        lemma_tables_before_grows(levels, i, j - 1);
    } else if j > 0 {
        lemma_tables_before_grows(levels, j - 1, j - 1);
    }
}

impl TieredCompactionController {
    pub fn new(options: TieredCompactionOptions) -> (r: Self)
        ensures
            r.options == options,
    {
        Self { options }
    }

    // Merge all non-last tier sstables with the last tier sstables.
    pub fn generate_ampilification_compaction_task(&self, snapshot: &LsmStorageState) -> (r: Option<
        TieredCompactionTask,
    >)
        requires
            snapshot.levels@.len() > 0,
            counts_fit(snapshot.levels@, self.options),
        ensures
            amplified(snapshot.levels@, self.options.max_size_amplification_percent as int) ==> (
            r matches Some(task) && merges_first(
                task,
                snapshot.levels@,
                snapshot.levels@.len() as int,
                true,
            )),
            !amplified(snapshot.levels@, self.options.max_size_amplification_percent as int)
                ==> r is None,
            r is Some <==> choosing::too_many_above(snapshot.levels@, self.options),
            r matches Some(task) ==> task.bottom_tier_included && choosing::has_first_tiers(
                task,
                snapshot.levels@,
                snapshot.levels@.len() as int,
            ),
    {
        proof {
            choosing::lemma_amplified(snapshot.levels@, self.options);
        }
        let n: usize = snapshot.levels.len();
        let mut non_last_tier_sst_num: usize = 0;
        let mut i: usize = 0;
        while i < n - 1
            invariant
                i <= n - 1,
                n == snapshot.levels@.len(),
                n > 0,
                counts_fit(snapshot.levels@, self.options),
                non_last_tier_sst_num == tables_before(snapshot.levels@, i as int),
            decreases n - i,
        {
            proof {
                lemma_tables_before_grows(snapshot.levels@, i + 1, n as int);
            }
            non_last_tier_sst_num = non_last_tier_sst_num + snapshot.levels[i].1.len();
            i = i + 1;
        }
        proof {
            lemma_tables_before_grows(snapshot.levels@, n - 1, n as int);
        }
        let last_tier_sst_num: usize = snapshot.levels[n - 1].1.len();
        let amplification_ratio_too_large = last_tier_sst_num == 0 || 100 * non_last_tier_sst_num
            / last_tier_sst_num >= self.options.max_size_amplification_percent;
        if amplification_ratio_too_large {
            Some(
                TieredCompactionTask {
                    tiers: copy_levels(&snapshot.levels, n),
                    bottom_tier_included: true,
                },
            )
        } else {
            None
        }
    }

    // Merge the tiers above one that is too large for them.
    pub fn generate_size_ratio_compaction_task(&self, snapshot: &LsmStorageState) -> (r: Option<
        TieredCompactionTask,
    >)
        requires
            counts_fit(snapshot.levels@, self.options),
        ensures
            match first_out_of_ratio(snapshot.levels@, self.options, 0) {
                Some(i) => r matches Some(task) && merges_first(task, snapshot.levels@, i, false),
                None => r is None,
            },
            r is None <==> forall|u: int|
                0 <= u < snapshot.levels@.len() ==> !#[trigger] choosing::too_large_for_those_above(
                    snapshot.levels@,
                    self.options,
                    u,
                ),
            r matches Some(task) ==> choosing::size_ratio_chosen(
                snapshot.levels@,
                self.options,
                task,
            ),
    {
        let n: usize = snapshot.levels.len();
        let mut previous_sstable_count: usize = 0;
        let mut previous_tier_count: usize = 0;
        while previous_tier_count < n
            invariant
                previous_tier_count <= n == snapshot.levels@.len(),
                counts_fit(snapshot.levels@, self.options),
                previous_sstable_count == tables_before(
                    snapshot.levels@,
                    previous_tier_count as int,
                ),
                first_out_of_ratio(snapshot.levels@, self.options, 0) == first_out_of_ratio(
                    snapshot.levels@,
                    self.options,
                    previous_tier_count as int,
                ),
            decreases n - previous_tier_count,
        {
            proof {
                lemma_tables_before_grows(
                    snapshot.levels@,
                    previous_tier_count + 1,
                    n as int,
                );
                lemma_tables_before_grows(
                    snapshot.levels@,
                    previous_tier_count as int,
                    previous_tier_count as int,
                );
            }
            let tier_len: usize = snapshot.levels[previous_tier_count].1.len();
            if previous_tier_count >= self.options.min_merge_width && previous_sstable_count > 0 {
                let ratio: usize = tier_len * 100 / previous_sstable_count;
                if ratio > (100 + self.options.size_ratio) {
                    let r = Some(
                        TieredCompactionTask {
                            tiers: copy_levels(&snapshot.levels, previous_tier_count),
                            // Always false because only previous tiers of this tier are going to be merged.
                            bottom_tier_included: false,
                        },
                    );
                    proof {
                        choosing::lemma_size_ratio(snapshot.levels@, self.options, r);
                    }
                    return r;
                }
            }
            previous_sstable_count = previous_sstable_count + tier_len;
            previous_tier_count = previous_tier_count + 1;
        }
        proof {
            choosing::lemma_size_ratio(snapshot.levels@, self.options, None);
        }
        None
    }

    // Merge the first tiers where there are too many.
    pub fn generate_reduce_tier_num_compaction_task(&self, snapshot: &LsmStorageState) -> (r: Option<
        TieredCompactionTask,
    >)
        ensures
            snapshot.levels@.len() >= self.options.num_tiers ==> (r matches Some(task)
                && merges_first(
                task,
                snapshot.levels@,
                self.options.num_tiers as int,
                snapshot.levels@.len() == self.options.num_tiers,
            )),
            snapshot.levels@.len() < self.options.num_tiers ==> r is None,
            r matches Some(task) ==> choosing::has_first_tiers(
                task,
                snapshot.levels@,
                self.options.num_tiers as int,
            ),
    {
        let tier_num: usize = snapshot.levels.len();
        let num_tier: usize = self.options.num_tiers;
        if tier_num >= num_tier {
            Some(
                TieredCompactionTask {
                    tiers: copy_levels(&snapshot.levels, num_tier),
                    bottom_tier_included: tier_num == num_tier,
                },
            )
        } else {
            None
        }
    }

    pub fn generate_compaction_task(&self, snapshot: &LsmStorageState) -> (r: Option<
        TieredCompactionTask,
    >)
        requires
            counts_fit(snapshot.levels@, self.options),
        ensures
            tiers_generated(self.options, *snapshot, r),
            choosing::tiers_chosen(self.options, *snapshot, r),
    {
        if snapshot.levels.len() <= 1 || snapshot.levels.len() < self.options.num_tiers {
            return None;
        }
        proof {
            assert forall|r: Option<TieredCompactionTask>| #[trigger]
                tiers_generated(self.options, *snapshot, r) implies choosing::tiers_chosen(
                self.options,
                *snapshot,
                r,
            ) by {
                choosing::lemma_tiered_choice(self.options, *snapshot, r);
            }
        }
        let amplification_task = self.generate_ampilification_compaction_task(snapshot);
        if amplification_task.is_some() {
            return amplification_task;
        }
        let size_ratio_task = self.generate_size_ratio_compaction_task(snapshot);
        if size_ratio_task.is_some() {
            return size_ratio_task;
        }
        self.generate_reduce_tier_num_compaction_task(snapshot)
    }

    /// Ensures the id(level.0) of levels[n] is always n + 1(levels stored here begin with level id 1)
    pub fn rebuild_levels(levels: Vec<(usize, Vec<usize>)>) -> (r: Vec<(usize, Vec<usize>)>)
        ensures
            r@.len() == levels@.len(),
            forall|i: int|
                0 <= i < r@.len() ==> (#[trigger] r@[i]).0 == i + 1 && r@[i].1@ == levels@[i].1@,
    {
        let n: usize = levels.len();
        let mut out: Vec<(usize, Vec<usize>)> = Vec::new();
        let mut i: usize = 0;
        while i < n
            invariant
                i <= n == levels@.len(),
                out@.len() == i,
                forall|j: int|
                    0 <= j < i ==> (#[trigger] out@[j]).0 == j + 1 && out@[j].1@ == levels@[j].1@,
            decreases n - i,
        {
            out.push((i + 1, copy_ids(levels[i].1.as_slice())));
            i = i + 1;
        }
        out
    }

    /// Puts the tables that the task's tiers were merged into in their place, as the first tier.
    pub fn apply_compaction_result(
        &self,
        snapshot: LsmStorageState,
        task: &TieredCompactionTask,
        output: &[usize],
    ) -> (r: (LsmStorageState, Vec<usize>))
        requires
            task.tiers@.len() <= snapshot.levels@.len() < usize::MAX,
        ensures
            tiers_applied(snapshot, r.0, *task, output@),
            r.1@ == ids::tier_ids(task.tiers@),
            r.1@ == choosing::all_ids(task.tiers@),
    {
        proof {
            choosing::lemma_tier_ids(task.tiers@);
        }
        let sst_ids_to_remove = collect_tier_ids(task.tiers.as_slice());
        let mut new_engine = snapshot;
        let tier_num_to_remove: usize = task.tiers.len();
        let n: usize = new_engine.levels.len();
        // Only tiers starting from the head of levels will be compacted. So the merged tier need also be put in the head.
        let mut levels: Vec<(usize, Vec<usize>)> = Vec::new();
        levels.push((1, copy_ids(output)));
        let mut i: usize = tier_num_to_remove;
        while i < n
            invariant
                tier_num_to_remove <= i <= n == new_engine.levels@.len(),
                levels@.len() == i - tier_num_to_remove + 1,
                levels@[0].1@ == output@,
                forall|j: int|
                    0 < j < levels@.len() ==> (#[trigger] levels@[j]).1@ == new_engine.levels@[j - 1
                        + tier_num_to_remove].1@,
            decreases n - i,
        {
            levels.push((new_engine.levels[i].0, copy_ids(new_engine.levels[i].1.as_slice())));
            i = i + 1;
        }
        new_engine.levels = Self::rebuild_levels(levels);
        (new_engine, sst_ids_to_remove)
    }
}

} // verus!
