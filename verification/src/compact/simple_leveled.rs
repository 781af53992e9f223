//! Simple leveled compaction: a level is merged into the next one when that has too few tables.
use vstd::prelude::*;

use crate::compact::{choosing, ids};
use crate::compact::ids::{append_ids, copy_ids, partition_ids};
use crate::lsm_storage::LsmStorageState;

verus! {

#[derive(Debug, Clone, Copy)]
pub struct SimpleLeveledCompactionOptions {
    // 100 * (sst num of Ln+1) / (sst num of Ln)
    pub size_ratio_percent: usize,
    pub level0_file_num_compaction_trigger: usize,
    pub max_levels: usize,
}

#[derive(Debug)]
pub struct SimpleLeveledCompactionTask {
    // if upper_level is `None`, then it is L0 compaction
    pub upper_level: Option<usize>,
    pub upper_level_sst_ids: Vec<usize>,
    pub lower_level: usize,
    pub lower_level_sst_ids: Vec<usize>,
    pub is_lower_level_bottom_level: bool,
}

pub struct SimpleLeveledCompactionController {
    pub options: SimpleLeveledCompactionOptions,
}

/// The level at index `i` has tables, and the next level has too few for that.
pub open spec fn too_few_below(levels: Seq<(usize, Vec<usize>)>, ratio: int, i: int) -> bool {
    let upper = levels[i].1@.len() as int;
    let lower = levels[i + 1].1@.len() as int;
    upper > 0 && lower * 100 / upper < ratio
}

/// The index of the first level from `i` on that is to be merged into the next one.
pub open spec fn first_due(levels: Seq<(usize, Vec<usize>)>, ratio: int, i: int) -> Option<int>
    decreases levels.len() - i,
{
    if i + 1 >= levels.len() {
        None
    } else if too_few_below(levels, ratio, i) {
        Some(i)
    } else {
        first_due(levels, ratio, i + 1)
    }
}

/// The task merges the level at index `i` into the next one.
pub open spec fn merges_level(
    task: SimpleLeveledCompactionTask,
    levels: Seq<(usize, Vec<usize>)>,
    i: int,
) -> bool {
    &&& task.upper_level == Some(levels[i].0)
    &&& task.upper_level_sst_ids@ == levels[i].1@
    &&& task.lower_level == levels[i + 1].0
    &&& task.lower_level_sst_ids@ == levels[i + 1].1@
    &&& task.is_lower_level_bottom_level == (i + 2 == levels.len())
}

/// The state has what the choice of a task looks at.
pub open spec fn can_generate(
    options: SimpleLeveledCompactionOptions,
    state: LsmStorageState,
) -> bool {
    &&& state.l0_sstables@.len() >= options.level0_file_num_compaction_trigger
        ==> state.levels@.len() > 0
    &&& forall|i: int|
        0 <= i < state.levels@.len() ==> (#[trigger] state.levels@[i]).1@.len() * 100 <= usize::MAX
}

/// The task that is due: L0 is merged into L1 once it has enough tables; otherwise the first level
/// whose next level has too few tables is merged into that.
pub open spec fn generated(
    options: SimpleLeveledCompactionOptions,
    state: LsmStorageState,
    r: Option<SimpleLeveledCompactionTask>,
) -> bool {
    if state.l0_sstables@.len() >= options.level0_file_num_compaction_trigger {
        &&& r matches Some(task)
        &&& task.upper_level is None
        &&& task.upper_level_sst_ids@ == state.l0_sstables@
        &&& task.lower_level == 1
        &&& task.lower_level_sst_ids@ == state.levels@[0].1@
        &&& !task.is_lower_level_bottom_level
    } else {
        match first_due(state.levels@, options.size_ratio_percent as int, 0) {
            Some(i) => r matches Some(task) && merges_level(task, state.levels@, i),
            None => r is None,
        }
    }
}

/// The state after the task's tables have been replaced by the output in the lists.
pub open spec fn simple_applied(
    before: LsmStorageState,
    after: LsmStorageState,
    task: SimpleLeveledCompactionTask,
    output: Seq<usize>,
) -> bool {
    after.sstables == before.sstables && simple_lists(before, after, task, output)
}

/// The lists after the task's tables have been replaced by the output.
pub open spec fn simple_lists(
    before: LsmStorageState,
    after: LsmStorageState,
    task: SimpleLeveledCompactionTask,
    output: Seq<usize>,
) -> bool {
    &&& after.memtable == before.memtable
    &&& after.imm_memtables == before.imm_memtables
    &&& after.levels@.len() == before.levels@.len()
    &&& match task.upper_level {
        None => {
            &&& after.l0_sstables@ == ids::without(before.l0_sstables@, task.upper_level_sst_ids@)
            &&& after.levels@[0].0 == 1
            &&& after.levels@[0].1@ == output
            &&& forall|i: int|
                0 < i < before.levels@.len() ==> #[trigger] after.levels@[i] == before.levels@[i]
        },
        Some(u) => {
            let l = task.lower_level;
            &&& after.l0_sstables == before.l0_sstables
            &&& after.levels@[l - 1].0 == l
            &&& after.levels@[l - 1].1@ == output
            &&& u != l ==> after.levels@[u - 1].0 == u && after.levels@[u - 1].1@.len() == 0
            &&& forall|i: int|
                0 <= i < before.levels@.len() && i != u - 1 && i != l - 1
                    ==> #[trigger] after.levels@[i] == before.levels@[i]
        },
    }
}

/// The tables that the task has used up.
pub open spec fn simple_consumed(
    before: LsmStorageState,
    task: SimpleLeveledCompactionTask,
) -> Seq<usize> {
    match task.upper_level {
        None => ids::common(before.l0_sstables@, task.upper_level_sst_ids@) + before.levels@[0].1@,
        Some(_) => task.upper_level_sst_ids@ + task.lower_level_sst_ids@,
    }
}

impl SimpleLeveledCompactionController {
    pub fn new(options: SimpleLeveledCompactionOptions) -> (r: Self)
        ensures
            r.options == options,
    {
        Self { options }
    }

    /// Generates a compaction task.
    ///
    /// Returns `None` if no compaction needs to be scheduled. The order of SSTs in the compaction task id vector matters.
    pub fn generate_compaction_task(&self, snapshot: &LsmStorageState) -> (r: Option<
        SimpleLeveledCompactionTask,
    >)
        requires
            can_generate(self.options, *snapshot),
        ensures
            generated(self.options, *snapshot, r),
            choosing::simple_chosen(self.options, *snapshot, r),
            self.options.size_ratio_percent == 0 && snapshot.l0_sstables@.len()
                < self.options.level0_file_num_compaction_trigger ==> r is None,
    {
        if snapshot.l0_sstables.len() >= self.options.level0_file_num_compaction_trigger {
            let l1_id: usize = 1;
            return Some(
                SimpleLeveledCompactionTask {
                    upper_level: None,
                    upper_level_sst_ids: copy_ids(snapshot.l0_sstables.as_slice()),
                    lower_level: l1_id,
                    lower_level_sst_ids: copy_ids(snapshot.levels[l1_id - 1].1.as_slice()),
                    is_lower_level_bottom_level: false,
                },
            );
        }
        // From 1 to n
        let max_level_id: usize = snapshot.levels.len();
        let mut upper_level_id: usize = 1;
        while upper_level_id < max_level_id
            invariant
                1 <= upper_level_id,
                max_level_id == snapshot.levels@.len(),
                upper_level_id <= max_level_id || max_level_id == 0,
                forall|i: int|
                    0 <= i < snapshot.levels@.len() ==> (#[trigger] snapshot.levels@[i]).1@.len() * 100
                        <= usize::MAX,
                snapshot.l0_sstables@.len() < self.options.level0_file_num_compaction_trigger,
                first_due(snapshot.levels@, self.options.size_ratio_percent as int, 0) == first_due(
                    snapshot.levels@,
                    self.options.size_ratio_percent as int,
                    upper_level_id - 1,
                ),
            decreases max_level_id - upper_level_id,
        {
            let upper_level = &snapshot.levels[upper_level_id - 1];
            let lower_level_id: usize = upper_level_id + 1;
            let lower_level = &snapshot.levels[lower_level_id - 1];
            let is_lower_level_bottom_level = lower_level_id == max_level_id;

            let upper_sst_num: usize = upper_level.1.len();
            let lower_sst_num: usize = lower_level.1.len();
            assert(snapshot.levels@[lower_level_id - 1].1@.len() * 100 <= usize::MAX);

            let need_compact = upper_sst_num > 0 && lower_sst_num * 100 / upper_sst_num
                < self.options.size_ratio_percent;

            if need_compact {
                let r = Some(
                    SimpleLeveledCompactionTask {
                        upper_level: Some(upper_level.0),
                        upper_level_sst_ids: copy_ids(upper_level.1.as_slice()),
                        lower_level: lower_level.0,
                        lower_level_sst_ids: copy_ids(lower_level.1.as_slice()),
                        is_lower_level_bottom_level,
                    },
                );
                proof {
                    choosing::lemma_simple_choice(self.options, *snapshot, r);
                }
                return r;
            }
            upper_level_id = upper_level_id + 1;
        }
        proof {
            choosing::lemma_simple_choice(self.options, *snapshot, None);
        }
        None
    }

    /// Applies the result of merging L0 into L1. New SSTs that were flushed while compacting stay.
    pub fn apply_compaction_result_to_l0(
        &self,
        snapshot: LsmStorageState,
        task: &SimpleLeveledCompactionTask,
        output: &[usize],
    ) -> (r: (LsmStorageState, Vec<usize>))
        requires
            snapshot.levels@.len() > 0,
        ensures
            r.0.memtable == snapshot.memtable,
            r.0.imm_memtables == snapshot.imm_memtables,
            r.0.sstables == snapshot.sstables,
            r.0.l0_sstables@ == ids::without(snapshot.l0_sstables@, task.upper_level_sst_ids@),
            r.0.levels@.len() == snapshot.levels@.len(),
            r.0.levels@[0].0 == 1,
            r.0.levels@[0].1@ == output@,
            forall|i: int|
                0 < i < snapshot.levels@.len() ==> #[trigger] r.0.levels@[i] == snapshot.levels@[i],
            r.1@ == ids::common(snapshot.l0_sstables@, task.upper_level_sst_ids@)
                + snapshot.levels@[0].1@,
    {
        let mut new_engine = snapshot;
        let (consumed_l0_sst_ids, unconsumed_l0_sst_ids) = partition_ids(
            &new_engine.l0_sstables,
            &task.upper_level_sst_ids,
        );
        // Collect consumed sst ids.
        let mut consumed_sst_ids: Vec<usize> = consumed_l0_sst_ids;
        append_ids(&mut consumed_sst_ids, new_engine.levels[0].1.as_slice());

        // Apply new l0 and l1
        new_engine.l0_sstables = unconsumed_l0_sst_ids;
        new_engine.levels.set(0, (1, copy_ids(output)));
        (new_engine, consumed_sst_ids)
    }

    /// Applies the result of merging a level below L0 into the next one.
    pub fn apply_compaction_result_to_l1_and_lower(
        &self,
        snapshot: LsmStorageState,
        task: &SimpleLeveledCompactionTask,
        output: &[usize],
    ) -> (r: (LsmStorageState, Vec<usize>))
        requires
            task.upper_level matches Some(u) && 1 <= u <= snapshot.levels@.len(),
            1 <= task.lower_level <= snapshot.levels@.len(),
        ensures
            ({
                let u = task.upper_level->0;
                let l = task.lower_level;
                &&& r.0.memtable == snapshot.memtable
                &&& r.0.imm_memtables == snapshot.imm_memtables
                &&& r.0.sstables == snapshot.sstables
                &&& r.0.l0_sstables == snapshot.l0_sstables
                &&& r.0.levels@.len() == snapshot.levels@.len()
                &&& r.0.levels@[l - 1].0 == l
                &&& r.0.levels@[l - 1].1@ == output@
                &&& u != l ==> r.0.levels@[u - 1].0 == u && r.0.levels@[u - 1].1@.len() == 0
                &&& forall|i: int|
                    0 <= i < snapshot.levels@.len() && i != u - 1 && i != l - 1
                        ==> #[trigger] r.0.levels@[i] == snapshot.levels@[i]
                &&& r.1@ == task.upper_level_sst_ids@ + task.lower_level_sst_ids@
            }),
    {
        let mut consumed_sst_ids: Vec<usize> = copy_ids(task.upper_level_sst_ids.as_slice());
        append_ids(&mut consumed_sst_ids, task.lower_level_sst_ids.as_slice());

        let upper_level_id: usize = task.upper_level.unwrap();
        let mut new_engine = snapshot;
        new_engine.levels.set(upper_level_id - 1, (upper_level_id, Vec::new()));
        new_engine.levels.set(task.lower_level - 1, (task.lower_level, copy_ids(output)));
        (new_engine, consumed_sst_ids)
    }

    /// Apply the compaction result.
    ///
    /// The compactor will call this function with the compaction task and the list of SST ids generated. This function applies the
    /// result and generates a new LSM state. The functions should only change `l0_sstables` and `levels` without changing memtables
    /// and `sstables` hash map.
    pub fn apply_compaction_result(
        &self,
        snapshot: LsmStorageState,
        task: &SimpleLeveledCompactionTask,
        output: &[usize],  // Sst ids after merge. They should be put in lower level.
    ) -> (r: (LsmStorageState, Vec<usize>))
        requires
            simple_task_ok(*task, snapshot.levels@.len() as int),
        ensures
            simple_applied(snapshot, r.0, *task, output@),
            r.1@ == simple_consumed(snapshot, *task),
    {
        if task.upper_level.is_none() {
            self.apply_compaction_result_to_l0(snapshot, task, output)
        } else {
            self.apply_compaction_result_to_l1_and_lower(snapshot, task, output)
        }
    }
}

/// The levels of the task are levels of a state with `n` levels.
pub open spec fn simple_task_ok(task: SimpleLeveledCompactionTask, n: int) -> bool {
    match task.upper_level {
        None => n > 0,
        Some(u) => 1 <= u <= n && 1 <= task.lower_level <= n,
    }
}

} // verus!
