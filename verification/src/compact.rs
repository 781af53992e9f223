//! Compaction: merging tables so that reads stay fast and deleted data goes away.
pub mod choosing;
pub mod executor;
pub mod ids;
pub mod laws;
pub mod leveled;
pub mod outcome;
pub mod replacing;
pub mod simple_leveled;
pub mod sizes;
pub mod targets;
pub mod tiered;
pub mod tombstones;

use std::collections::HashMap;
use std::sync::Arc;

use vstd::prelude::*;

pub use crate::compact::leveled::{
    LeveledCompactionController, LeveledCompactionOptions, LeveledCompactionTask,
};
pub use crate::compact::simple_leveled::{
    SimpleLeveledCompactionController, SimpleLeveledCompactionOptions, SimpleLeveledCompactionTask,
};
pub use crate::compact::tiered::{
    TieredCompactionController, TieredCompactionOptions, TieredCompactionTask,
};

use crate::compact::ids::{append_ids, partition_ids};
use crate::lsm_storage::LsmStorageState;
use crate::table::SsTable;

verus! {

broadcast use vstd::std_specs::hash::group_hash_axioms;

/// Whether all listed tables are loaded.
pub fn all_are_loaded(tables: &HashMap<usize, Arc<SsTable>>, ids: &[usize]) -> (r: bool)
    ensures
        r == leveled::all_loaded(tables@, ids@),
{
    let mut i: usize = 0;
    while i < ids.len()
        invariant
            i <= ids@.len(),
            forall|j: int| 0 <= j < i ==> tables@.contains_key(#[trigger] ids@[j]),
        decreases ids@.len() - i,
    {
        if !tables.contains_key(&ids[i]) {
            assert(!tables@.contains_key(ids@[i as int]));
            return false;
        }
        i = i + 1;
    }
    true
}

#[derive(Debug)]
pub enum CompactionTask {
    Leveled(LeveledCompactionTask),
    Tiered(TieredCompactionTask),
    Simple(SimpleLeveledCompactionTask),
    ForceFullCompaction { l0_sstables: Vec<usize>, l1_sstables: Vec<usize> },
}

impl CompactionTask {
    /// Whether the output of the task has nothing below it.
    pub fn compact_to_bottom_level(&self) -> (r: bool)
        ensures
            r == match *self {
                CompactionTask::ForceFullCompaction { .. } => true,
                CompactionTask::Leveled(task) => task.is_lower_level_bottom_level,
                CompactionTask::Simple(task) => task.is_lower_level_bottom_level,
                CompactionTask::Tiered(task) => task.bottom_tier_included,
            },
    {
        match self {
            CompactionTask::ForceFullCompaction { .. } => true,
            CompactionTask::Leveled(task) => task.is_lower_level_bottom_level,
            CompactionTask::Simple(task) => task.is_lower_level_bottom_level,
            CompactionTask::Tiered(task) => task.bottom_tier_included,
        }
    }
}

#[derive(Debug, Clone, Copy)]
pub enum CompactionOptions {
    /// Leveled compaction with partial compaction + dynamic level support (= RocksDB's Leveled
    /// Compaction)
    Leveled(LeveledCompactionOptions),
    /// Tiered compaction (= RocksDB's universal compaction)
    Tiered(TieredCompactionOptions),
    /// Simple leveled compaction
    Simple(SimpleLeveledCompactionOptions),
    /// In no compaction mode (week 1), always flush to L0
    NoCompaction,
}

/// Decides what to compact, and keeps the levels accordingly.
pub enum CompactionController {
    Leveled(LeveledCompactionController),
    Tiered(TieredCompactionController),
    Simple(SimpleLeveledCompactionController),
    NoCompaction,
}

impl CompactionController {
    /// The state has what the choice of a task looks at. Without compaction there is no choice.
    pub open spec fn can_generate(&self, state: LsmStorageState, ranks: Seq<u64>) -> bool {
        match *self {
            CompactionController::Leveled(c) => leveled::can_generate(c.options, state, ranks),
            CompactionController::Simple(c) => simple_leveled::can_generate(c.options, state),
            CompactionController::Tiered(c) => tiered::counts_fit(state.levels@, c.options),
            CompactionController::NoCompaction => false,
        }
    }

    /// `r` is the task that is due.
    pub open spec fn generated(
        &self,
        state: LsmStorageState,
        ranks: Seq<u64>,
        r: Option<CompactionTask>,
    ) -> bool {
        match *self {
            CompactionController::Leveled(c) => match r {
                Some(CompactionTask::Leveled(t)) => leveled::generated(
                    c.options,
                    state,
                    ranks,
                    Some(t),
                ),
                None => leveled::generated(c.options, state, ranks, None),
                _ => false,
            },
            CompactionController::Simple(c) => match r {
                Some(CompactionTask::Simple(t)) => simple_leveled::generated(
                    c.options,
                    state,
                    Some(t),
                ),
                None => simple_leveled::generated(c.options, state, None),
                _ => false,
            },
            CompactionController::Tiered(c) => match r {
                Some(CompactionTask::Tiered(t)) => tiered::tiers_generated(
                    c.options,
                    state,
                    Some(t),
                ),
                None => tiered::tiers_generated(c.options, state, None),
                _ => false,
            },
            CompactionController::NoCompaction => false,
        }
    }

    /// Generates the task that is due. `ranks` holds the rank of each level's priority for leveled
    /// compaction.
    pub fn generate_compaction_task(&self, snapshot: &LsmStorageState, ranks: &[u64]) -> (r: Option<
        CompactionTask,
    >)
        requires
            self.can_generate(*snapshot, ranks@),
        ensures
            self.generated(*snapshot, ranks@, r),
    {
        match self {
            CompactionController::Leveled(ctrl) => match ctrl.generate_compaction_task(
                snapshot,
                ranks,
            ) {
                Some(task) => Some(CompactionTask::Leveled(task)),
                None => None,
            },
            CompactionController::Simple(ctrl) => match ctrl.generate_compaction_task(snapshot) {
                Some(task) => Some(CompactionTask::Simple(task)),
                None => None,
            },
            CompactionController::Tiered(ctrl) => match ctrl.generate_compaction_task(snapshot) {
                Some(task) => Some(CompactionTask::Tiered(task)),
                None => None,
            },
            CompactionController::NoCompaction => None,
        }
    }

    /// The task is one of this controller's, and the state has the levels it speaks of.
    pub open spec fn can_apply(
        &self,
        state: LsmStorageState,
        task: CompactionTask,
        output: Seq<usize>,
    ) -> bool {
        match (*self, task) {
            (CompactionController::Leveled(c), CompactionTask::Leveled(t)) => leveled::leveled_task_ok(
                t,
                state,
                output,
            ),
            (CompactionController::Simple(c), CompactionTask::Simple(t)) => simple_leveled::simple_task_ok(
                t,
                state.levels@.len() as int,
            ),
            (CompactionController::Tiered(c), CompactionTask::Tiered(t)) => t.tiers@.len()
                <= state.levels@.len() < usize::MAX,
            _ => false,
        }
    }

    /// Whether the task is one of this controller's, and the state has the levels it speaks of.
    pub fn accepts_task(
        &self,
        snapshot: &LsmStorageState,
        task: &CompactionTask,
        output: &[usize],
    ) -> (r: bool)
        ensures
            r == self.can_apply(*snapshot, *task, output@),
    {
        let n: usize = snapshot.levels.len();
        match (self, task) {
            (CompactionController::Leveled(_), CompactionTask::Leveled(t)) => {
                let upper_ok = match t.upper_level {
                    Some(u) => 1 <= u && u <= n,
                    None => true,
                };
                if !upper_ok || t.lower_level < 1 || t.lower_level > n {
                    return false;
                }
                let (_, kept) = partition_ids(
                    &snapshot.levels[t.lower_level - 1].1,
                    &t.lower_level_sst_ids,
                );
                let mut all: Vec<usize> = kept;
                append_ids(&mut all, output);
                all_are_loaded(&snapshot.sstables, all.as_slice())
            },
            (CompactionController::Simple(_), CompactionTask::Simple(t)) => match t.upper_level {
                None => n > 0,
                Some(u) => 1 <= u && u <= n && 1 <= t.lower_level && t.lower_level <= n,
            },
            (CompactionController::Tiered(_), CompactionTask::Tiered(t)) => t.tiers.len() <= n && n
                < usize::MAX,
            _ => false,
        }
    }

    /// The state after the task's tables have been replaced by the output, and the tables used up.
    pub open spec fn applied(
        &self,
        before: LsmStorageState,
        after: LsmStorageState,
        task: CompactionTask,
        output: Seq<usize>,
        consumed: Seq<usize>,
    ) -> bool {
        match task {
            CompactionTask::Leveled(t) => {
                &&& after.memtable == before.memtable
                &&& after.imm_memtables == before.imm_memtables
                &&& after.sstables == before.sstables
                &&& leveled::leveled_applied(before, after, t, output)
                &&& consumed == t.upper_level_sst_ids@ + t.lower_level_sst_ids@
            },
            CompactionTask::Simple(t) => {
                &&& simple_leveled::simple_applied(before, after, t, output)
                &&& consumed == simple_leveled::simple_consumed(before, t)
            },
            CompactionTask::Tiered(t) => {
                &&& tiered::tiers_applied(before, after, t, output)
                &&& consumed == ids::tier_ids(t.tiers@)
            },
            CompactionTask::ForceFullCompaction { .. } => false,
        }
    }

    /// Replaces the task's tables by the output in the levels.
    pub fn apply_compaction_result(
        &self,
        snapshot: LsmStorageState,
        task: &CompactionTask,
        output: &[usize],
        in_recovery: bool,
    ) -> (r: (LsmStorageState, Vec<usize>))
        requires
            self.can_apply(snapshot, *task, output@),
        ensures
            self.applied(snapshot, r.0, *task, output@, r.1@),
    {
        match (self, task) {
            (CompactionController::Leveled(ctrl), CompactionTask::Leveled(task)) => {
                ctrl.apply_compaction_result(snapshot, task, output, in_recovery)
            },
            (CompactionController::Simple(ctrl), CompactionTask::Simple(task)) => {
                ctrl.apply_compaction_result(snapshot, task, output)
            },
            (CompactionController::Tiered(ctrl), CompactionTask::Tiered(task)) => {
                ctrl.apply_compaction_result(snapshot, task, output)
            },
            _ => (snapshot, Vec::new()),
        }
    }

    /// Whether mem-tables are flushed to L0. The tiered strategy doesn't use L0.
    pub fn flush_to_l0(&self) -> (r: bool)
        ensures
            r == !(self is Tiered),
    {
        match self {
            CompactionController::Leveled(_) => true,
            CompactionController::Simple(_) => true,
            CompactionController::NoCompaction => true,
            CompactionController::Tiered(_) => false,
        }
    }
}

} // verus!
