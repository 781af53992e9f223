//! The state of the storage engine and its options.
use std::collections::HashMap;
use std::sync::Arc;

use vstd::prelude::*;

use crate::compact::leveled;
use crate::compact::CompactionOptions;
use crate::iterators::{concat_iterator, merging};
use crate::key::VKey;
use crate::mem_table::MemTable;
use crate::table::SsTable;

verus! {

broadcast use vstd::std_specs::hash::group_hash_axioms;

/// Represents the state of the storage engine.
pub struct LsmStorageState {
    /// The current memtable.
    pub memtable: MemTable,
    /// Immutable memtables, from latest to earliest.
    /// A newly frozen memtable is inserted at index 0.
    pub imm_memtables: Vec<MemTable>,
    /// L0 SSTs, from latest to earliest.
    pub l0_sstables: Vec<usize>,
    /// SsTables sorted by key range; L1 - L_max for leveled compaction, or tiers for tiered
    /// compaction.
    pub levels: Vec<(usize, Vec<usize>)>,
    /// SST objects.
    pub sstables: HashMap<usize, Arc<SsTable>>,
}

pub enum WriteBatchRecord<T> {
    Put(T, T),
    Del(T),
}

#[derive(Debug, Clone, Copy)]
pub struct LsmStorageOptions {
    // Block size in bytes
    pub block_size: usize,
    // SST size in bytes, also the approximate memtable capacity limit
    pub target_sst_size: usize,
    // Maximum number of memtables in memory, flush to L0 when exceeding this limit
    pub num_memtable_limit: usize,
    pub compaction_options: CompactionOptions,
    pub enable_wal: bool,
    pub serializable: bool,
}

impl LsmStorageOptions {
    pub fn default_for_week1_test() -> (r: Self)
        ensures
            r == (Self {
                block_size: 4096,
                target_sst_size: 2097152,
                compaction_options: CompactionOptions::NoCompaction,
                enable_wal: false,
                num_memtable_limit: 50,
                serializable: false,
            }),
    {
        Self {
            block_size: 4096,
            target_sst_size: 2097152,
            compaction_options: CompactionOptions::NoCompaction,
            enable_wal: false,
            num_memtable_limit: 50,
            serializable: false,
        }
    }

    pub fn default_for_week1_day6_test() -> (r: Self)
        ensures
            r == (Self {
                block_size: 4096,
                target_sst_size: 2097152,
                compaction_options: CompactionOptions::NoCompaction,
                enable_wal: false,
                num_memtable_limit: 2,
                serializable: false,
            }),
    {
        Self {
            block_size: 4096,
            target_sst_size: 2097152,
            compaction_options: CompactionOptions::NoCompaction,
            enable_wal: false,
            num_memtable_limit: 2,
            serializable: false,
        }
    }

    pub fn default_for_week2_test(compaction_options: CompactionOptions) -> (r: Self)
        ensures
            r == (Self {
                block_size: 4096,
                target_sst_size: 1048576,
                compaction_options,
                enable_wal: false,
                num_memtable_limit: 2,
                serializable: false,
            }),
    {
        Self {
            block_size: 4096,
            target_sst_size: 1048576,  // 1MB
            compaction_options,
            enable_wal: false,
            num_memtable_limit: 2,
            serializable: false,
        }
    }
}

/// The number of levels that a state begins with.
pub open spec fn initial_levels(options: CompactionOptions) -> int {
    match options {
        CompactionOptions::Leveled(o) => o.max_levels as int,
        CompactionOptions::Simple(o) => o.max_levels as int,
        CompactionOptions::Tiered(_) => 0,
        CompactionOptions::NoCompaction => 1,
    }
}

/// The tables with the given ids.
pub open spec fn tables_of(tables: Map<usize, Arc<SsTable>>, ids: Seq<usize>) -> Seq<Arc<SsTable>> {
    Seq::new(ids.len(), |i: int| tables[ids[i]])
}

/// Every loaded table is well formed and knows its id.
pub open spec fn tables_ok(tables: Map<usize, Arc<SsTable>>) -> bool {
    forall|id: usize| #[trigger]
        tables.contains_key(id) ==> tables[id].wf() && tables[id].id == id
}

/// What each mem-table says, from the newest on.
pub open spec fn mem_layers(state: LsmStorageState) -> Seq<Map<VKey, Seq<u8>>> {
    seq![state.memtable.contents()] + Seq::new(
        state.imm_memtables@.len(),
        |i: int| state.imm_memtables@[i].contents(),
    )
}

/// What each table of a list says.
pub open spec fn table_layers(tables: Map<usize, Arc<SsTable>>, ids: Seq<usize>) -> Seq<
    Map<VKey, Seq<u8>>,
> {
    Seq::new(ids.len(), |i: int| merging::to_map(tables[ids[i]].entries()))
}

/// What each level says.
pub open spec fn level_layers(
    tables: Map<usize, Arc<SsTable>>,
    levels: Seq<(usize, Vec<usize>)>,
) -> Seq<Map<VKey, Seq<u8>>> {
    Seq::new(
        levels.len(),
        |i: int| merging::to_map(concat_iterator::joined(tables_of(tables, levels[i].1@))),
    )
}

impl LsmStorageState {
    /// The mem-tables fit into blocks, all listed tables are loaded, and every level is a run of
    /// tables in key order. The number of levels[n] is n + 1.
    pub open spec fn wf(&self) -> bool {
        &&& self.memtable.fits()
        &&& forall|i: int|
            0 <= i < self.imm_memtables@.len() ==> (#[trigger] self.imm_memtables@[i]).fits()
        &&& tables_ok(self.sstables@)
        &&& leveled::all_loaded(self.sstables@, self.l0_sstables@)
        &&& forall|i: int| 0 <= i < self.levels@.len() ==> #[trigger] self.level_ok(i)
    }

    /// The level at index `i` has the right number, and its tables are loaded and form a run.
    pub open spec fn level_ok(&self, i: int) -> bool {
        &&& self.levels@[i].0 == i + 1
        &&& leveled::all_loaded(self.sstables@, self.levels@[i].1@)
        &&& concat_iterator::run_ok(tables_of(self.sstables@, self.levels@[i].1@))
    }

    /// What the mem-tables and the tables say, from the newest on.
    pub open spec fn layers(&self) -> Seq<Map<VKey, Seq<u8>>> {
        mem_layers(*self) + table_layers(self.sstables@, self.l0_sstables@) + level_layers(
            self.sstables@,
            self.levels@,
        )
    }

    /// All versions that the state holds.
    pub open spec fn contents(&self) -> Map<VKey, Seq<u8>> {
        merging::union_layers(self.layers())
    }

    /// A state without entries.
    pub open spec fn is_initial(&self, options: CompactionOptions) -> bool {
        &&& self.memtable.id == 0
        &&& self.memtable.contents() == Map::<VKey, Seq<u8>>::empty()
        &&& self.memtable.wal is None
        &&& self.memtable.approximate_size == 0
        &&& self.imm_memtables@.len() == 0
        &&& self.l0_sstables@.len() == 0
        &&& self.levels@.len() == initial_levels(options)
        &&& forall|i: int|
            0 <= i < self.levels@.len() ==> (#[trigger] self.levels@[i]).0 == i + 1
                && self.levels@[i].1@.len() == 0
        &&& self.sstables@ == Map::<usize, Arc<SsTable>>::empty()
    }

    pub fn create(options: &LsmStorageOptions) -> (r: Self)
        ensures
            r.is_initial(options.compaction_options),
    {
        let count: usize = match &options.compaction_options {
            CompactionOptions::Leveled(o) => o.max_levels,
            CompactionOptions::Simple(o) => o.max_levels,
            CompactionOptions::Tiered(_) => 0,
            CompactionOptions::NoCompaction => 1,
        };
        let mut levels: Vec<(usize, Vec<usize>)> = Vec::new();
        let mut i: usize = 0;
        while i < count
            invariant
                i <= count,
                levels@.len() == i,
                forall|j: int|
                    0 <= j < i ==> (#[trigger] levels@[j]).0 == j + 1 && levels@[j].1@.len() == 0,
            decreases count - i,
        {
            i = i + 1;
            levels.push((i, Vec::new()));
        }
        Self {
            memtable: MemTable::create(0),
            imm_memtables: Vec::new(),
            l0_sstables: Vec::new(),
            levels,
            sstables: HashMap::new(),
        }
    }
}

} // verus!
