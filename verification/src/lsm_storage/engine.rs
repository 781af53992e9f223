//! The storage engine: what it holds, and what writing does to it.
use std::sync::Arc;

use vstd::prelude::*;

use crate::block::{MAX_KEY_LEN, MAX_VALUE_LEN};
use crate::compact::{CompactionController, TieredCompactionController};
use crate::iterators::{concat_iterator, merging};
use crate::key::{KeySlice, VEntry, VKey};
use crate::lsm_storage::{laws, state, LsmStorageOptions, LsmStorageState, WriteBatchRecord};
use crate::manifest::ManifestRecord;
use crate::mem_table;
use crate::mem_table::MemTable;
use crate::mvcc::LsmMvccInner;
use crate::outside::share;
use crate::table::builder::MAX_BLOCK_SIZE;
use crate::table::{SsTable, SsTableBuilder};
use crate::{block, key, table, wal};

verus! {

broadcast use vstd::std_specs::hash::group_hash_axioms;

#[derive(Debug)]
pub enum CompactionFilter {
    Prefix(Vec<u8>),
}

/// What is to be done to files to follow a change of the engine.
pub enum Action {
    /// Append a record to the WAL of a mem-table.
    AppendWal { id: usize, record: Vec<u8> },
    /// Make the WAL of a mem-table durable.
    SyncWal { id: usize },
    /// Create the WAL of a mem-table.
    CreateWal { id: usize },
    /// Add a record to the manifest.
    WriteManifest(ManifestRecord),
    /// Write the file of a table.
    WriteSst(Arc<SsTable>),
    /// Make the directory durable.
    SyncDir,
}

/// An action over mathematical values.
pub enum VAction {
    AppendWal(usize, Seq<u8>),
    SyncWal(usize),
    CreateWal(usize),
    WriteManifest(ManifestRecord),
    WriteSst(Arc<SsTable>),
    SyncDir,
}

impl View for Action {
    type V = VAction;

    open spec fn view(&self) -> VAction {
        match *self {
            Action::AppendWal { id, record } => VAction::AppendWal(id, record@),
            Action::SyncWal { id } => VAction::SyncWal(id),
            Action::CreateWal { id } => VAction::CreateWal(id),
            Action::WriteManifest(record) => VAction::WriteManifest(record),
            Action::WriteSst(sst) => VAction::WriteSst(sst),
            Action::SyncDir => VAction::SyncDir,
        }
    }
}

pub open spec fn action_views(actions: Seq<Action>) -> Seq<VAction> {
    Seq::new(actions.len(), |i: int| actions[i]@)
}

/// A mem-table over mathematical values.
pub struct VMem {
    pub id: usize,
    pub contents: Map<VKey, Seq<u8>>,
    /// The largest timestamp in the WAL, where there is a WAL.
    pub log: Option<u64>,
    pub size: usize,
}

pub open spec fn mem_view(m: MemTable) -> VMem {
    VMem {
        id: m.id,
        contents: m.contents(),
        log: match m.wal {
            Some(w) => Some(w.max_ts),
            None => None,
        },
        size: m.approximate_size,
    }
}

/// What writing works on: the mem-tables, from the newest on, and the next id.
pub struct WriteState {
    pub mems: Seq<VMem>,
    pub next: int,
}

/// The mem-table after an entry has been put into it.
pub open spec fn put_mem(m: VMem, e: VEntry) -> VMem {
    VMem {
        id: m.id,
        contents: m.contents.insert(e.key, e.value),
        log: match m.log {
            Some(ts) => Some(
                if e.key.ts > ts {
                    e.key.ts
                } else {
                    ts
                },
            ),
            None => None,
        },
        size: mem_table::size_after(m.size, seq![e]),
    }
}

/// Freezing: the newest mem-table gets a successor with the next id. Its WAL is made durable.
pub open spec fn freeze_effects(w: WriteState, options: LsmStorageOptions) -> (
    WriteState,
    Seq<VAction>,
) {
    let id = w.next as usize;
    let fresh = VMem {
        id,
        contents: Map::empty(),
        log: if options.enable_wal {
            Some(0)
        } else {
            None
        },
        size: 0,
    };
    let synced = if w.mems[0].log is Some {
        seq![VAction::SyncWal(w.mems[0].id)]
    } else {
        Seq::empty()
    };
    let created = if options.enable_wal {
        seq![
            VAction::CreateWal(id),
            VAction::WriteManifest(ManifestRecord::NewMemtable(id)),
        ]
    } else {
        Seq::empty()
    };
    (WriteState { mems: seq![fresh] + w.mems, next: w.next + 1 }, synced + created)
}

/// Putting an entry: it goes into the newest mem-table, which is frozen once it is too large.
pub open spec fn put_effects(w: WriteState, e: VEntry, options: LsmStorageOptions) -> (
    WriteState,
    Seq<VAction>,
) {
    let m = put_mem(w.mems[0], e);
    let put = WriteState { mems: w.mems.update(0, m), next: w.next };
    let logged = if m.log is Some {
        seq![VAction::AppendWal(m.id, wal::batch_bytes(seq![e]))]
    } else {
        Seq::empty()
    };
    if m.size > options.target_sst_size {
        let (frozen, actions) = freeze_effects(put, options);
        (frozen, logged + actions)
    } else {
        (put, logged)
    }
}

/// Putting entries one after another.
pub open spec fn batch_effects(w: WriteState, es: Seq<VEntry>, options: LsmStorageOptions) -> (
    WriteState,
    Seq<VAction>,
)
    decreases es.len(),
{
    if es.len() == 0 {
        (w, Seq::empty())
    } else {
        let (before, done) = batch_effects(w, es.drop_last(), options);
        let (after, more) = put_effects(before, es.last(), options);
        (after, done + more)
    }
}

/// The user key and the value of a record. A deletion has an empty value.
pub open spec fn record_entry(r: WriteBatchRecord<&[u8]>, ts: u64) -> VEntry {
    match r {
        WriteBatchRecord::Put(k, v) => VEntry { key: VKey { key: k@, ts }, value: v@ },
        WriteBatchRecord::Del(k) => VEntry { key: VKey { key: k@, ts }, value: Seq::empty() },
    }
}

/// The entries of a batch at a timestamp.
pub open spec fn batch_entries(batch: Seq<WriteBatchRecord<&[u8]>>, ts: u64) -> Seq<VEntry> {
    Seq::new(batch.len(), |i: int| record_entry(batch[i], ts))
}

/// The two lists have no id in common.
pub open spec fn apart(a: Seq<usize>, b: Seq<usize>) -> bool {
    forall|x: usize| #[trigger] a.contains(x) ==> !b.contains(x)
}

/// No table is in two lists.
pub open spec fn lists_apart(s: LsmStorageState) -> bool {
    &&& forall|i: int| 0 <= i < s.levels@.len() ==> apart(s.l0_sstables@, #[trigger] s.levels@[i].1@)
    &&& forall|i: int, j: int|
        #![trigger s.levels@[i], s.levels@[j]]
        0 <= i < s.levels@.len() && 0 <= j < s.levels@.len() && i != j ==> apart(
            s.levels@[i].1@,
            s.levels@[j].1@,
        )
}

/// The immutable mem-tables are those from before, and in front of them such as are above the limit.
pub open spec fn only_full_added(before: Seq<MemTable>, after: Seq<MemTable>, limit: usize) -> bool {
    &&& before.len() <= after.len()
    &&& after.skip(after.len() - before.len()) == before
    &&& forall|i: int|
        0 <= i < after.len() - before.len() ==> (#[trigger] after[i]).approximate_size > limit
}

/// Nothing is added where the lists are equal.
pub proof fn lemma_none_added(s: Seq<MemTable>, limit: usize)
    ensures
        only_full_added(s, s, limit),
{
    assert(s.skip(0) =~= s);
}

/// What is added in two steps.
pub proof fn lemma_added_twice(a: Seq<MemTable>, b: Seq<MemTable>, c: Seq<MemTable>, limit: usize)
    requires
        only_full_added(a, b, limit),
        only_full_added(b, c, limit),
    ensures
        only_full_added(a, c, limit),
{
    let n = c.len() - b.len();
    assert(c.skip(c.len() - a.len()) =~= c.skip(n).skip(b.len() - a.len()));
    assert forall|i: int| 0 <= i < c.len() - a.len() implies (#[trigger] c[i]).approximate_size
        > limit by {
        if i >= n {
            assert(c[i] == c.skip(n)[i - n]);
            assert(c[i] == b[i - n]);
        }
    }
}

/// The storage interface of the LSM tree.
pub struct LsmStorageInner {
    pub state: LsmStorageState,
    pub next_sst_id: usize,
    pub options: LsmStorageOptions,
    pub compaction_controller: CompactionController,
    pub mvcc: LsmMvccInner,
    pub compaction_filters: Vec<CompactionFilter>,
}

/// Options that the engine can work with.
pub open spec fn options_ok(options: LsmStorageOptions) -> bool {
    &&& options.block_size <= MAX_BLOCK_SIZE
    &&& options.target_sst_size + 300000 <= usize::MAX
}

impl LsmStorageInner {
    /// The parts of the engine are in order. The tiered strategy doesn't use L0.
    pub open spec fn parts_ok(&self) -> bool {
        &&& self.state.wf()
        &&& options_ok(self.options)
        &&& self.compaction_controller is Tiered ==> self.state.l0_sstables@.len() == 0
    }

    /// The parts of the engine are in order, and no version is newer than the latest commit.
    pub open spec fn wf(&self) -> bool {
        &&& self.parts_ok()
        &&& laws::no_newer(self.contents(), self.mvcc.ts.0)
    }

    /// Of every user key, what lies further up is not older than what lies below.
    pub open spec fn aged(&self) -> bool {
        laws::layers_aged(self.state.layers())
    }

    /// All versions that the engine holds.
    pub open spec fn contents(&self) -> Map<VKey, Seq<u8>> {
        self.state.contents()
    }

    /// The ids of tables are below the next id, and no table is in two lists.
    pub open spec fn sst_ids_ok(&self) -> bool {
        &&& forall|id: usize| #[trigger]
            self.state.sstables@.contains_key(id) ==> id < self.next_sst_id
        &&& lists_apart(self.state)
    }

    /// The ids of mem-tables are below the next id, different, and no table has one of them.
    pub open spec fn mem_ids_ok(&self) -> bool {
        let mems = self.write_state().mems;
        &&& forall|i: int|
            0 <= i < mems.len() ==> (#[trigger] mems[i]).id < self.next_sst_id
                && !self.state.sstables@.contains_key(mems[i].id)
        &&& forall|i: int, j: int|
            #![trigger mems[i], mems[j]]
            0 <= i < j < mems.len() ==> mems[i].id != mems[j].id
    }

    /// No id stands for two things.
    pub open spec fn ids_ok(&self) -> bool {
        self.sst_ids_ok() && self.mem_ids_ok()
    }

    pub open spec fn write_state(&self) -> WriteState {
        WriteState {
            mems: seq![mem_view(self.state.memtable)] + Seq::new(
                self.state.imm_memtables@.len(),
                |i: int| mem_view(self.state.imm_memtables@[i]),
            ),
            next: self.next_sst_id as int,
        }
    }

    /// The tables and everything beside the state are the same.
    pub open spec fn same_tables(&self, other: LsmStorageInner) -> bool {
        &&& self.state.l0_sstables == other.state.l0_sstables
        &&& self.state.levels == other.state.levels
        &&& self.state.sstables == other.state.sstables
        &&& self.same_settings(other)
        &&& self.mvcc == other.mvcc
    }

    /// The options and what follows from them are the same.
    pub open spec fn same_settings(&self, other: LsmStorageInner) -> bool {
        &&& self.options == other.options
        &&& self.compaction_controller == other.compaction_controller
        &&& self.compaction_filters == other.compaction_filters
    }

    /// Hands out the next id.
    pub fn next_sst_id(&mut self) -> (r: usize)
        requires
            old(self).next_sst_id < usize::MAX,
        ensures
            r == old(self).next_sst_id,
            final(self).next_sst_id == old(self).next_sst_id + 1,
            final(self).state == old(self).state,
            final(self).same_settings(*old(self)),
            final(self).mvcc == old(self).mvcc,
    {
        let id: usize = self.next_sst_id;
        self.next_sst_id = id + 1;
        id
    }

    pub fn mvcc(&self) -> (r: &LsmMvccInner)
        ensures
            *r == self.mvcc,
    {
        &self.mvcc
    }

    pub fn add_compaction_filter(&mut self, compaction_filter: CompactionFilter)
        ensures
            final(self).compaction_filters@ == old(self).compaction_filters@.push(
                compaction_filter,
            ),
            final(self).state == old(self).state,
            final(self).next_sst_id == old(self).next_sst_id,
            final(self).options == old(self).options,
            final(self).compaction_controller == old(self).compaction_controller,
            final(self).mvcc == old(self).mvcc,
    {
        self.compaction_filters.push(compaction_filter);
    }

    /// Whether the engine can store the pair: the key is not empty, and both lengths fit.
    pub fn accepts(key: &[u8], value: &[u8]) -> (r: bool)
        ensures
            forall|ts: u64|
                r == #[trigger] block::entry_fits(
                    VEntry { key: VKey { key: key@, ts }, value: value@ },
                ),
            r == (0 < key@.len() && key@.len() + 12 <= u16::MAX && value@.len() <= u16::MAX),
    {
        key.len() > 0 && key.len() <= MAX_KEY_LEN && value.len() <= MAX_VALUE_LEN
    }

    /// Force freeze the current memtable to an immutable memtable
    pub fn force_freeze_memtable(&mut self) -> (r: Vec<Action>)
        requires
            old(self).parts_ok(),
            old(self).next_sst_id < usize::MAX,
        ensures
            old(self).froze(*final(self), r@),
            final(self).state.imm_memtables@ == seq![old(self).state.memtable] + old(
                self,
            ).state.imm_memtables@,
            final(self).state.memtable.id == old(self).next_sst_id,
            final(self).state.memtable.contents() == Map::<VKey, Seq<u8>>::empty(),
            final(self).state.memtable.approximate_size == 0,
            final(self).state.memtable.wal is Some <==> old(self).options.enable_wal,
            final(self).next_sst_id == old(self).next_sst_id + 1,
    {
        let mut actions: Vec<Action> = Vec::new();
        // Freeze memtable
        if self.state.memtable.wal.is_some() {
            actions.push(Action::SyncWal { id: self.state.memtable.id() });
        }
        // Create a new memtable

        let new_memtable_id: usize = self.next_sst_id();
        let mut memtable = if self.options.enable_wal {
            actions.push(Action::CreateWal { id: new_memtable_id });
            actions.push(Action::WriteManifest(ManifestRecord::NewMemtable(new_memtable_id)));
            MemTable::create_with_wal(new_memtable_id)
        } else {
            MemTable::create(new_memtable_id)
        };
        std::mem::swap(&mut self.state.memtable, &mut memtable);
        self.state.imm_memtables.insert(0, memtable);
        proof {
            let w = old(self).write_state();
            let (v, acts) = freeze_effects(w, self.options);
            assert(mem_view(self.state.memtable) == v.mems[0]);
            assert(self.write_state().mems =~= v.mems);
            assert(action_views(actions@) =~= acts);
            assert(self.state.imm_memtables@ =~= seq![old(self).state.memtable] + old(
                self,
            ).state.imm_memtables@);
            lemma_same_levels_ok(old(self).state, self.state);
            assert forall|i: int| 0 <= i < self.state.imm_memtables@.len() implies (
            #[trigger] self.state.imm_memtables@[i]).fits() by {
                if i > 0 {
                    assert(old(self).state.imm_memtables@[i - 1].fits());
                }
            }
            let before = old(self).state.layers();
            let after = self.state.layers();
            assert(after =~= seq![Map::<VKey, Seq<u8>>::empty()] + before);
            lemma_empty_layer(before);
            laws::lemma_aged_cons(before);
            if old(self).ids_ok() {
                assert(self.write_state().mems.skip(1) =~= w.mems);
                lemma_fresh_mem(*old(self), *self);
            }
        }
        actions
    }

    /// Puts a version into the current memtable, which is frozen once it has become too large.
    pub fn put_with_ts(&mut self, key: &[u8], value: &[u8], ts: u64) -> (r: Vec<Action>)
        requires
            old(self).parts_ok(),
            old(self).next_sst_id < usize::MAX,
            block::entry_fits(VEntry { key: VKey { key: key@, ts }, value: value@ }),
        ensures
            final(self).parts_ok(),
            (final(self).write_state(), action_views(r@)) == put_effects(
                old(self).write_state(),
                VEntry { key: VKey { key: key@, ts }, value: value@ },
                old(self).options,
            ),
            final(self).same_tables(*old(self)),
            final(self).contents() == old(self).contents().insert(
                VKey { key: key@, ts },
                value@,
            ),
            old(self).ids_ok() ==> final(self).ids_ok(),
            old(self).aged() && laws::no_newer(old(self).contents(), ts) ==> final(self).aged()
                && laws::no_newer(final(self).contents(), ts),
            final(self).state.memtable.approximate_size <= final(self).options.target_sst_size,
            only_full_added(
                old(self).state.imm_memtables@,
                final(self).state.imm_memtables@,
                old(self).options.target_sst_size,
            ),
            ({
                let grown = old(self).state.memtable.approximate_size + key@.len() + 8
                    + value@.len();
                let before = old(self).state.imm_memtables@;
                let after = final(self).state.imm_memtables@;
                grown <= usize::MAX ==> if grown > old(self).options.target_sst_size {
                    &&& after.len() == before.len() + 1
                    &&& after[0].id == old(self).state.memtable.id
                    &&& after[0].approximate_size == grown
                    &&& after[0].contents() == old(self).state.memtable.contents().insert(
                        VKey { key: key@, ts },
                        value@,
                    )
                    &&& final(self).state.memtable.id == old(self).next_sst_id
                    &&& final(self).state.memtable.contents() == Map::<VKey, Seq<u8>>::empty()
                } else {
                    &&& after == before
                    &&& final(self).state.memtable.id == old(self).state.memtable.id
                    &&& final(self).state.memtable.approximate_size == grown
                    &&& final(self).state.memtable.contents() == old(
                        self,
                    ).state.memtable.contents().insert(VKey { key: key@, ts }, value@)
                }
            }),
    {
        let ghost e = VEntry { key: VKey { key: key@, ts }, value: value@ };
        let mut actions: Vec<Action> = Vec::new();
        let logged = self.state.memtable.wal.is_some();
        let id: usize = self.state.memtable.id();
        let record = self.state.memtable.put(KeySlice::from_slice(key, ts), value);
        if logged {
            actions.push(Action::AppendWal { id, record });
        }
        let ghost w = old(self).write_state();
        let ghost middle = *self;
        proof {
            lemma_single_max_ts(e);
            assert(mem_view(self.state.memtable) == put_mem(w.mems[0], e));
            assert(self.write_state().mems =~= w.mems.update(0, put_mem(w.mems[0], e)));
            lemma_same_levels_ok(old(self).state, self.state);
            let before = old(self).state.layers();
            let after = self.state.layers();
            assert(after =~= before.update(0, before[0].insert(e.key, e.value)));
            lemma_put_into_first(before, e);
            if old(self).aged() && laws::no_newer(old(self).contents(), ts) {
                laws::lemma_aged_put(before, e);
            }
            if old(self).ids_ok() {
                lemma_same_ids(*old(self), *self);
            }
        }
        let ghost log_actions = action_views(actions@);
        if self.state.memtable.approximate_size() > self.options.target_sst_size {
            let mut frozen = self.force_freeze_memtable();
            let ghost more = action_views(frozen@);
            actions.append(&mut frozen);
            assert(action_views(actions@) =~= log_actions + more);
        }
        proof {
            let now = self.state.imm_memtables@;
            let before = old(self).state.imm_memtables@;
            lemma_none_added(before, self.options.target_sst_size);
            if now.len() > before.len() {
                assert(now.skip(1) =~= before);
            }
            let m = put_mem(w.mems[0], e);
            let acts = if m.log is Some {
                seq![VAction::AppendWal(m.id, wal::batch_bytes(seq![e]))]
            } else {
                Seq::empty()
            };
            assert(log_actions =~= acts);
        }
        actions
    }

    /// Write a batch of data into the storage, all of it at one new timestamp.
    pub fn write_batch(&mut self, batch: &[WriteBatchRecord<&[u8]>]) -> (r: Vec<Action>)
        requires
            old(self).wf(),
            old(self).next_sst_id + batch@.len() <= usize::MAX,
            old(self).mvcc.ts.0 < u64::MAX,
            block::entries_fit(batch_entries(batch@, 0)),
        ensures
            final(self).wf(),
            final(self).written(*old(self), batch_entries(batch@, (old(self).mvcc.ts.0 + 1) as u64), r@),
            laws::shows_write(
                *old(self),
                *final(self),
                batch_entries(batch@, (old(self).mvcc.ts.0 + 1) as u64),
            ),
            batch@.len() > 0 || old(self).state.memtable.approximate_size <= old(
                self,
            ).options.target_sst_size ==> final(self).state.memtable.approximate_size <= final(self).options.target_sst_size,
            only_full_added(
                old(self).state.imm_memtables@,
                final(self).state.imm_memtables@,
                old(self).options.target_sst_size,
            ),
    {
        let ts: u64 = self.mvcc().latest_commit_ts() + 1;
        let ghost es = batch_entries(batch@, ts);
        let mut actions: Vec<Action> = Vec::new();
        let mut i: usize = 0;
        proof {
            assert(es.take(0) =~= Seq::empty());
            assert(action_views(actions@) =~= Seq::empty());
            lemma_none_added(self.state.imm_memtables@, self.options.target_sst_size);
        }
        while i < batch.len()
            invariant
                i <= batch@.len(),
                es == batch_entries(batch@, ts),
                block::entries_fit(batch_entries(batch@, 0)),
                self.parts_ok(),
                ts == old(self).mvcc.ts.0 + 1,
                laws::no_newer(self.contents(), ts),
                old(self).aged() ==> self.aged(),
                self.next_sst_id + (batch@.len() - i) <= usize::MAX,
                self.same_tables(*old(self)),
                (self.write_state(), action_views(actions@)) == batch_effects(
                    old(self).write_state(),
                    es.take(i as int),
                    old(self).options,
                ),
                self.contents() == wal::put_all(old(self).contents(), es.take(i as int)),
                old(self).ids_ok() ==> self.ids_ok(),
                i > 0 || old(self).state.memtable.approximate_size <= old(
                    self,
                ).options.target_sst_size ==> self.state.memtable.approximate_size
                    <= self.options.target_sst_size,
                only_full_added(
                    old(self).state.imm_memtables@,
                    self.state.imm_memtables@,
                    self.options.target_sst_size,
                ),
            decreases batch@.len() - i,
        {
            let ghost imm_before = self.state.imm_memtables@;
            let ghost done = action_views(actions@);
            proof {
                assert(block::entry_fits(batch_entries(batch@, 0)[i as int]));
                assert(es.take(i + 1) =~= es.take(i as int).push(es[i as int]));
                assert(es.take(i + 1).drop_last() =~= es.take(i as int));
                wal::lemma_put_all_push(old(self).contents(), es.take(i as int), es[i as int]);
            }
            let mut more = match &batch[i] {
                WriteBatchRecord::Put(key, value) => self.put_with_ts(key, value, ts),
                WriteBatchRecord::Del(key) => {
                    let empty: Vec<u8> = Vec::new();
                    assert(empty@ =~= Seq::empty());
                    self.put_with_ts(key, empty.as_slice(), ts)
                },
            };
            let ghost added = action_views(more@);
            actions.append(&mut more);
            assert(action_views(actions@) =~= done + added);
            proof {
                lemma_added_twice(
                    old(self).state.imm_memtables@,
                    imm_before,
                    self.state.imm_memtables@,
                    self.options.target_sst_size,
                );
            }
            i = i + 1;
        }
        assert(es.take(i as int) =~= es);
        let ghost before = *self;
        self.mvcc.update_commit_ts(ts);
        proof {
            if old(self).ids_ok() {
                lemma_same_ids(before, *self);
            }
            laws::lemma_write_shows(*old(self), *self, es, actions@);
        }
        actions
    }

    /// The engine after entries have been written at a new timestamp.
    pub open spec fn written(&self, before: LsmStorageInner, es: Seq<VEntry>, r: Seq<Action>) -> bool {
        &&& (self.write_state(), action_views(r)) == batch_effects(
            before.write_state(),
            es,
            before.options,
        )
        &&& self.state.l0_sstables == before.state.l0_sstables
        &&& self.state.levels == before.state.levels
        &&& self.state.sstables == before.state.sstables
        &&& self.same_settings(before)
        &&& self.mvcc.ts.0 == before.mvcc.ts.0 + 1
        &&& self.mvcc.ts.1 == before.mvcc.ts.1
        &&& self.contents() == wal::put_all(before.contents(), es)
        &&& before.ids_ok() ==> self.ids_ok()
        &&& before.aged() ==> self.aged()
    }

    /// Put a key-value pair into the storage by writing into the current memtable.
    pub fn put(&mut self, key: &[u8], value: &[u8]) -> (r: Vec<Action>)
        requires
            old(self).wf(),
            old(self).next_sst_id < usize::MAX,
            old(self).mvcc.ts.0 < u64::MAX,
            block::entry_fits(VEntry { key: VKey { key: key@, ts: 0 }, value: value@ }),
        ensures
            final(self).wf(),
            final(self).written(
                *old(self),
                seq![
                    VEntry {
                        key: VKey { key: key@, ts: (old(self).mvcc.ts.0 + 1) as u64 },
                        value: value@,
                    },
                ],
                r@,
            ),
            final(self).state.memtable.approximate_size <= final(self).options.target_sst_size,
            only_full_added(
                old(self).state.imm_memtables@,
                final(self).state.imm_memtables@,
                old(self).options.target_sst_size,
            ),
    {
        let batch: [WriteBatchRecord<&[u8]>; 1] = [WriteBatchRecord::Put(key, value)];
        let ghost ts = (self.mvcc.ts.0 + 1) as u64;
        assert(batch_entries(batch@, ts) =~= seq![
            VEntry { key: VKey { key: key@, ts }, value: value@ },
        ]);
        self.write_batch(batch.as_slice())
    }

    /// Remove a key from the storage by writing an empty value.
    pub fn delete(&mut self, key: &[u8]) -> (r: Vec<Action>)
        requires
            old(self).wf(),
            old(self).next_sst_id < usize::MAX,
            old(self).mvcc.ts.0 < u64::MAX,
            0 < key@.len() <= MAX_KEY_LEN,
        ensures
            final(self).wf(),
            final(self).written(
                *old(self),
                seq![
                    VEntry {
                        key: VKey { key: key@, ts: (old(self).mvcc.ts.0 + 1) as u64 },
                        value: Seq::empty(),
                    },
                ],
                r@,
            ),
            final(self).state.memtable.approximate_size <= final(self).options.target_sst_size,
            only_full_added(
                old(self).state.imm_memtables@,
                final(self).state.imm_memtables@,
                old(self).options.target_sst_size,
            ),
    {
        let batch: [WriteBatchRecord<&[u8]>; 1] = [WriteBatchRecord::Del(key)];
        let ghost ts = (self.mvcc.ts.0 + 1) as u64;
        assert(batch_entries(batch@, ts) =~= seq![
            VEntry { key: VKey { key: key@, ts }, value: Seq::empty() },
        ]);
        self.write_batch(batch.as_slice())
    }
}

/// The lists of tables after a new table has been put in front. The tiered strategy doesn't use L0:
/// there the table becomes the first tier.
pub open spec fn flushed_lists(
    before: LsmStorageState,
    after: LsmStorageState,
    id: usize,
    to_l0: bool,
) -> bool {
    if to_l0 {
        after.l0_sstables@ == seq![id] + before.l0_sstables@ && after.levels == before.levels
    } else {
        &&& after.l0_sstables == before.l0_sstables
        &&& after.levels@.len() == before.levels@.len() + 1
        &&& after.levels@[0].0 == 1 && after.levels@[0].1@ == seq![id]
        &&& forall|i: int|
            0 < i < after.levels@.len() ==> (#[trigger] after.levels@[i]).0 == i + 1
                && after.levels@[i].1@ == before.levels@[i - 1].1@
    }
}

impl LsmStorageInner {
    /// The engine after its earliest immutable mem-table has become a table.
    pub open spec fn flushed(&self, before: LsmStorageInner, r: Seq<Action>) -> bool {
        let mem = before.state.imm_memtables@.last();
        let sst = self.state.sstables@[mem.id];
        &&& sst.id == mem.id
        &&& sst.wf()
        &&& sst.entries() == merging::sorted_entries(mem.contents())
        &&& merging::to_map(sst.entries()) == mem.contents()
        &&& table::builder::is_built(*sst)
        &&& self.state.sstables@ == before.state.sstables@.insert(mem.id, sst)
        &&& self.state.memtable == before.state.memtable
        &&& self.state.imm_memtables@ == before.state.imm_memtables@.drop_last()
        &&& flushed_lists(
            before.state,
            self.state,
            mem.id,
            !(before.compaction_controller is Tiered),
        )
        &&& action_views(r) == seq![
            VAction::WriteSst(sst),
            VAction::SyncDir,
            VAction::WriteManifest(ManifestRecord::Flush(mem.id)),
        ]
        &&& self.next_sst_id == before.next_sst_id
        &&& self.same_settings(before)
        &&& self.mvcc == before.mvcc
    }

    /// The id of the earliest immutable mem-table.
    pub fn get_earliest_imm_memtable(&self) -> (r: Option<usize>)
        ensures
            self.state.imm_memtables@.len() == 0 ==> r is None,
            self.state.imm_memtables@.len() > 0 ==> r == Some(
                self.state.imm_memtables@.last().id,
            ),
    {
        let n: usize = self.state.imm_memtables.len();
        if n == 0 {
            None
        } else {
            Some(self.state.imm_memtables[n - 1].id())
        }
    }

    /// A table with the entries of a mem-table and its id.
    fn build_sst(memtable: &MemTable, block_size: usize) -> (r: SsTable)
        requires
            memtable.fits(),
            block_size <= MAX_BLOCK_SIZE,
        ensures
            r.id == memtable.id,
            r.wf(),
            r.entries() == merging::sorted_entries(memtable.contents()),
            merging::to_map(r.entries()) == memtable.contents(),
            table::builder::is_built(r),
            r.entries().len() > 0 ==> r.meta_section_offset == table::builder::size_of(
                r.entries(),
                block_size as int,
            ) + 6,
    {
        let mut table_builder = SsTableBuilder::new(block_size);
        memtable.flush(&mut table_builder);
        assert(table_builder.entries() =~= merging::sorted_entries(memtable.contents()));
        table_builder.build(memtable.id())
    }

    /// Puts a table in front of L0, or of the tiers.
    pub(crate) fn push_front(engine: &mut LsmStorageState, sst_id: usize, to_l0: bool)
        requires
            to_l0 || old(engine).levels@.len() < usize::MAX,
        ensures
            flushed_lists(*old(engine), *final(engine), sst_id, to_l0),
            final(engine).memtable == old(engine).memtable,
            final(engine).imm_memtables == old(engine).imm_memtables,
            final(engine).sstables == old(engine).sstables,
    {
        if to_l0 {
            engine.l0_sstables.insert(0, sst_id);
            assert(engine.l0_sstables@ =~= seq![sst_id] + old(engine).l0_sstables@);
        } else {
            // Tiered strategy doesn't use l0.
            let mut tier: Vec<usize> = Vec::new();
            tier.push(sst_id);
            assert(tier@ =~= seq![sst_id]);
            let mut levels: Vec<(usize, Vec<usize>)> = Vec::new();
            std::mem::swap(&mut levels, &mut engine.levels);
            levels.insert(0, (sst_id, tier));
            engine.levels = TieredCompactionController::rebuild_levels(levels);
        }
    }

    /// Turns the earliest immutable mem-table into a table.
    pub fn flush_earliest_memtable(&mut self) -> (r: Vec<Action>)
        requires
            old(self).wf(),
            old(self).state.imm_memtables@.len() > 0,
            old(self).state.levels@.len() < usize::MAX,
        ensures
            final(self).flushed(*old(self), r@),
            !old(self).state.sstables@.contains_key(old(self).state.imm_memtables@.last().id)
                ==> final(self).wf(),
            old(self).ids_ok() ==> final(self).wf() && final(self).ids_ok(),
            old(self).ids_ok() ==> final(self).contents() == old(self).contents() && (old(
                self,
            ).aged() ==> final(self).aged()),
    {
        let memtable = self.state.imm_memtables.pop().unwrap();
        let sst_id: usize = memtable.id();
        proof {
            assert(old(self).state.imm_memtables@.last().fits());
        }
        let sstable = Arc::new(Self::build_sst(&memtable, self.options.block_size));

        let mut actions: Vec<Action> = Vec::new();
        actions.push(Action::WriteSst(share(&sstable)));
        // Sync folder after sst is created.
        actions.push(Action::SyncDir);
        // Write manifest.
        actions.push(Action::WriteManifest(ManifestRecord::Flush(sst_id)));

        // Insert new sstable and remove memtable
        let to_l0 = self.compaction_controller.flush_to_l0();
        Self::push_front(&mut self.state, sst_id, to_l0);
        self.state.sstables.insert(sst_id, sstable);
        assert(self.state.imm_memtables@ =~= old(self).state.imm_memtables@.drop_last());
        assert(action_views(actions@) =~= seq![
            VAction::WriteSst(sstable),
            VAction::SyncDir,
            VAction::WriteManifest(ManifestRecord::Flush(sst_id)),
        ]);
        proof {
            lemma_flush_keeps(*old(self), *self, actions@);
        }
        actions
    }

    /// Force flush the earliest-created immutable memtable to disk
    pub fn force_flush_next_imm_memtable(&mut self) -> (r: Vec<Action>)
        requires
            old(self).wf(),
            old(self).state.levels@.len() < usize::MAX,
        ensures
            old(self).state.imm_memtables@.len() == 0 ==> *final(self) == *old(self) && r@.len()
                == 0,
            old(self).state.imm_memtables@.len() > 0 ==> final(self).flushed(*old(self), r@),
            !old(self).state.sstables@.contains_key(old(self).state.imm_memtables@.last().id)
                ==> final(self).wf(),
            old(self).ids_ok() ==> final(self).wf() && final(self).ids_ok(),
            old(self).ids_ok() ==> final(self).contents() == old(self).contents() && (old(
                self,
            ).aged() ==> final(self).aged()),
    {
        if self.get_earliest_imm_memtable().is_none() {
            return Vec::new();
        }
        self.flush_earliest_memtable()
    }

    /// Flushes a mem-table where there are too many.
    pub fn trigger_flush(&mut self) -> (r: Vec<Action>)
        requires
            old(self).wf(),
            old(self).state.imm_memtables@.len() < usize::MAX,
            old(self).state.levels@.len() < usize::MAX,
        ensures
            flush_triggered(*old(self), *final(self), r@),
            ({
                let n = old(self).state.imm_memtables@.len();
                if n > 0 && old(self).options.num_memtable_limit < n + 1 {
                    final(self).flushed(*old(self), r@)
                } else {
                    *final(self) == *old(self) && r@.len() == 0
                }
            }),
            !old(self).state.sstables@.contains_key(old(self).state.imm_memtables@.last().id)
                ==> final(self).wf(),
            old(self).ids_ok() ==> final(self).wf() && final(self).ids_ok(),
    {
        let mutable_memtable_num: usize = 1;
        if self.options.num_memtable_limit < self.state.imm_memtables.len() + mutable_memtable_num {
            self.force_flush_next_imm_memtable()
        } else {
            Vec::new()
        }
    }

    /// Freezes the current memtable where it has entries, and flushes the earliest immutable one.
    pub fn force_flush(&mut self) -> (r: Vec<Action>)
        requires
            old(self).wf(),
            old(self).next_sst_id < usize::MAX,
            old(self).state.levels@.len() < usize::MAX,
        ensures
            force_flushed(*old(self), *final(self), r@),
            old(self).state.memtable.contents() == Map::<VKey, Seq<u8>>::empty() ==> {
                &&& old(self).state.imm_memtables@.len() == 0 ==> *final(self) == *old(self)
                    && r@.len() == 0
                &&& old(self).state.imm_memtables@.len() > 0 ==> final(self).flushed(
                    *old(self),
                    r@,
                )
            },
            old(self).state.memtable.contents() != Map::<VKey, Seq<u8>>::empty() ==> exists|
                frozen: LsmStorageInner,
                a: Seq<Action>,
                b: Seq<Action>,
            | #[trigger]
                old(self).froze(frozen, a) && #[trigger] final(self).flushed(frozen, b) && r@ == a
                    + b,
            !old(self).state.sstables@.contains_key(
                if old(self).state.imm_memtables@.len() > 0 {
                    old(self).state.imm_memtables@.last().id
                } else {
                    old(self).state.memtable.id
                },
            ) ==> final(self).wf(),
            old(self).ids_ok() ==> final(self).wf() && final(self).ids_ok(),
    {
        let mut actions: Vec<Action> = Vec::new();
        if !self.state.memtable.is_empty() {
            actions = self.force_freeze_memtable();
            let ghost frozen = *self;
            let ghost a = actions@;
            assert(old(self).froze(frozen, a));
            assert(self.write_state().mems.len() >= 2);
            proof {
                let w = old(self).write_state();
                let last = self.state.imm_memtables@.len() - 1;
                assert(self.write_state().mems.len() == w.mems.len() + 1);
                assert(self.write_state().mems[last + 1] == w.mems[last]);
                assert(mem_view(self.state.imm_memtables@[last]) == w.mems[last]);
            }
            let mut more = self.force_flush_next_imm_memtable();
            let ghost b = more@;
            assert(self.flushed(frozen, b));
            actions.append(&mut more);
            assert(actions@ =~= a + b);
            assert(two_steps(actions@, a, b));
            return actions;
        }
        let mut more = self.force_flush_next_imm_memtable();
        actions.append(&mut more);
        actions
    }

    /// The engine after its current mem-table has been frozen.
    pub open spec fn froze(&self, after: LsmStorageInner, r: Seq<Action>) -> bool {
        &&& after.parts_ok()
        &&& (after.write_state(), action_views(r)) == freeze_effects(
            self.write_state(),
            self.options,
        )
        &&& after.same_tables(*self)
        &&& after.contents() == self.contents()
        &&& self.ids_ok() ==> after.ids_ok()
        &&& self.aged() ==> after.aged()
    }
}

/// The engine after its current mem-table has been frozen where it has entries, and the earliest
/// immutable one has been flushed.
pub open spec fn force_flushed(
    before: LsmStorageInner,
    after: LsmStorageInner,
    r: Seq<Action>,
) -> bool {
    if before.state.memtable.contents() == Map::<VKey, Seq<u8>>::empty() {
        if before.state.imm_memtables@.len() == 0 {
            after == before && r.len() == 0
        } else {
            after.flushed(before, r)
        }
    } else {
        exists|frozen: LsmStorageInner, a: Seq<Action>, b: Seq<Action>| #[trigger]
            two_steps(r, a, b) && #[trigger] before.froze(frozen, a) && after.flushed(frozen, b)
    }
}

/// The engine after a mem-table has been flushed where there are too many.
pub open spec fn flush_triggered(
    before: LsmStorageInner,
    after: LsmStorageInner,
    r: Seq<Action>,
) -> bool {
    let n = before.state.imm_memtables@.len();
    if n > 0 && before.options.num_memtable_limit < n + 1 {
        after.flushed(before, r)
    } else {
        after == before && r.len() == 0
    }
}

/// The actions are those of two steps, one after the other.
pub open spec fn two_steps(r: Seq<Action>, a: Seq<Action>, b: Seq<Action>) -> bool {
    r == a + b
}

/// The engine after that many mem-tables have become tables, the earliest one first.
pub open spec fn flushed_times(
    before: LsmStorageInner,
    after: LsmStorageInner,
    r: Seq<Action>,
    n: nat,
) -> bool
    decreases n,
{
    if n == 0 {
        after == before && r.len() == 0
    } else {
        exists|mid: LsmStorageInner, a: Seq<Action>, b: Seq<Action>| #[trigger]
            two_steps(r, a, b) && #[trigger] after.flushed(mid, b)
                && mid.state.imm_memtables@.len() > 0 && flushed_times(
                before,
                mid,
                a,
                (n - 1) as nat,
            )
    }
}

/// The engine has been closed. With a WAL there is nothing to do; without one the current mem-table
/// is frozen, and all immutable ones become tables.
pub open spec fn closed(before: LsmStorageInner, after: LsmStorageInner, r: Seq<Action>) -> bool {
    if before.options.enable_wal {
        after == before && r.len() == 0
    } else {
        exists|frozen: LsmStorageInner, a: Seq<Action>, b: Seq<Action>| #[trigger]
            two_steps(r, a, b) && #[trigger] before.froze(frozen, a) && flushed_times(
                frozen,
                after,
                b,
                frozen.state.imm_memtables@.len(),
            )
    }
}

impl LsmStorageInner {
    /// Turns all immutable mem-tables into tables.
    fn flush_all(&mut self) -> (r: Vec<Action>)
        requires
            old(self).wf(),
            old(self).ids_ok(),
            old(self).state.levels@.len() + old(self).state.imm_memtables@.len() <= usize::MAX,
        ensures
            final(self).wf(),
            final(self).ids_ok(),
            flushed_times(*old(self), *final(self), r@, old(self).state.imm_memtables@.len()),
            final(self).state.imm_memtables@.len() == 0,
            final(self).state.memtable == old(self).state.memtable,
            final(self).contents() == old(self).contents(),
            old(self).aged() ==> final(self).aged(),
    {
        let mut actions: Vec<Action> = Vec::new();
        let ghost all = self.state.imm_memtables@.len();
        let ghost mut done: nat = 0;
        while self.state.imm_memtables.len() > 0
            invariant
                self.wf(),
                self.ids_ok(),
                all == old(self).state.imm_memtables@.len(),
                done + self.state.imm_memtables@.len() == all,
                self.state.levels@.len() + self.state.imm_memtables@.len() <= usize::MAX,
                flushed_times(*old(self), *self, actions@, done),
                self.state.memtable == old(self).state.memtable,
                self.contents() == old(self).contents(),
                old(self).aged() ==> self.aged(),
            decreases self.state.imm_memtables@.len(),
        {
            let ghost mid = *self;
            let ghost a = actions@;
            let mut more = self.flush_earliest_memtable();
            let ghost b = more@;
            actions.append(&mut more);
            proof {
                assert(actions@ =~= a + b);
                assert(two_steps(actions@, a, b));
                assert(self.flushed(mid, b));
                done = done + 1;
            }
        }
        actions
    }

    /// Closes the storage engine: without a WAL, what is in memory becomes tables.
    pub fn close(&mut self) -> (r: Vec<Action>)
        requires
            old(self).wf(),
            old(self).ids_ok(),
            old(self).next_sst_id < usize::MAX,
            old(self).state.levels@.len() + old(self).state.imm_memtables@.len() < usize::MAX,
        ensures
            closed(*old(self), *final(self), r@),
            final(self).wf(),
            final(self).ids_ok(),
            final(self).contents() == old(self).contents(),
            old(self).aged() ==> final(self).aged(),
            old(self).options.enable_wal ==> *final(self) == *old(self) && r@.len() == 0,
            !old(self).options.enable_wal ==> final(self).state.imm_memtables@.len() == 0
                && final(self).state.memtable.contents() == Map::<VKey, Seq<u8>>::empty(),
    {
        if self.options.enable_wal {
            return Vec::new();
        }
        let mut actions = self.force_freeze_memtable();
        let ghost frozen = *self;
        let ghost a = actions@;
        proof {
            let w = old(self).write_state();
            assert(self.write_state().mems.len() == w.mems.len() + 1);
            assert(self.write_state().mems[0] == mem_view(self.state.memtable));
        }
        let mut more = self.flush_all();
        let ghost b = more@;
        actions.append(&mut more);
        proof {
            assert(actions@ =~= a + b);
            assert(two_steps(actions@, a, b));
            assert(old(self).froze(frozen, a));
        }
        actions
    }
}

/// What turning a mem-table into a table keeps.
proof fn lemma_flush_keeps(before: LsmStorageInner, after: LsmStorageInner, r: Seq<Action>)
    requires
        before.wf(),
        before.state.imm_memtables@.len() > 0,
        after.flushed(before, r),
    ensures
        !before.state.sstables@.contains_key(before.state.imm_memtables@.last().id) ==> after.wf(),
        before.ids_ok() ==> after.wf() && after.ids_ok(),
        before.ids_ok() ==> after.contents() == before.contents() && (before.aged()
            ==> after.aged()),
{
    let n = before.state.imm_memtables@.len() as int;
    if before.ids_ok() {
        assert(before.write_state().mems[n].id == before.state.imm_memtables@.last().id);
        laws::lemma_flush_keeps_ids(before, after, r);
        laws::lemma_flush_keeps_contents(before, after, r);
    }
    if !before.state.sstables@.contains_key(before.state.imm_memtables@.last().id) {
        laws::lemma_flush_wf(before, after, r);
    }
}

/// A layer that says nothing adds nothing.
pub proof fn lemma_empty_layer(layers: Seq<Map<VKey, Seq<u8>>>)
    ensures
        merging::union_layers(seq![Map::<VKey, Seq<u8>>::empty()] + layers)
            == merging::union_layers(layers),
{
    let all = seq![Map::<VKey, Seq<u8>>::empty()] + layers;
    assert(all.drop_first() =~= layers);
    assert(merging::union_layers(all) =~= merging::union_layers(layers));
}

/// What is put into the first layer counts.
pub proof fn lemma_put_into_first(layers: Seq<Map<VKey, Seq<u8>>>, e: VEntry)
    requires
        layers.len() > 0,
    ensures
        merging::union_layers(layers.update(0, layers[0].insert(e.key, e.value)))
            == merging::union_layers(layers).insert(e.key, e.value),
{
    let all = layers.update(0, layers[0].insert(e.key, e.value));
    assert(all.drop_first() =~= layers.drop_first());
    assert(merging::union_layers(all) =~= merging::union_layers(layers).insert(e.key, e.value));
}

proof fn lemma_single_max_ts(e: VEntry)
    ensures
        table::max_ts_of(seq![e]) == e.key.ts,
{
    assert(seq![e].drop_last() =~= Seq::empty());
    assert(table::max_ts_of(seq![e].drop_last()) == 0);
}

/// Whether a level is in order depends on the levels and the tables only.
pub proof fn lemma_same_levels_ok(a: LsmStorageState, b: LsmStorageState)
    requires
        a.levels == b.levels,
        a.sstables == b.sstables,
        forall|i: int| 0 <= i < a.levels@.len() ==> #[trigger] a.level_ok(i),
    ensures
        forall|i: int| 0 <= i < b.levels@.len() ==> #[trigger] b.level_ok(i),
{
    assert forall|i: int| 0 <= i < b.levels@.len() implies #[trigger] b.level_ok(i) by {
        assert(a.level_ok(i));
    }
}

/// The ids stay in order where mem-tables keep theirs and tables stay.
proof fn lemma_same_ids(a: LsmStorageInner, b: LsmStorageInner)
    requires
        a.ids_ok(),
        a.state.l0_sstables == b.state.l0_sstables,
        a.state.levels == b.state.levels,
        a.state.sstables == b.state.sstables,
        a.next_sst_id == b.next_sst_id,
        a.write_state().mems.len() == b.write_state().mems.len(),
        forall|i: int|
            0 <= i < a.write_state().mems.len() ==> (#[trigger] a.write_state().mems[i]).id
                == b.write_state().mems[i].id,
    ensures
        b.ids_ok(),
{
    let x = a.write_state().mems;
    let y = b.write_state().mems;
    assert forall|i: int| 0 <= i < y.len() implies (#[trigger] y[i]).id < b.next_sst_id
        && !b.state.sstables@.contains_key(y[i].id) by {
        assert(x[i].id == y[i].id);
    }
    assert forall|i: int, j: int| #![trigger y[i], y[j]] 0 <= i < j < y.len() implies y[i].id
        != y[j].id by {
        assert(x[i].id == y[i].id);
        assert(x[j].id == y[j].id);
    }
}

/// The ids stay in order where a mem-table with the next id is added.
proof fn lemma_fresh_mem(a: LsmStorageInner, b: LsmStorageInner)
    requires
        a.ids_ok(),
        a.state.l0_sstables == b.state.l0_sstables,
        a.state.levels == b.state.levels,
        a.state.sstables == b.state.sstables,
        b.next_sst_id == a.next_sst_id + 1,
        b.write_state().mems.len() == a.write_state().mems.len() + 1,
        b.write_state().mems[0].id == a.next_sst_id,
        b.write_state().mems.skip(1) == a.write_state().mems,
    ensures
        b.ids_ok(),
{
    let x = a.write_state().mems;
    let y = b.write_state().mems;
    assert forall|i: int| 0 <= i < y.len() implies (#[trigger] y[i]).id < b.next_sst_id
        && !b.state.sstables@.contains_key(y[i].id) by {
        if i > 0 {
            assert(x[i - 1] == y.skip(1)[i - 1]);
        }
    }
    assert forall|i: int, j: int| #![trigger y[i], y[j]] 0 <= i < j < y.len() implies y[i].id
        != y[j].id by {
        assert(x[j - 1] == y.skip(1)[j - 1]);
        if i > 0 {
            assert(x[i - 1] == y.skip(1)[i - 1]);
        }
    }
}

} // verus!
