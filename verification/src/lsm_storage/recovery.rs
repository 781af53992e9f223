//! Opening the storage engine, with or without something to recover.
use std::collections::HashMap;
use std::sync::Arc;

use vstd::prelude::*;

use crate::codec::copy_slice;
use crate::compact::executor;
use crate::compact::leveled;
use crate::compact::leveled::sort_by_first_key;
use crate::compact::{
    all_are_loaded, CompactionController, CompactionOptions, CompactionTask,
    LeveledCompactionController, SimpleLeveledCompactionController, TieredCompactionController,
};
use crate::error::LsmError;
use crate::iterators::{concat_iterator, merging};
use crate::key::{VEntry, VKey};
use crate::lsm_storage::{engine, laws, state};
use crate::lsm_storage::{LsmStorageInner, LsmStorageOptions, LsmStorageState};
use crate::manifest::ManifestRecord;
use crate::mem_table::MemTable;
use crate::mvcc::LsmMvccInner;
use crate::table::{FileObject, SsTable};
use crate::wal::Wal;
use crate::{block, codec, table, wal};

verus! {

broadcast use vstd::std_specs::hash::group_hash_axioms;

/// The files that a recovery may need, by their ids.
pub struct StoredFiles {
    pub ssts: HashMap<usize, Vec<u8>>,
    pub wals: HashMap<usize, Vec<u8>>,
}

/// What a recovery begins with: the manifest and the files.
pub struct Recovery<'a> {
    pub records: &'a [ManifestRecord],
    pub files: &'a StoredFiles,
}

/// `t` is the table that a file holds.
pub open spec fn holds(bytes: Seq<u8>, id: usize, t: SsTable) -> bool {
    t.file.wf() && t.file.bytes() == bytes && t.opened_from(id, t.file)
}

/// The result of loading a table.
pub open spec fn sst_loaded(
    files: StoredFiles,
    id: usize,
    r: Result<Arc<SsTable>, LsmError>,
) -> bool {
    if !files.ssts@.contains_key(id) {
        r == Err::<Arc<SsTable>, LsmError>(LsmError::SstableNotFound(id))
    } else {
        let bytes = files.ssts@[id]@;
        match table::open_error(bytes) {
            Some(e) => r == Err::<Arc<SsTable>, LsmError>(e),
            None => match r {
                Ok(t) => t.wf() && holds(bytes, id, *t),
                Err(e) => e == LsmError::Malformed && exists|t: SsTable| #[trigger]
                    holds(bytes, id, t) && !t.wf(),
            },
        }
    }
}

/// The result of bringing a mem-table back from its WAL.
pub open spec fn mem_recovered(
    files: StoredFiles,
    id: usize,
    r: Result<MemTable, LsmError>,
) -> bool {
    if !files.wals@.contains_key(id) {
        r == Err::<MemTable, LsmError>(LsmError::WalNotFound(id))
    } else {
        match wal::replay(files.wals@[id]@, 0) {
            Err(e) => r == Err::<MemTable, LsmError>(e),
            Ok(es) => {
                let m = wal::put_all(Map::empty(), es);
                if contents_fit(m) {
                    r matches Ok(t) && t.id == id && t.contents() == m && t.approximate_size == 0
                        && (t.wal matches Some(w) && w.max_ts == table::max_ts_of(es))
                } else {
                    r == Err::<MemTable, LsmError>(LsmError::Malformed)
                }
            },
        }
    }
}

/// Blocks can hold all entries.
pub open spec fn contents_fit(m: Map<VKey, Seq<u8>>) -> bool {
    forall|k: VKey| #[trigger]
        m.contains_key(k) ==> block::entry_fits(VEntry { key: k, value: m[k] })
}

/// The mem-tables and the lists are the same.
pub open spec fn same_lists(a: LsmStorageState, b: LsmStorageState) -> bool {
    &&& a.memtable == b.memtable
    &&& a.imm_memtables == b.imm_memtables
    &&& a.l0_sstables == b.l0_sstables
    &&& a.levels == b.levels
}

/// The mem-tables with another id.
pub open spec fn without_mem(mems: Seq<MemTable>, id: usize) -> Seq<MemTable>
    decreases mems.len(),
{
    if mems.len() == 0 {
        Seq::empty()
    } else if mems.last().id == id {
        without_mem(mems.drop_last(), id)
    } else {
        without_mem(mems.drop_last(), id).push(mems.last())
    }
}

/// A mem-table has been flushed: its table is loaded and comes first in L0, or in the tiers, and the
/// mem-table goes.
pub open spec fn flush_replayed(
    c: CompactionController,
    files: StoredFiles,
    id: usize,
    a: LsmStorageState,
    b: LsmStorageState,
) -> bool {
    exists|t: Arc<SsTable>| #[trigger]
        sst_loaded(files, id, Ok(t)) && b.sstables@ == a.sstables@.insert(id, t)
            && engine::flushed_lists(a, b, id, !(c is Tiered)) && b.memtable == a.memtable
            && b.imm_memtables@ == without_mem(a.imm_memtables@, id)
}

/// A mem-table has been created: unless it has been flushed already, it is brought back from its
/// WAL and comes first among the immutable ones.
pub open spec fn memtable_replayed(
    files: StoredFiles,
    id: usize,
    a: LsmStorageState,
    b: LsmStorageState,
) -> bool {
    if a.sstables@.contains_key(id) {
        b == a
    } else {
        exists|m: MemTable| #[trigger]
            mem_recovered(files, id, Ok(m)) && b.imm_memtables@ == seq![m] + a.imm_memtables@
                && b.memtable == a.memtable && b.l0_sstables == a.l0_sstables && b.levels
                == a.levels && b.sstables == a.sstables
    }
}

/// The tables with the given ids are `v`.
pub open spec fn ssts_loaded(files: StoredFiles, ids: Seq<usize>, v: Seq<Arc<SsTable>>) -> bool {
    v.len() == ids.len() && forall|i: int|
        0 <= i < ids.len() ==> sst_loaded(files, ids[i], Ok(#[trigger] v[i]))
}

/// New tables are loaded, the task is applied to `mid`, which gives `done`, and the tables used up
/// go away.
pub open spec fn compaction_parts(
    c: CompactionController,
    a: LsmStorageState,
    task: CompactionTask,
    ids: Seq<usize>,
    b: LsmStorageState,
    v: Seq<Arc<SsTable>>,
    mid: LsmStorageState,
    done: LsmStorageState,
    consumed: Seq<usize>,
) -> bool {
    &&& mid.sstables@ == executor::insert_all(a.sstables@, v)
    &&& same_lists(mid, a)
    &&& c.can_apply(mid, task, ids)
    &&& c.applied(mid, done, task, ids, consumed)
    &&& b.sstables@ == executor::remove_all(done.sstables@, consumed)
    &&& same_lists(b, done)
}

/// A compaction has been run.
pub open spec fn compaction_replayed(
    c: CompactionController,
    files: StoredFiles,
    task: CompactionTask,
    ids: Seq<usize>,
    a: LsmStorageState,
    b: LsmStorageState,
) -> bool {
    exists|
        v: Seq<Arc<SsTable>>,
        mid: LsmStorageState,
        done: LsmStorageState,
        consumed: Seq<usize>,
    |
        ssts_loaded(files, ids, v) && #[trigger] compaction_parts(
            c,
            a,
            task,
            ids,
            b,
            v,
            mid,
            done,
            consumed,
        )
}

/// What keeps a compaction from being replayed: a table that cannot be loaded, or a task that does
/// not suit the state.
pub open spec fn compaction_fails(
    c: CompactionController,
    files: StoredFiles,
    task: CompactionTask,
    ids: Seq<usize>,
    a: LsmStorageState,
    e: LsmError,
) -> bool {
    ||| exists|i: int, v: Seq<Arc<SsTable>>|
        0 <= i < ids.len() && #[trigger] ssts_loaded(files, ids.take(i), v) && sst_loaded(
            files,
            ids[i],
            Err(e),
        )
    ||| e == LsmError::Malformed && exists|v: Seq<Arc<SsTable>>, mid: LsmStorageState| #[trigger]
        ssts_loaded(files, ids, v) && mid.sstables@ == executor::insert_all(a.sstables@, v)
            && #[trigger] same_lists(mid, a) && !c.can_apply(mid, task, ids)
}

/// One record of the manifest has been replayed.
pub open spec fn record_replayed(
    c: CompactionController,
    files: StoredFiles,
    record: ManifestRecord,
    a: LsmStorageState,
    b: LsmStorageState,
) -> bool {
    match record {
        ManifestRecord::Flush(id) => flush_replayed(c, files, id, a, b),
        ManifestRecord::NewMemtable(id) => memtable_replayed(files, id, a, b),
        ManifestRecord::Compaction(task, ids) => compaction_replayed(c, files, task, ids@, a, b),
    }
}

/// What keeps one record of the manifest from being replayed.
pub open spec fn record_fails(
    c: CompactionController,
    files: StoredFiles,
    record: ManifestRecord,
    a: LsmStorageState,
    e: LsmError,
) -> bool {
    match record {
        ManifestRecord::Flush(id) => sst_loaded(files, id, Err(e)),
        ManifestRecord::NewMemtable(id) => !a.sstables@.contains_key(id) && mem_recovered(
            files,
            id,
            Err(e),
        ),
        ManifestRecord::Compaction(task, ids) => compaction_fails(c, files, task, ids@, a, e),
    }
}

/// The records of the manifest, replayed one after another.
pub open spec fn replayed(
    c: CompactionController,
    options: LsmStorageOptions,
    files: StoredFiles,
    records: Seq<ManifestRecord>,
    s: LsmStorageState,
) -> bool
    decreases records.len(),
{
    if records.len() == 0 {
        s.is_initial(options.compaction_options)
    } else {
        exists|p: LsmStorageState| #[trigger]
            record_replayed(c, files, records.last(), p, s) && replayed(
                c,
                options,
                files,
                records.drop_last(),
                p,
            )
    }
}

/// The levels put in the order of their tables' first keys.
pub open spec fn levels_ordered(a: LsmStorageState, b: LsmStorageState) -> bool {
    &&& b.memtable == a.memtable
    &&& b.imm_memtables == a.imm_memtables
    &&& b.l0_sstables == a.l0_sstables
    &&& b.sstables == a.sstables
    &&& b.levels@.len() == a.levels@.len()
    &&& forall|i: int|
        0 <= i < a.levels@.len() ==> (#[trigger] b.levels@[i]).0 == a.levels@[i].0
            && b.levels@[i].1@ == leveled::by_first_key(a.sstables@, a.levels@[i].1@)
}

/// The result of loading the manifest.
pub open spec fn manifest_loaded(
    c: CompactionController,
    options: LsmStorageOptions,
    files: StoredFiles,
    records: Seq<ManifestRecord>,
    r: Result<LsmStorageState, LsmError>,
) -> bool {
    match r {
        Ok(s) => s.wf() && exists|p: LsmStorageState| #[trigger]
            replayed(c, options, files, records, p) && levels_ordered(p, s),
        Err(e) => {
            ||| exists|i: int, p: LsmStorageState|
                0 <= i < records.len() && #[trigger] replayed(
                    c,
                    options,
                    files,
                    records.take(i),
                    p,
                ) && record_fails(c, files, records[i], p, e)
            ||| e == LsmError::Malformed && exists|p: LsmStorageState| #[trigger]
                replayed(c, options, files, records, p) && (exists|i: int|
                    0 <= i < p.levels@.len() && !leveled::all_loaded(
                        p.sstables@,
                        (#[trigger] p.levels@[i]).1@,
                    ))
            ||| e == LsmError::Malformed && exists|p: LsmStorageState, s: LsmStorageState| #[trigger]
                replayed(c, options, files, records, p) && #[trigger] levels_ordered(p, s)
                    && !s.wf()
        },
    }
}

/// Everything but the lists is in order. `n` records have made no more than `n` tiers.
spec fn parts_ok(
    c: CompactionController,
    files: StoredFiles,
    records: Seq<ManifestRecord>,
    s: LsmStorageState,
    n: int,
) -> bool {
    &&& state::tables_ok(s.sstables@)
    &&& c is Tiered ==> s.l0_sstables@.len() == 0 && s.levels@.len() <= n
    &&& s.memtable.contents() == Map::<VKey, Seq<u8>>::empty()
    &&& forall|i: int|
        0 <= i < s.imm_memtables@.len() ==> (#[trigger] s.imm_memtables@[i]).fits() && logged(
            files,
            records,
            s.imm_memtables@[i],
        )
}

/// The mem-table comes from the WAL that a record names.
pub open spec fn logged(
    files: StoredFiles,
    records: Seq<ManifestRecord>,
    m: MemTable,
) -> bool {
    &&& records.contains(ManifestRecord::NewMemtable(m.id))
    &&& files.wals@.contains_key(m.id)
    &&& wal::replay(files.wals@[m.id]@, 0) matches Ok(es) && m.contents() == wal::put_all(
        Map::empty(),
        es,
    )
}

impl LsmStorageInner {
    /// Loads a table from its file.
    pub fn load_sst(id: usize, files: &StoredFiles) -> (r: Result<Arc<SsTable>, LsmError>)
        ensures
            sst_loaded(*files, id, r),
            r matches Ok(t) ==> t.wf() && t.id == id,
    {
        match files.ssts.get(&id) {
            Some(bytes) => {
                let file = FileObject::create(copy_slice(bytes.as_slice()));
                match SsTable::open(id, file) {
                    Ok(sst) => {
                        let sound = sst.is_sound();
                        if sound {
                            Ok(Arc::new(sst))
                        } else {
                            assert(holds(bytes@, id, sst));
                            Err(LsmError::Malformed)
                        }
                    },
                    Err(e) => Err(e),
                }
            },
            None => Err(LsmError::SstableNotFound(id)),
        }
    }

    /// Drops the mem-tables with an id.
    fn drop_memtable(mems: Vec<MemTable>, id: usize) -> (r: Vec<MemTable>)
        ensures
            r@ == without_mem(mems@, id),
    {
        let mut rest = mems;
        let ghost all = rest@;
        let ghost mut done: int = 0;
        let mut kept: Vec<MemTable> = Vec::new();
        assert(all.take(0) =~= Seq::empty());
        assert(all.skip(0) =~= all);
        while rest.len() > 0
            invariant
                0 <= done <= all.len(),
                rest@ == all.skip(done),
                kept@ == without_mem(all.take(done), id),
            decreases rest@.len(),
        {
            let memtable = rest.remove(0);
            proof {
                assert(memtable == all[done]);
                assert(all.take(done + 1).drop_last() =~= all.take(done));
                assert(all.take(done + 1).last() == memtable);
                assert(rest@ =~= all.skip(done + 1));
                done = done + 1;
            }
            if memtable.id() != id {
                kept.push(memtable);
            }
        }
        assert(all.take(done) =~= all);
        kept
    }

    /// Replays the flush of a mem-table.
    fn load_flush_manifest(
        compaction_controller: &CompactionController,
        sst_id: usize,
        snapshot: LsmStorageState,
        files: &StoredFiles,
    ) -> (r: Result<LsmStorageState, LsmError>)
        requires
            state::tables_ok(snapshot.sstables@),
            *compaction_controller is Tiered ==> snapshot.levels@.len() < usize::MAX,
        ensures
            match r {
                Ok(b) => flush_replayed(*compaction_controller, *files, sst_id, snapshot, b)
                    && state::tables_ok(b.sstables@) && b.memtable == snapshot.memtable,
                Err(e) => sst_loaded(*files, sst_id, Err(e)),
            },
    {
        let mut engine = snapshot;
        match Self::load_sst(sst_id, files) {
            Ok(sst) => {
                Self::push_front(&mut engine, sst_id, compaction_controller.flush_to_l0());
                engine.sstables.insert(sst_id, sst);
                let mut mems: Vec<MemTable> = Vec::new();
                std::mem::swap(&mut mems, &mut engine.imm_memtables);
                engine.imm_memtables = Self::drop_memtable(mems, sst_id);
                assert(sst_loaded(*files, sst_id, Ok(sst)));
                Ok(engine)
            },
            Err(e) => Err(e),
        }
    }

    /// Loads tables and adds them to a state.
    fn load_ssts(sst_ids: &[usize], snapshot: LsmStorageState, files: &StoredFiles) -> (r: Result<
        (LsmStorageState, Ghost<Seq<Arc<SsTable>>>),
        LsmError,
    >)
        requires
            state::tables_ok(snapshot.sstables@),
        ensures
            match r {
                Ok((b, v)) => ssts_loaded(*files, sst_ids@, v@) && b.sstables@
                    == executor::insert_all(snapshot.sstables@, v@) && same_lists(b, snapshot)
                    && state::tables_ok(b.sstables@),
                Err(e) => exists|i: int, v: Seq<Arc<SsTable>>|
                    0 <= i < sst_ids@.len() && #[trigger] ssts_loaded(
                        *files,
                        sst_ids@.take(i),
                        v,
                    ) && sst_loaded(*files, sst_ids@[i], Err(e)),
            },
    {
        let mut engine = snapshot;
        let ghost mut v: Seq<Arc<SsTable>> = Seq::empty();
        let mut i: usize = 0;
        while i < sst_ids.len()
            invariant
                i <= sst_ids@.len(),
                v.len() == i,
                forall|j: int|
                    0 <= j < i ==> sst_loaded(*files, sst_ids@[j], Ok(#[trigger] v[j])),
                engine.sstables@ == executor::insert_all(snapshot.sstables@, v),
                same_lists(engine, snapshot),
                state::tables_ok(engine.sstables@),
            decreases sst_ids@.len() - i,
        {
            match Self::load_sst(sst_ids[i], files) {
                Ok(sst) => {
                    proof {
                        assert(v.push(sst).drop_last() =~= v);
                        v = v.push(sst);
                    }
                    engine.sstables.insert(sst_ids[i], sst);
                },
                Err(e) => {
                    proof {
                        let n = i as int;
                        assert(ssts_loaded(*files, sst_ids@.take(n), v)) by {
                            assert forall|j: int| 0 <= j < n implies sst_loaded(
                                *files,
                                sst_ids@.take(n)[j],
                                Ok(#[trigger] v[j]),
                            ) by {
                                assert(sst_ids@.take(n)[j] == sst_ids@[j]);
                            }
                        }
                    }
                    return Err(e);
                },
            }
            i = i + 1;
        }
        Ok((engine, Ghost(v)))
    }

    /// Replays a compaction.
    pub fn load_compaction_manifest(
        compaction_controller: &CompactionController,
        snapshot: LsmStorageState,
        task: &CompactionTask,
        new_sst_ids: &[usize],
        files: &StoredFiles,
        in_recovery: bool,
    ) -> (r: Result<LsmStorageState, LsmError>)
        requires
            state::tables_ok(snapshot.sstables@),
        ensures
            match r {
                Ok(b) => compaction_replayed(
                    *compaction_controller,
                    *files,
                    *task,
                    new_sst_ids@,
                    snapshot,
                    b,
                ) && state::tables_ok(b.sstables@) && b.memtable == snapshot.memtable
                    && b.imm_memtables == snapshot.imm_memtables,
                Err(e) => compaction_fails(
                    *compaction_controller,
                    *files,
                    *task,
                    new_sst_ids@,
                    snapshot,
                    e,
                ),
            },
    {
        let (mid, v) = match Self::load_ssts(new_sst_ids, snapshot, files) {
            Ok(loaded) => loaded,
            Err(e) => {
                return Err(e);
            },
        };
        if !compaction_controller.accepts_task(&mid, task, new_sst_ids) {
            assert(ssts_loaded(*files, new_sst_ids@, v@) && same_lists(mid, snapshot));
            return Err(LsmError::Malformed);
        }
        let ghost before = mid;
        let (new_state, sst_ids_to_delete) = compaction_controller.apply_compaction_result(
            mid,
            task,
            new_sst_ids,
            in_recovery,
        );
        let ghost done = new_state;
        let mut new_state = new_state;
        let none: Vec<Arc<SsTable>> = Vec::new();
        Self::update_engine_sstables(&mut new_state, sst_ids_to_delete.as_slice(), &none);
        proof {
            assert(executor::replaced(done.sstables@, sst_ids_to_delete@, none@)
                == executor::remove_all(done.sstables@, sst_ids_to_delete@));
            assert(compaction_parts(
                *compaction_controller,
                snapshot,
                *task,
                new_sst_ids@,
                new_state,
                v@,
                before,
                done,
                sst_ids_to_delete@,
            ));
            assert forall|id: usize| #[trigger] new_state.sstables@.contains_key(id) implies new_state.sstables@[id].wf()
                && new_state.sstables@[id].id == id by {
                crate::compact::laws::lemma_remove_all(done.sstables@, sst_ids_to_delete@, id);
            }
        }
        Ok(new_state)
    }

    /// Replays the creation of a mem-table.
    pub fn load_memtable_manifest(
        memtable_id: usize,
        snapshot: LsmStorageState,
        files: &StoredFiles,
    ) -> (r: Result<LsmStorageState, LsmError>)
        ensures
            match r {
                Ok(b) => memtable_replayed(*files, memtable_id, snapshot, b) && b.memtable
                    == snapshot.memtable && b.sstables == snapshot.sstables,
                Err(e) => !snapshot.sstables@.contains_key(memtable_id) && mem_recovered(
                    *files,
                    memtable_id,
                    Err(e),
                ),
            },
    {
        // The memtable is flushed already.
        if snapshot.sstables.contains_key(&memtable_id) {
            return Ok(snapshot);
        }
        let log: &Vec<u8> = match files.wals.get(&memtable_id) {
            Some(log) => log,
            None => {
                return Err(LsmError::WalNotFound(memtable_id));
            },
        };
        let memtable = match MemTable::recover_from_wal(memtable_id, log.as_slice()) {
            Ok(memtable) => memtable,
            Err(e) => {
                return Err(e);
            },
        };
        if !memtable.all_fit() {
            return Err(LsmError::Malformed);
        }
        let mut engine = snapshot;
        engine.imm_memtables.insert(0, memtable);
        proof {
            assert(engine.imm_memtables@ =~= seq![memtable] + snapshot.imm_memtables@);
            assert(mem_recovered(*files, memtable_id, Ok(memtable)));
        }
        Ok(engine)
    }

    /// Puts the levels in the order of their tables' first keys.
    fn order_levels(snapshot: LsmStorageState) -> (r: Option<LsmStorageState>)
        ensures
            r matches Some(s) ==> levels_ordered(snapshot, s),
            r is None ==> exists|i: int|
                0 <= i < snapshot.levels@.len() && !leveled::all_loaded(
                    snapshot.sstables@,
                    (#[trigger] snapshot.levels@[i]).1@,
                ),
    {
        let mut engine = snapshot;
        let mut levels: Vec<(usize, Vec<usize>)> = Vec::new();
        let mut i: usize = 0;
        while i < engine.levels.len()
            invariant
                engine == snapshot,
                i <= engine.levels@.len(),
                levels@.len() == i,
                forall|j: int|
                    0 <= j < i ==> (#[trigger] levels@[j]).0 == engine.levels@[j].0 && levels@[j].1@
                        == leveled::by_first_key(engine.sstables@, engine.levels@[j].1@),
            decreases engine.levels@.len() - i,
        {
            if !all_are_loaded(&engine.sstables, engine.levels[i].1.as_slice()) {
                assert(!leveled::all_loaded(snapshot.sstables@, snapshot.levels@[i as int].1@));
                return None;
            }
            let sorted = sort_by_first_key(&engine.levels[i].1, &engine.sstables);
            levels.push((engine.levels[i].0, sorted));
            i = i + 1;
        }
        engine.levels = levels;
        Some(engine)
    }

    /// Replays the manifest.
    pub fn load_manifest(
        compaction_controller: &CompactionController,
        manifest_records: &[ManifestRecord],
        options: &LsmStorageOptions,
        files: &StoredFiles,
    ) -> (r: Result<LsmStorageState, LsmError>)
        requires
            *compaction_controller == controller_for(options.compaction_options),
        ensures
            manifest_loaded(*compaction_controller, *options, *files, manifest_records@, r),
            r matches Ok(s) ==> (*compaction_controller is Tiered ==> s.l0_sstables@.len() == 0)
                && s.memtable.contents() == Map::<VKey, Seq<u8>>::empty() && forall|i: int|
                0 <= i < s.imm_memtables@.len() ==> logged(
                    *files,
                    manifest_records@,
                    #[trigger] s.imm_memtables@[i],
                ),
    {
        let ghost c = *compaction_controller;
        let ghost records = manifest_records@;
        let mut snapshot = LsmStorageState::create(options);
        let mut i: usize = 0;
        assert(records.take(0) =~= Seq::empty());
        while i < manifest_records.len()
            invariant
                i <= manifest_records@.len(),
                records == manifest_records@,
                c == *compaction_controller,
                replayed(c, *options, *files, records.take(i as int), snapshot),
                parts_ok(c, *files, records, snapshot, i as int),
            decreases manifest_records@.len() - i,
        {
            let ghost before = snapshot;
            let ghost record = records[i as int];
            let result = match &manifest_records[i] {
                ManifestRecord::Flush(sst_id) => Self::load_flush_manifest(
                    compaction_controller,
                    *sst_id,
                    snapshot,
                    files,
                ),
                ManifestRecord::Compaction(task, new_sst_ids) => Self::load_compaction_manifest(
                    compaction_controller,
                    snapshot,
                    task,
                    new_sst_ids.as_slice(),
                    files,
                    true,
                ),
                ManifestRecord::NewMemtable(memtable_id) => Self::load_memtable_manifest(
                    *memtable_id,
                    snapshot,
                    files,
                ),
            };
            match result {
                Ok(after) => {
                    snapshot = after;
                    proof {
                        assert(records.take(i + 1).drop_last() =~= records.take(i as int));
                        assert(records.take(i + 1).last() == record);
                        assert(record_replayed(c, *files, record, before, after));
                        lemma_parts_stay(c, *files, records, record, before, after, i as int);
                    }
                },
                Err(e) => {
                    assert(record_fails(c, *files, records[i as int], before, e));
                    return Err(e);
                },
            }
            i = i + 1;
        }
        assert(records.take(i as int) =~= records);
        let ghost p = snapshot;
        // Sort all levels
        let ordered = match Self::order_levels(snapshot) {
            Some(ordered) => ordered,
            None => {
                assert(replayed(c, *options, *files, records, p));
                return Err(LsmError::Malformed);
            },
        };
        proof {
            assert(replayed(c, *options, *files, records, p) && levels_ordered(p, ordered));
            assert forall|j: int| 0 <= j < ordered.imm_memtables@.len() implies (
            #[trigger] ordered.imm_memtables@[j]).fits() by {
                assert(p.imm_memtables@[j].fits());
            }
        }
        if !ordered.lists_sound() {
            return Err(LsmError::Malformed);
        }
        Ok(ordered)
    }
}

/// Every mem-table that stays was there.
pub proof fn lemma_without_mem(mems: Seq<MemTable>, id: usize, i: int) -> (j: int)
    requires
        0 <= i < without_mem(mems, id).len(),
    ensures
        0 <= j < mems.len(),
        mems[j] == without_mem(mems, id)[i],
        mems[j].id != id,
    decreases mems.len(),
{
    let front = mems.drop_last();
    if mems.last().id != id && i == without_mem(front, id).len() {
        mems.len() - 1
    } else {
        lemma_without_mem(front, id, i)
    }
}

/// Replaying a record keeps everything but the lists in order.
proof fn lemma_parts_stay(
    c: CompactionController,
    files: StoredFiles,
    records: Seq<ManifestRecord>,
    record: ManifestRecord,
    a: LsmStorageState,
    b: LsmStorageState,
    n: int,
)
    requires
        parts_ok(c, files, records, a, n),
        records.contains(record),
        record_replayed(c, files, record, a, b),
        state::tables_ok(b.sstables@),
        b.memtable == a.memtable,
        record is Compaction ==> b.imm_memtables == a.imm_memtables,
    ensures
        parts_ok(c, files, records, b, n + 1),
{
    match record {
        ManifestRecord::Flush(id) => {
            assert forall|i: int| 0 <= i < b.imm_memtables@.len() implies (
            #[trigger] b.imm_memtables@[i]).fits() && logged(
                files,
                records,
                b.imm_memtables@[i],
            ) by {
                let j = lemma_without_mem(a.imm_memtables@, id, i);
                assert(a.imm_memtables@[j].fits());
            }
        },
        ManifestRecord::NewMemtable(id) => {
            if !a.sstables@.contains_key(id) {
                let m = choose|m: MemTable| #[trigger]
                    mem_recovered(files, id, Ok(m)) && b.imm_memtables@ == seq![m]
                        + a.imm_memtables@ && b.memtable == a.memtable && b.l0_sstables
                        == a.l0_sstables && b.levels == a.levels && b.sstables == a.sstables;
                assert forall|i: int| 0 <= i < b.imm_memtables@.len() implies (
                #[trigger] b.imm_memtables@[i]).fits() && logged(
                    files,
                    records,
                    b.imm_memtables@[i],
                ) by {
                    if i > 0 {
                        assert(b.imm_memtables@[i] == a.imm_memtables@[i - 1]);
                    } else {
                        assert(b.imm_memtables@[0] == m);
                        assert(m.fits());
                    }
                }
            }
        },
        ManifestRecord::Compaction(task, ids) => {},
    }
}

/// The controller for the options.
pub open spec fn controller_for(options: CompactionOptions) -> CompactionController {
    match options {
        CompactionOptions::Leveled(o) => CompactionController::Leveled(
            LeveledCompactionController { options: o },
        ),
        CompactionOptions::Tiered(o) => CompactionController::Tiered(
            TieredCompactionController { options: o },
        ),
        CompactionOptions::Simple(o) => CompactionController::Simple(
            SimpleLeveledCompactionController { options: o },
        ),
        CompactionOptions::NoCompaction => CompactionController::NoCompaction,
    }
}

/// The largest timestamp of a WAL that a record names, where the WAL can be read.
pub open spec fn record_ts(files: StoredFiles, record: ManifestRecord) -> Option<u64> {
    match record {
        ManifestRecord::NewMemtable(id) => if files.wals@.contains_key(id) {
            match wal::replay(files.wals@[id]@, 0) {
                Ok(es) => Some(table::max_ts_of(es)),
                Err(_) => None,
            }
        } else {
            None
        },
        _ => None,
    }
}

/// `ts` is the largest timestamp of the tables and of the WALs that the records name, or 0 where
/// there is none.
pub open spec fn is_init_ts(
    tables: Map<usize, Arc<SsTable>>,
    files: StoredFiles,
    records: Seq<ManifestRecord>,
    ts: u64,
) -> bool {
    &&& forall|id: usize| #[trigger] tables.contains_key(id) ==> tables[id].max_ts <= ts
    &&& forall|i: int|
        0 <= i < records.len() ==> (record_ts(files, #[trigger] records[i]) matches Some(t) ==> t
            <= ts)
    &&& ts > 0 ==> (exists|id: usize| #[trigger] tables.contains_key(id) && tables[id].max_ts == ts)
        || (exists|i: int|
        0 <= i < records.len() && record_ts(files, #[trigger] records[i]) == Some(ts))
}

/// `id` is the largest id of the tables and of the immutable mem-tables, or 0 where there is none.
pub open spec fn is_last_id(s: LsmStorageState, id: usize) -> bool {
    &&& forall|x: usize| #[trigger] s.sstables@.contains_key(x) ==> x <= id
    &&& forall|i: int|
        0 <= i < s.imm_memtables@.len() ==> (#[trigger] s.imm_memtables@[i]).id <= id
    &&& id > 0 ==> s.sstables@.contains_key(id) || exists|i: int|
        0 <= i < s.imm_memtables@.len() && (#[trigger] s.imm_memtables@[i]).id == id
}

/// No table and no immutable mem-table has the id.
pub open spec fn id_free(s: LsmStorageState, id: usize) -> bool {
    &&& !s.sstables@.contains_key(id)
    &&& forall|i: int| 0 <= i < s.imm_memtables@.len() ==> (#[trigger] s.imm_memtables@[i]).id != id
}

/// The id of the first mem-table after a recovery, where `last` is the largest id in use: 0, or
/// where that is in use, the next one.
pub open spec fn fresh_id(s: LsmStorageState, last: usize) -> int {
    if id_free(s, 0) {
        0
    } else {
        last + 1
    }
}

/// The id that a recovery leaves for the next mem-table or table.
pub open spec fn next_id(s: LsmStorageState, last: usize) -> int {
    if id_free(s, 0) {
        last + 1
    } else {
        last + 2
    }
}

/// No id of a recovered state stands for two things.
pub open spec fn ids_distinct(s: LsmStorageState) -> bool {
    &&& engine::lists_apart(s)
    &&& forall|i: int|
        0 <= i < s.imm_memtables@.len() ==> !s.sstables@.contains_key(
            (#[trigger] s.imm_memtables@[i]).id,
        )
    &&& forall|i: int, j: int|
        #![trigger s.imm_memtables@[i], s.imm_memtables@[j]]
        0 <= i < j < s.imm_memtables@.len() ==> s.imm_memtables@[i].id != s.imm_memtables@[j].id
}

/// `b` is `a` with a fresh mem-table, which has no WAL.
pub open spec fn with_fresh(a: LsmStorageState, b: LsmStorageState, id: usize) -> bool {
    &&& b.memtable.id == id
    &&& b.memtable.contents() == Map::<VKey, Seq<u8>>::empty()
    &&& b.memtable.wal is None
    &&& b.memtable.approximate_size == 0
    &&& b.imm_memtables == a.imm_memtables
    &&& b.l0_sstables == a.l0_sstables
    &&& b.levels == a.levels
    &&& b.sstables == a.sstables
}

/// `id` is the largest id of the tables, or 0 where there is none.
pub open spec fn is_max_id(tables: Map<usize, Arc<SsTable>>, id: usize) -> bool {
    &&& forall|x: usize| #[trigger] tables.contains_key(x) ==> x <= id
    &&& id > 0 ==> tables.contains_key(id)
}

/// The ids of all tables, in some order.
fn collect_ids(tables: &HashMap<usize, Arc<SsTable>>) -> (r: Vec<usize>)
    ensures
        forall|id: usize| tables@.contains_key(id) <==> #[trigger] r@.contains(id),
{
    let mut ids: Vec<usize> = Vec::new();
    for id in it: tables.keys()
        invariant
            ids@.len() == it.index(),
            forall|i: int| 0 <= i < ids@.len() ==> ids@[i] == *it.seq()[i],
    {
        ids.push(*id);
    }
    proof {
        let seq = vstd::std_specs::iter::IteratorSpec::remaining(
            &vstd::std_specs::hash::spec_keys_iter(tables),
        );
        assert(ids@ =~= seq.unref());
        assert(ids@.to_set() =~= tables@.dom());
        assert forall|id: usize| tables@.contains_key(id) <==> #[trigger] ids@.contains(id) by {
            assert(ids@.to_set().contains(id) <==> ids@.contains(id));
        }
    }
    ids
}

impl LsmStorageInner {
    /// The clock, one step behind what is stored.
    pub fn create_mvcc(init_ts: u64) -> (r: LsmMvccInner)
        requires
            init_ts < u64::MAX,
        ensures
            r.ts.0 == init_ts + 1,
            r.ts.1.readers@ == Seq::<u64>::empty(),
    {
        LsmMvccInner::new(init_ts + 1)
    }

    /// The controller for the options.
    pub fn create_compaction_controller(options: &LsmStorageOptions) -> (r: CompactionController)
        ensures
            r == controller_for(options.compaction_options),
    {
        match options.compaction_options {
            CompactionOptions::Leveled(opts) => CompactionController::Leveled(
                LeveledCompactionController::new(opts),
            ),
            CompactionOptions::Tiered(opts) => CompactionController::Tiered(
                TieredCompactionController::new(opts),
            ),
            CompactionOptions::Simple(opts) => CompactionController::Simple(
                SimpleLeveledCompactionController::new(opts),
            ),
            CompactionOptions::NoCompaction => CompactionController::NoCompaction,
        }
    }

    /// The largest timestamp of the tables and of the WALs that the records name.
    pub fn get_init_ts(
        tables: &HashMap<usize, Arc<SsTable>>,
        manifest_records: &[ManifestRecord],
        files: &StoredFiles,
    ) -> (r: u64)
        ensures
            is_init_ts(tables@, *files, manifest_records@, r),
    {
        let ids = collect_ids(tables);
        let mut max_ts: u64 = 0;
        let mut i: usize = 0;
        while i < ids.len()
            invariant
                i <= ids@.len(),
                forall|id: usize| tables@.contains_key(id) <==> #[trigger] ids@.contains(id),
                forall|j: int| 0 <= j < i ==> tables@[#[trigger] ids@[j]].max_ts <= max_ts,
                max_ts > 0 ==> exists|id: usize| #[trigger]
                    tables@.contains_key(id) && tables@[id].max_ts == max_ts,
            decreases ids@.len() - i,
        {
            assert(ids@.contains(ids@[i as int]));
            let t: &Arc<SsTable> = tables.get(&ids[i]).unwrap();
            if t.max_ts() > max_ts {
                max_ts = t.max_ts();
                assert(tables@.contains_key(ids@[i as int]));
            }
            i = i + 1;
        }
        proof {
            assert forall|id: usize| #[trigger] tables@.contains_key(id) implies tables@[id].max_ts
                <= max_ts by {
                assert(ids@.contains(id));
                let j = ids@.index_of(id);
                assert(tables@[ids@[j]].max_ts <= max_ts);
            }
        }
        let mut k: usize = 0;
        while k < manifest_records.len()
            invariant
                k <= manifest_records@.len(),
                forall|id: usize| #[trigger]
                    tables@.contains_key(id) ==> tables@[id].max_ts <= max_ts,
                forall|j: int|
                    0 <= j < k ==> (record_ts(*files, #[trigger] manifest_records@[j]) matches Some(
                        t,
                    ) ==> t <= max_ts),
                max_ts > 0 ==> (exists|id: usize| #[trigger]
                    tables@.contains_key(id) && tables@[id].max_ts == max_ts) || (exists|j: int|
                    0 <= j < manifest_records@.len() && record_ts(
                        *files,
                        #[trigger] manifest_records@[j],
                    ) == Some(max_ts)),
            decreases manifest_records@.len() - k,
        {
            let ts: Option<u64> = match &manifest_records[k] {
                ManifestRecord::NewMemtable(id) => match files.wals.get(id) {
                    Some(log) => match Wal::read_max_ts(log.as_slice()) {
                        Ok(ts) => Some(ts),
                        Err(_) => None,
                    },
                    None => None,
                },
                _ => None,
            };
            assert(ts == record_ts(*files, manifest_records@[k as int]));
            match ts {
                Some(t) => {
                    if t > max_ts {
                        max_ts = t;
                    }
                },
                None => {},
            }
            k = k + 1;
        }
        max_ts
    }

    /// The largest id of the tables, or 0 where there is none.
    pub(crate) fn max_sst_id(tables: &HashMap<usize, Arc<SsTable>>) -> (r: usize)
        ensures
            is_max_id(tables@, r),
    {
        let ids = collect_ids(tables);
        let mut max_id: usize = 0;
        let mut i: usize = 0;
        while i < ids.len()
            invariant
                i <= ids@.len(),
                forall|id: usize| tables@.contains_key(id) <==> #[trigger] ids@.contains(id),
                forall|j: int| 0 <= j < i ==> #[trigger] ids@[j] <= max_id,
                max_id > 0 ==> tables@.contains_key(max_id),
            decreases ids@.len() - i,
        {
            assert(ids@.contains(ids@[i as int]));
            if ids[i] > max_id {
                max_id = ids[i];
            }
            i = i + 1;
        }
        proof {
            assert forall|x: usize| #[trigger] tables@.contains_key(x) implies x <= max_id by {
                assert(ids@.contains(x));
                let j = ids@.index_of(x);
                assert(ids@[j] <= max_id);
            }
        }
        max_id
    }

    /// The largest id of the tables and of the immutable mem-tables, or 0 where there is none.
    fn last_id(state: &LsmStorageState) -> (r: usize)
        ensures
            is_last_id(*state, r),
    {
        let mut last: usize = Self::max_sst_id(&state.sstables);
        let mut i: usize = 0;
        while i < state.imm_memtables.len()
            invariant
                i <= state.imm_memtables@.len(),
                forall|x: usize| #[trigger] state.sstables@.contains_key(x) ==> x <= last,
                forall|j: int|
                    0 <= j < i ==> (#[trigger] state.imm_memtables@[j]).id <= last,
                last > 0 ==> state.sstables@.contains_key(last) || exists|j: int|
                    0 <= j < state.imm_memtables@.len() && (#[trigger] state.imm_memtables@[j]).id
                        == last,
            decreases state.imm_memtables@.len() - i,
        {
            let id: usize = state.imm_memtables[i].id();
            if id > last {
                last = id;
                assert(state.imm_memtables@[i as int].id == last);
            }
            i = i + 1;
        }
        last
    }

    /// Whether no table and no immutable mem-table has the id.
    fn is_id_free(state: &LsmStorageState, id: usize) -> (r: bool)
        ensures
            r == id_free(*state, id),
    {
        if state.sstables.contains_key(&id) {
            return false;
        }
        let mut i: usize = 0;
        while i < state.imm_memtables.len()
            invariant
                i <= state.imm_memtables@.len(),
                !state.sstables@.contains_key(id),
                forall|j: int| 0 <= j < i ==> (#[trigger] state.imm_memtables@[j]).id != id,
            decreases state.imm_memtables@.len() - i,
        {
            if state.imm_memtables[i].id() == id {
                assert(state.imm_memtables@[i as int].id == id);
                return false;
            }
            i = i + 1;
        }
        true
    }

    /// An engine with nothing in it.
    pub open spec fn is_new(&self, options: LsmStorageOptions) -> bool {
        &&& self.state.is_initial(options.compaction_options)
        &&& self.next_sst_id == 1
        &&& self.mvcc.ts.0 == 1
    }

    /// An engine brought back from a manifest and files: it has what was loaded, and a fresh
    /// mem-table. That has the id 0, unless a table or a mem-table that came back has it.
    pub open spec fn is_recovered(
        &self,
        options: LsmStorageOptions,
        records: Seq<ManifestRecord>,
        files: StoredFiles,
    ) -> bool {
        &&& exists|s: LsmStorageState, id: usize| #[trigger]
            manifest_loaded(self.compaction_controller, options, files, records, Ok(s))
                && #[trigger] is_last_id(s, id) && ids_distinct(s) && self.next_sst_id == next_id(
                s,
                id,
            ) && with_fresh(s, self.state, fresh_id(s, id) as usize)
        &&& self.mvcc.ts.0 > 0
        &&& is_init_ts(self.state.sstables@, files, records, (self.mvcc.ts.0 - 1) as u64)
    }

    /// The engine has just been opened.
    pub open spec fn is_fresh(&self, options: LsmStorageOptions) -> bool {
        &&& self.options == options
        &&& self.compaction_controller == controller_for(options.compaction_options)
        &&& self.compaction_filters@.len() == 0
        &&& self.mvcc.ts.1.readers@.len() == 0
    }

    /// Start the storage engine by either loading an existing directory or creating a new one if the directory does
    /// not exist.
    pub fn open(options: LsmStorageOptions, found: Option<Recovery>) -> (r: Result<Self, LsmError>)
        requires
            engine::options_ok(options),
        ensures
            r matches Ok(e) ==> e.wf() && e.ids_ok() && e.is_fresh(options),
            match found {
                None => r matches Ok(e) && e.is_new(options) && e.aged(),
                Some(f) => match r {
                    Ok(e) => e.is_recovered(options, f.records@, *f.files),
                    Err(e) => recovery_fails(options, f.records@, *f.files, e),
                },
            },
    {
        match found {
            Some(f) => Self::recover(options, f.records, f.files),
            None => {
                let engine = LsmStorageInner {
                    state: LsmStorageState::create(&options),
                    next_sst_id: 1,
                    options,
                    compaction_controller: Self::create_compaction_controller(&options),
                    mvcc: Self::create_mvcc(0),
                    compaction_filters: Vec::new(),
                };
                proof {
                    lemma_initial(engine, options.compaction_options);
                }
                Ok(engine)
            },
        }
    }

    /// Brings an engine back from a manifest and files.
    fn recover(
        options: LsmStorageOptions,
        records: &[ManifestRecord],
        files: &StoredFiles,
    ) -> (r: Result<Self, LsmError>)
        requires
            engine::options_ok(options),
        ensures
            match r {
                Ok(e) => e.wf() && e.ids_ok() && e.is_fresh(options) && e.is_recovered(
                    options,
                    records@,
                    *files,
                ),
                Err(e) => recovery_fails(options, records@, *files, e),
            },
    {
        let compaction_controller = Self::create_compaction_controller(&options);
        let ghost c = compaction_controller;
        let state = match Self::load_manifest(&compaction_controller, records, &options, files) {
            Ok(state) => state,
            Err(e) => {
                return Err(e);
            },
        };
        let ghost loaded = state;
        let last_id: usize = Self::last_id(&state);
        let init_ts: u64 = Self::get_init_ts(&state.sstables, records, files);
        assert(manifest_loaded(c, options, *files, records@, Ok(loaded)));
        let zero_free = Self::is_id_free(&state, 0);
        if last_id == usize::MAX || (!zero_free && last_id == usize::MAX - 1) || init_ts
            == u64::MAX {
            assert(is_last_id(loaded, last_id));
            return Err(LsmError::Malformed);
        }
        let (memtable_id, next_sst_id): (usize, usize) = if zero_free {
            (0, last_id + 1)
        } else {
            (last_id + 1, last_id + 2)
        };
        let mut state = state;
        state.memtable = MemTable::create(memtable_id);
        let engine = LsmStorageInner {
            state,
            next_sst_id,
            options,
            compaction_controller,
            mvcc: Self::create_mvcc(init_ts),
            compaction_filters: Vec::new(),
        };
        proof {
            assert(with_fresh(loaded, engine.state, memtable_id));
            assert(is_last_id(loaded, last_id));
            engine::lemma_same_levels_ok(loaded, engine.state);
            lemma_recovered_no_newer(engine.state, *files, records@, init_ts);
            lemma_recovered_ids(loaded, engine, last_id);
        }
        if !engine.ids_sound() {
            return Err(LsmError::Malformed);
        }
        Ok(engine)
    }
}

/// The id of the first mem-table after a recovery is free and below the next one.
pub proof fn lemma_fresh_id(s: LsmStorageState, id: usize)
    requires
        is_last_id(s, id),
        next_id(s, id) <= usize::MAX,
    ensures
        id_free(s, fresh_id(s, id) as usize),
        0 <= fresh_id(s, id) < next_id(s, id),
        id < next_id(s, id),
{
    let fresh = fresh_id(s, id) as usize;
    if !id_free(s, 0) {
        assert(!s.sstables@.contains_key(fresh));
        assert forall|i: int| 0 <= i < s.imm_memtables@.len() implies (
        #[trigger] s.imm_memtables@[i]).id != fresh by {
            assert(s.imm_memtables@[i].id <= id);
        }
    }
}

/// With a fresh mem-table, the ids of an engine are in order where those of the state are.
pub proof fn lemma_recovered_ids(s: LsmStorageState, e: LsmStorageInner, id: usize)
    requires
        is_last_id(s, id),
        e.next_sst_id == next_id(s, id),
        with_fresh(s, e.state, fresh_id(s, id) as usize),
    ensures
        e.ids_ok() <==> ids_distinct(s),
{
    let mems = e.write_state().mems;
    lemma_fresh_id(s, id);
    assert(engine::lists_apart(e.state) == engine::lists_apart(s)) by {
        if engine::lists_apart(s) {
            assert(forall|i: int|
                0 <= i < e.state.levels@.len() ==> engine::apart(
                    e.state.l0_sstables@,
                    #[trigger] e.state.levels@[i].1@,
                ));
        }
    }
    if ids_distinct(s) {
        assert forall|i: int| 0 <= i < mems.len() implies (#[trigger] mems[i]).id < e.next_sst_id
            && !e.state.sstables@.contains_key(mems[i].id) by {
            if i > 0 {
                assert(mems[i].id == s.imm_memtables@[i - 1].id);
            }
        }
        assert forall|i: int, j: int|
            #![trigger mems[i], mems[j]]
            0 <= i < j < mems.len() implies mems[i].id != mems[j].id by {
            assert(mems[j].id == s.imm_memtables@[j - 1].id);
            if i > 0 {
                assert(mems[i].id == s.imm_memtables@[i - 1].id);
            }
        }
    }
    if e.ids_ok() {
        assert forall|i: int| 0 <= i < s.imm_memtables@.len() implies !s.sstables@.contains_key(
            (#[trigger] s.imm_memtables@[i]).id,
        ) by {
            assert(mems[i + 1].id == s.imm_memtables@[i].id);
        }
        assert forall|i: int, j: int|
            #![trigger s.imm_memtables@[i], s.imm_memtables@[j]]
            0 <= i < j < s.imm_memtables@.len() implies s.imm_memtables@[i].id
            != s.imm_memtables@[j].id by {
            assert(mems[i + 1].id == s.imm_memtables@[i].id);
            assert(mems[j + 1].id == s.imm_memtables@[j].id);
        }
    }
}

/// What keeps a recovery from succeeding: a manifest that cannot be loaded, ids or timestamps that
/// leave no next one, or an id that stands for two things.
pub open spec fn recovery_fails(
    options: LsmStorageOptions,
    records: Seq<ManifestRecord>,
    files: StoredFiles,
    e: LsmError,
) -> bool {
    let c = controller_for(options.compaction_options);
    ||| manifest_loaded(c, options, files, records, Err(e))
    ||| e == LsmError::Malformed && exists|s: LsmStorageState| #[trigger]
        manifest_loaded(c, options, files, records, Ok(s)) && ((exists|id: usize| #[trigger]
            is_last_id(s, id) && next_id(s, id) > usize::MAX) || is_init_ts(
            s.sstables@,
            files,
            records,
            u64::MAX,
        ) || !ids_distinct(s))
}

/// An engine with nothing in it is well formed.
proof fn lemma_initial(e: LsmStorageInner, options: CompactionOptions)
    requires
        e.state.is_initial(options),
        e.next_sst_id == 1,
        engine::options_ok(e.options),
    ensures
        e.wf(),
        e.ids_ok(),
        e.aged(),
        e.contents() == Map::<VKey, Seq<u8>>::empty(),
{
    let s = e.state;
    assert forall|i: int| 0 <= i < s.levels@.len() implies #[trigger] s.level_ok(i) by {
        let tables = state::tables_of(s.sstables@, s.levels@[i].1@);
        assert(concat_iterator::contents(tables) =~= Seq::empty());
        assert(concat_iterator::joined(tables) =~= Seq::empty());
    }
    let layers = s.layers();
    assert forall|k: VKey| !(#[trigger] s.contents().contains_key(k)) by {
        merging::lemma_union_contains(layers, k);
        if s.contents().contains_key(k) {
            let i = choose|i: int| 0 <= i < layers.len() && (#[trigger] layers[i]).contains_key(k);
            if i > 0 {
                let tables = state::tables_of(s.sstables@, s.levels@[i - 1].1@);
                assert(concat_iterator::contents(tables) =~= Seq::empty());
                assert(concat_iterator::joined(tables) =~= Seq::empty());
            }
        }
    }
    assert(s.contents() =~= Map::<VKey, Seq<u8>>::empty());
}

/// No entry is newer than the largest timestamp.
proof fn lemma_max_ts_bounds(es: Seq<VEntry>, i: int)
    requires
        0 <= i < es.len(),
    ensures
        es[i].key.ts <= table::max_ts_of(es),
    decreases es.len(),
{
    if i < es.len() - 1 {
        lemma_max_ts_bounds(es.drop_last(), i);
        assert(es.drop_last()[i] == es[i]);
    }
}

/// Versions that have been put come from the entries.
proof fn lemma_put_all_bound(es: Seq<VEntry>, k: VKey)
    requires
        wal::put_all(Map::empty(), es).contains_key(k),
    ensures
        k.ts <= table::max_ts_of(es),
    decreases es.len(),
{
    if es.len() > 0 {
        if k == es.last().key {
            lemma_max_ts_bounds(es, es.len() - 1);
        } else {
            lemma_put_all_bound(es.drop_last(), k);
        }
    }
}

/// No entry of several tables is newer than a bound of all of them.
proof fn lemma_joined_bound(tables: Seq<Arc<SsTable>>, from: int, bound: u64, i: int)
    requires
        0 <= from <= tables.len(),
        forall|j: int|
            0 <= j < tables.len() ==> (#[trigger] tables[j]).wf() && tables[j].max_ts <= bound,
        0 <= i < concat_iterator::joined_from(tables, from).len(),
    ensures
        concat_iterator::joined_from(tables, from)[i].key.ts <= bound,
    decreases tables.len() - from,
{
    if from == tables.len() {
        concat_iterator::lemma_joined_ends(tables);
    } else {
        concat_iterator::lemma_joined_step(tables, from);
        let a = tables[from].entries();
        if i < a.len() {
            assert(tables[from].wf());
            lemma_max_ts_bounds(a, i);
        } else {
            lemma_joined_bound(tables, from + 1, bound, i - a.len());
        }
    }
}

/// No version of a recovered state is newer than the largest timestamp found.
proof fn lemma_recovered_no_newer(
    s: LsmStorageState,
    files: StoredFiles,
    records: Seq<ManifestRecord>,
    ts: u64,
)
    requires
        s.wf(),
        s.memtable.contents() == Map::<VKey, Seq<u8>>::empty(),
        forall|i: int|
            0 <= i < s.imm_memtables@.len() ==> logged(
                files,
                records,
                #[trigger] s.imm_memtables@[i],
            ),
        is_init_ts(s.sstables@, files, records, ts),
    ensures
        laws::no_newer(s.contents(), ts),
{
    let layers = s.layers();
    let n = s.imm_memtables@.len() as int;
    let l = s.l0_sstables@.len() as int;
    assert forall|k: VKey| #[trigger] s.contents().contains_key(k) implies k.ts <= ts by {
        merging::lemma_union_contains(layers, k);
        let i = choose|i: int| 0 <= i < layers.len() && (#[trigger] layers[i]).contains_key(k);
        if i == 0 {
        } else if i < 1 + n {
            let m = s.imm_memtables@[i - 1];
            assert(logged(files, records, m));
            let es = wal::replay(files.wals@[m.id]@, 0)->Ok_0;
            lemma_put_all_bound(es, k);
            let record = ManifestRecord::NewMemtable(m.id);
            let j = records.index_of(record);
            assert(record_ts(files, records[j]) == Some(table::max_ts_of(es)));
        } else if i < 1 + n + l {
            let id = s.l0_sstables@[i - 1 - n];
            assert(s.sstables@.contains_key(id));
            let es = s.sstables@[id].entries();
            assert(layers[i] == merging::to_map(es));
            merging::lemma_to_map_contains(es, k);
            let j = choose|j: int| 0 <= j < es.len() && (#[trigger] es[j]).key == k;
            lemma_max_ts_bounds(es, j);
        } else {
            let v = i - 1 - n - l;
            assert(s.level_ok(v));
            let ids = s.levels@[v].1@;
            let tables = state::tables_of(s.sstables@, ids);
            let es = concat_iterator::joined(tables);
            assert(layers[i] == merging::to_map(es));
            merging::lemma_to_map_contains(es, k);
            let j = choose|j: int| 0 <= j < es.len() && (#[trigger] es[j]).key == k;
            concat_iterator::lemma_joined_ends(tables);
            assert forall|x: int| 0 <= x < tables.len() implies (#[trigger] tables[x]).wf()
                && tables[x].max_ts <= ts by {
                assert(s.sstables@.contains_key(ids[x]));
            }
            lemma_joined_bound(tables, 0, ts, j);
        }
    }
}

/// What flushing a mem-table wrote, loading the table reads back: the load succeeds, and the table
/// holds what the mem-table held. Offsets in the file take 32 bits.
pub proof fn lemma_flushed_table_loads(
    before: LsmStorageInner,
    after: LsmStorageInner,
    actions: Seq<engine::Action>,
    files: StoredFiles,
    r: Result<Arc<SsTable>, LsmError>,
)
    requires
        before.state.imm_memtables@.len() > 0,
        after.flushed(before, actions),
        ({
            let id = before.state.imm_memtables@.last().id;
            let bytes = after.state.sstables@[id].file.bytes();
            &&& bytes.len() <= u32::MAX
            &&& files.ssts@.contains_key(id)
            &&& files.ssts@[id]@ == bytes
            &&& sst_loaded(files, id, r)
        }),
    ensures
        r matches Ok(t) && t.wf() && merging::to_map(t.entries())
            == before.state.imm_memtables@.last().contents(),
{
    let id = before.state.imm_memtables@.last().id;
    let sst = after.state.sstables@[id];
    let bytes = sst.file.bytes();
    match r {
        Ok(t) => {
            table::builder::lemma_built_table_reopens(&*sst, &t.file, &*t);
        },
        Err(e) => {
            table::builder::lemma_built_table_reopens(&*sst, &sst.file, &*sst);
            let t = choose|t: SsTable| #[trigger] holds(bytes, id, t) && !t.wf();
            table::builder::lemma_built_table_reopens(&*sst, &t.file, &t);
        },
    }
}

/// What putting batches into a mem-table logged, bringing the mem-table back reads back: where the
/// entries fit into blocks, the recovery succeeds, and the mem-table holds them all, later ones in
/// place of earlier ones.
pub proof fn lemma_logged_memtable_recovers(
    batches: Seq<Seq<VEntry>>,
    id: usize,
    files: StoredFiles,
    r: Result<MemTable, LsmError>,
)
    requires
        forall|i: int|
            0 <= i < batches.len() ==> wal::batch_fits(#[trigger] batches[i])
                && block::entries_fit(batches[i]),
        files.wals@.contains_key(id),
        files.wals@[id]@ == codec::concat(wal::log_chunks(batches)),
        mem_recovered(files, id, r),
    ensures
        r matches Ok(m) && m.id == id && m.contents() == wal::put_all(
            Map::empty(),
            table::builder::flat(batches),
        ),
{
    let es = table::builder::flat(batches);
    wal::lemma_replay(batches, 0);
    assert(batches.skip(0) =~= batches);
    assert(codec::chunk_start(wal::log_chunks(batches), 0) == 0) by {
        codec::lemma_chunk_start_ends(wal::log_chunks(batches));
    }
    lemma_flat_entries_fit(batches);
    lemma_put_all_fits(es);
}

proof fn lemma_flat_entries_fit(batches: Seq<Seq<VEntry>>)
    requires
        forall|i: int| 0 <= i < batches.len() ==> block::entries_fit(#[trigger] batches[i]),
    ensures
        block::entries_fit(table::builder::flat(batches)),
    decreases batches.len(),
{
    if batches.len() > 0 {
        let rest = batches.drop_first();
        assert forall|i: int| 0 <= i < rest.len() implies block::entries_fit(
            #[trigger] rest[i],
        ) by {
            assert(rest[i] == batches[i + 1]);
        }
        lemma_flat_entries_fit(rest);
        let all = table::builder::flat(batches);
        let later = table::builder::flat(rest);
        assert(block::entries_fit(batches[0]));
        assert forall|i: int| 0 <= i < all.len() implies block::entry_fits(
            #[trigger] all[i],
        ) by {
            if i < batches[0].len() {
                assert(all[i] == batches[0][i]);
            } else {
                assert(all[i] == later[i - batches[0].len()]);
            }
        }
    }
}

proof fn lemma_put_all_fits(es: Seq<VEntry>)
    requires
        block::entries_fit(es),
    ensures
        contents_fit(wal::put_all(Map::empty(), es)),
    decreases es.len(),
{
    if es.len() > 0 {
        let front = es.drop_last();
        assert forall|i: int| 0 <= i < front.len() implies block::entry_fits(
            #[trigger] front[i],
        ) by {
            assert(front[i] == es[i]);
        }
        lemma_put_all_fits(front);
        assert(block::entry_fits(es[es.len() - 1]));
        let m = wal::put_all(Map::empty(), es);
        assert forall|k: VKey| #[trigger] m.contains_key(k) implies block::entry_fits(
            VEntry { key: k, value: m[k] },
        ) by {
            if k != es.last().key {
                assert(wal::put_all(Map::empty(), front).contains_key(k));
            }
        }
    }
}

} // verus!
