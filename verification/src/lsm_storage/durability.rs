//! What the files of an engine hold while it is written to, and what a restart makes of them.
use std::sync::Arc;

use vstd::prelude::*;

use crate::compact::{executor, ids, leveled, simple_leveled, tiered};
use crate::compact::{
    CompactionController, SimpleLeveledCompactionOptions, SimpleLeveledCompactionTask,
    TieredCompactionOptions, TieredCompactionTask,
};
use crate::error::LsmError;
use crate::iterators::{concat_iterator, merging};
use crate::key::{VEntry, VKey};
use crate::lsm_storage::engine::{Action, VAction, VMem, WriteState};
use crate::lsm_storage::recovery::StoredFiles;
use crate::lsm_storage::{engine, laws, read, recovery, state};
use crate::lsm_storage::{LsmStorageInner, LsmStorageOptions, LsmStorageState};
use crate::manifest::ManifestRecord;
use crate::mem_table::MemTable;
use crate::table::SsTable;
use crate::{block, codec, compact, table, wal};

verus! {

/// The files of an engine: the records of the manifest, the tables that have been written to files,
/// and the WALs.
pub struct Disk {
    pub records: Seq<ManifestRecord>,
    pub ssts: Map<usize, Arc<SsTable>>,
    pub wals: Map<usize, Seq<u8>>,
}

/// No files.
pub open spec fn no_files() -> Disk {
    Disk { records: Seq::empty(), ssts: Map::empty(), wals: Map::empty() }
}

/// The files after an action. A WAL that is there already is kept when it is created.
pub open spec fn performed(d: Disk, a: VAction) -> Disk {
    match a {
        VAction::AppendWal(id, bytes) => Disk { wals: d.wals.insert(id, d.wals[id] + bytes), ..d },
        VAction::CreateWal(id) => if d.wals.contains_key(id) {
            d
        } else {
            Disk { wals: d.wals.insert(id, Seq::empty()), ..d }
        },
        VAction::WriteManifest(record) => Disk { records: d.records.push(record), ..d },
        VAction::WriteSst(sst) => Disk { ssts: d.ssts.insert(sst.id, sst), ..d },
        VAction::SyncWal(_) => d,
        VAction::SyncDir => d,
    }
}

/// The files after several actions.
pub open spec fn all_performed(d: Disk, actions: Seq<VAction>) -> Disk
    decreases actions.len(),
{
    if actions.len() == 0 {
        d
    } else {
        performed(all_performed(d, actions.drop_last()), actions.last())
    }
}

/// The ids of the flushed tables, from the newest on.
pub open spec fn flushes(records: Seq<ManifestRecord>) -> Seq<usize>
    decreases records.len(),
{
    if records.len() == 0 {
        Seq::empty()
    } else {
        match records.last() {
            ManifestRecord::Flush(id) => seq![id] + flushes(records.drop_last()),
            _ => flushes(records.drop_last()),
        }
    }
}

/// The ids of the logged mem-tables, from the newest on.
pub open spec fn created(records: Seq<ManifestRecord>) -> Seq<usize>
    decreases records.len(),
{
    if records.len() == 0 {
        Seq::empty()
    } else {
        match records.last() {
            ManifestRecord::NewMemtable(id) => seq![id] + created(records.drop_last()),
            _ => created(records.drop_last()),
        }
    }
}

/// The ids of the logged mem-tables that have not been flushed, from the newest on.
pub open spec fn pending(records: Seq<ManifestRecord>) -> Seq<usize>
    decreases records.len(),
{
    if records.len() == 0 {
        Seq::empty()
    } else {
        match records.last() {
            ManifestRecord::NewMemtable(id) => seq![id] + pending(records.drop_last()),
            ManifestRecord::Flush(id) => ids::without(pending(records.drop_last()), seq![id]),
            ManifestRecord::Compaction(_, _) => pending(records.drop_last()),
        }
    }
}

/// There are no compactions, and no mem-table is created after it has been flushed.
pub open spec fn in_order(records: Seq<ManifestRecord>) -> bool
    decreases records.len(),
{
    if records.len() == 0 {
        true
    } else {
        in_order(records.drop_last()) && match records.last() {
            ManifestRecord::Flush(_) => true,
            ManifestRecord::NewMemtable(id) => !flushes(records.drop_last()).contains(id),
            ManifestRecord::Compaction(_, _) => false,
        }
    }
}

/// Batches of one entry each.
pub open spec fn singles(es: Seq<VEntry>) -> Seq<Seq<VEntry>> {
    Seq::new(es.len(), |i: int| seq![es[i]])
}

/// The bytes are a log of entries that `m` is the result of.
pub open spec fn logs(bytes: Seq<u8>, m: Map<VKey, Seq<u8>>) -> bool {
    exists|es: Seq<VEntry>| #[trigger] logs_entries(bytes, es) && wal::put_all(Map::empty(), es) == m
}

/// The bytes are a log of the entries.
pub open spec fn logs_entries(bytes: Seq<u8>, es: Seq<VEntry>) -> bool {
    bytes == codec::concat(wal::log_chunks(singles(es))) && block::entries_fit(es)
}

/// The WAL of a mem-table is there, and `m` is what it holds.
pub open spec fn wal_holds(d: Disk, id: usize, m: Map<VKey, Seq<u8>>) -> bool {
    d.wals.contains_key(id) && logs(d.wals[id], m)
}

/// The ids of the mem-tables that have a WAL.
pub open spec fn logged_ids(mems: Seq<VMem>) -> Seq<usize>
    decreases mems.len(),
{
    if mems.len() == 0 {
        Seq::empty()
    } else if mems.last().log is Some {
        logged_ids(mems.drop_last()).push(mems.last().id)
    } else {
        logged_ids(mems.drop_last())
    }
}

/// What the mem-tables say that have a WAL.
pub open spec fn logged_layers(mems: Seq<VMem>) -> Seq<Map<VKey, Seq<u8>>>
    decreases mems.len(),
{
    if mems.len() == 0 {
        Seq::empty()
    } else if mems.last().log is Some {
        logged_layers(mems.drop_last()).push(mems.last().contents)
    } else {
        logged_layers(mems.drop_last())
    }
}

/// What the mem-tables say.
pub open spec fn all_layers(mems: Seq<VMem>) -> Seq<Map<VKey, Seq<u8>>> {
    Seq::new(mems.len(), |i: int| mems[i].contents)
}

/// What the flushed tables say, from the newest on.
pub open spec fn flushed_layers(d: Disk) -> Seq<Map<VKey, Seq<u8>>> {
    state::table_layers(d.ssts, flushes(d.records))
}

/// A table has been written as it was built.
pub open spec fn table_stored(d: Disk, id: usize) -> bool {
    &&& d.ssts.contains_key(id)
    &&& d.ssts[id].id == id
    &&& d.ssts[id].wf()
    &&& table::builder::is_built(*d.ssts[id])
}

/// The files follow the mem-tables: those with a WAL are the ones that were logged and not flushed,
/// and their WALs hold what they hold. Of the flushed ones the tables have been written. No id has
/// stood for two of them.
pub open spec fn mirrored(d: Disk, w: WriteState) -> bool {
    let flushed = flushes(d.records);
    &&& w.mems.len() > 0
    &&& forall|i: int|
        0 <= i < w.mems.len() ==> (#[trigger] w.mems[i]).id < w.next && !flushed.contains(
            w.mems[i].id,
        )
    &&& forall|i: int, j: int|
        #![trigger w.mems[i], w.mems[j]]
        0 <= i < j < w.mems.len() ==> w.mems[i].id != w.mems[j].id
    &&& forall|i: int|
        0 <= i < flushed.len() ==> #[trigger] flushed[i] < w.next && table_stored(d, flushed[i])
    &&& forall|i: int, j: int|
        #![trigger flushed[i], flushed[j]]
        0 <= i < j < flushed.len() ==> flushed[i] != flushed[j]
    &&& in_order(d.records)
    &&& pending(d.records) == logged_ids(w.mems)
    &&& forall|i: int|
        0 <= i < w.mems.len() && (#[trigger] w.mems[i]).log is Some ==> wal_holds(
            d,
            w.mems[i].id,
            w.mems[i].contents,
        )
    &&& forall|id: usize| #[trigger]
        created(d.records).contains(id) ==> pending(d.records).contains(id) || (flushed.contains(id)
            && wal_holds(d, id, merging::to_map(d.ssts[id].entries())))
    &&& forall|id: usize| #[trigger]
        d.wals.contains_key(id) ==> created(d.records).contains(id)
}

/// One more entry in a log.
proof fn lemma_log_push(bytes: Seq<u8>, m: Map<VKey, Seq<u8>>, e: VEntry)
    requires
        logs(bytes, m),
        block::entry_fits(e),
    ensures
        logs(bytes + wal::batch_bytes(seq![e]), m.insert(e.key, e.value)),
{
    let es = choose|es: Seq<VEntry>| #[trigger]
        logs_entries(bytes, es) && wal::put_all(Map::empty(), es) == m;
    let more = es.push(e);
    let chunks = wal::log_chunks(singles(es));
    assert(wal::log_chunks(singles(more)) =~= chunks.push(wal::batch_bytes(seq![e])));
    codec::lemma_concat_push(chunks, wal::batch_bytes(seq![e]));
    wal::lemma_put_all_push(Map::empty(), es, e);
    assert(logs_entries(bytes + wal::batch_bytes(seq![e]), more));
}

/// An empty log.
proof fn lemma_log_start()
    ensures
        logs(Seq::empty(), Map::empty()),
{
    let es = Seq::<VEntry>::empty();
    assert(wal::log_chunks(singles(es)) =~= Seq::empty());
    assert(logs_entries(Seq::empty(), es));
}

/// Actions one after another.
proof fn lemma_performed_concat(d: Disk, a: Seq<VAction>, b: Seq<VAction>)
    ensures
        all_performed(d, a + b) == all_performed(all_performed(d, a), b),
    decreases b.len(),
{
    if b.len() == 0 {
        assert(a + b =~= a);
    } else {
        lemma_performed_concat(d, a, b.drop_last());
        assert((a + b).drop_last() =~= a + b.drop_last());
    }
}

proof fn lemma_performed_one(d: Disk, a: VAction)
    ensures
        all_performed(d, seq![a]) == performed(d, a),
{
    assert(seq![a].drop_last() =~= Seq::empty());
    assert(all_performed(d, seq![a].drop_last()) == d);
}

proof fn lemma_performed_two(d: Disk, a: VAction, b: VAction)
    ensures
        all_performed(d, seq![a, b]) == performed(performed(d, a), b),
{
    assert(seq![a, b] =~= seq![a] + seq![b]);
    lemma_performed_concat(d, seq![a], seq![b]);
    lemma_performed_one(d, a);
    lemma_performed_one(performed(d, a), b);
}

/// The ids of mem-tables with one more in front.
proof fn lemma_logged_cons(m: VMem, mems: Seq<VMem>)
    ensures
        logged_ids(seq![m] + mems) == (if m.log is Some {
            seq![m.id]
        } else {
            Seq::empty()
        }) + logged_ids(mems),
        logged_layers(seq![m] + mems) == (if m.log is Some {
            seq![m.contents]
        } else {
            Seq::empty()
        }) + logged_layers(mems),
    decreases mems.len(),
{
    let all = seq![m] + mems;
    if mems.len() == 0 {
        assert(all.drop_last() =~= Seq::empty());
        assert(all.last() == m);
        assert(logged_ids(all.drop_last()) =~= Seq::empty());
        assert(logged_layers(all.drop_last()) =~= Seq::empty());
        assert(logged_ids(mems) =~= Seq::empty());
        assert(logged_layers(mems) =~= Seq::empty());
    } else {
        assert(all.drop_last() =~= seq![m] + mems.drop_last());
        assert(all.last() == mems.last());
        lemma_logged_cons(m, mems.drop_last());
    }
    let first = if m.log is Some {
        seq![m.id]
    } else {
        Seq::empty()
    };
    let layer = if m.log is Some {
        seq![m.contents]
    } else {
        Seq::empty()
    };
    assert(logged_ids(all) =~= first + logged_ids(mems));
    assert(logged_layers(all) =~= layer + logged_layers(mems));
}

/// Which ids are logged depends on the ids and on who has a WAL.
proof fn lemma_logged_same(a: Seq<VMem>, b: Seq<VMem>)
    requires
        a.len() == b.len(),
        forall|i: int|
            0 <= i < a.len() ==> (#[trigger] a[i]).id == b[i].id && (a[i].log is Some
                <==> b[i].log is Some),
    ensures
        logged_ids(a) == logged_ids(b),
    decreases a.len(),
{
    if a.len() > 0 {
        assert(a[a.len() - 1].id == b[a.len() - 1].id);
        assert forall|i: int| 0 <= i < a.drop_last().len() implies (#[trigger] a.drop_last()[i]).id
            == b.drop_last()[i].id && (a.drop_last()[i].log is Some
            <==> b.drop_last()[i].log is Some) by {
            assert(a[i].id == b[i].id);
        }
        lemma_logged_same(a.drop_last(), b.drop_last());
    }
}

/// The mem-table that a logged id stands for.
proof fn lemma_logged_at(mems: Seq<VMem>, j: int) -> (i: int)
    requires
        0 <= j < logged_ids(mems).len(),
    ensures
        0 <= i < mems.len(),
        mems[i].log is Some,
        mems[i].id == logged_ids(mems)[j],
        logged_layers(mems).len() == logged_ids(mems).len(),
        logged_layers(mems)[j] == mems[i].contents,
    decreases mems.len(),
{
    lemma_logged_len(mems);
    let front = mems.drop_last();
    lemma_logged_len(front);
    if mems.last().log is Some && j == logged_ids(front).len() {
        mems.len() - 1
    } else {
        lemma_logged_at(front, j)
    }
}

proof fn lemma_logged_len(mems: Seq<VMem>)
    ensures
        logged_layers(mems).len() == logged_ids(mems).len(),
    decreases mems.len(),
{
    if mems.len() > 0 {
        lemma_logged_len(mems.drop_last());
    }
}

/// A mem-table with a WAL is logged.
proof fn lemma_logged_listed(mems: Seq<VMem>, i: int)
    requires
        0 <= i < mems.len(),
        mems[i].log is Some,
    ensures
        logged_ids(mems).contains(mems[i].id),
    decreases mems.len(),
{
    let front = mems.drop_last();
    if i < front.len() {
        lemma_logged_listed(front, i);
        assert(front[i] == mems[i]);
        let j = logged_ids(front).index_of(mems[i].id);
        assert(logged_ids(mems)[j] == mems[i].id);
    } else {
        assert(logged_ids(mems)[logged_ids(front).len() as int] == mems[i].id);
    }
}

/// Mem-tables with different ids give different ids.
proof fn lemma_logged_distinct(mems: Seq<VMem>, i: int, j: int)
    requires
        forall|i: int, j: int|
            #![trigger mems[i], mems[j]]
            0 <= i < j < mems.len() ==> mems[i].id != mems[j].id,
        0 <= i < j < logged_ids(mems).len(),
    ensures
        logged_ids(mems)[i] != logged_ids(mems)[j],
    decreases mems.len(),
{
    let front = mems.drop_last();
    if mems.last().log is Some && j == logged_ids(front).len() {
        let x = lemma_logged_at(front, i);
        assert(front[x] == mems[x]);
        assert(mems[x].id != mems[mems.len() - 1].id);
    } else {
        assert forall|i: int, j: int|
            #![trigger front[i], front[j]]
            0 <= i < j < front.len() implies front[i].id != front[j].id by {
            assert(front[i] == mems[i]);
            assert(front[j] == mems[j]);
        }
        lemma_logged_distinct(front, i, j);
    }
}

/// A list without an id that is not in it.
proof fn lemma_without_other(s: Seq<usize>, id: usize)
    requires
        !s.contains(id),
    ensures
        ids::without(s, seq![id]) == s,
    decreases s.len(),
{
    if s.len() > 0 {
        let front = s.drop_last();
        assert(s[s.len() - 1] != id);
        assert(!seq![id].contains(s.last())) by {
            if seq![id].contains(s.last()) {
                let i = seq![id].index_of(s.last());
                assert(seq![id][i] == id);
            }
        }
        assert(!front.contains(id)) by {
            if front.contains(id) {
                let i = front.index_of(id);
                assert(s[i] == id);
            }
        }
        lemma_without_other(front, id);
        assert(front.push(s.last()) =~= s);
    }
}

/// From the next id on, no id has been used for a WAL or a flushed table.
proof fn lemma_next_is_free(d: Disk, w: WriteState)
    requires
        mirrored(d, w),
        0 <= w.next <= usize::MAX,
    ensures
        forall|id: usize|
            id >= w.next ==> !(#[trigger] created(d.records).contains(id)) && !d.wals.contains_key(
                id,
            ) && !flushes(d.records).contains(id),
{
    assert forall|id: usize| id >= w.next implies !(#[trigger] created(d.records).contains(id))
        && !d.wals.contains_key(id) && !flushes(d.records).contains(id) by {
        let flushed = flushes(d.records);
        if flushed.contains(id) {
            let i = flushed.index_of(id);
            assert(flushed[i] < w.next);
        }
        if pending(d.records).contains(id) {
            let j = pending(d.records).index_of(id);
            let i = lemma_logged_at(w.mems, j);
            assert(w.mems[i].id < w.next);
        }
    }
}

/// What actions leave as it is that neither flush nor write tables.
pub open spec fn same_flushes(d: Disk, f: Disk) -> bool {
    f.ssts == d.ssts && flushes(f.records) == flushes(d.records)
}

/// Freezing keeps the files in step.
proof fn lemma_freeze_mirrored(d: Disk, w: WriteState, options: LsmStorageOptions)
    requires
        mirrored(d, w),
        0 <= w.next < usize::MAX,
    ensures
        ({
            let (after, actions) = engine::freeze_effects(w, options);
            mirrored(all_performed(d, actions), after) && same_flushes(
                d,
                all_performed(d, actions),
            )
        }),
{
    let (after, actions) = engine::freeze_effects(w, options);
    let id = w.next as usize;
    let synced = if w.mems[0].log is Some {
        seq![VAction::SyncWal(w.mems[0].id)]
    } else {
        Seq::empty()
    };
    let record = ManifestRecord::NewMemtable(id);
    let creating = if options.enable_wal {
        seq![VAction::CreateWal(id), VAction::WriteManifest(record)]
    } else {
        Seq::empty()
    };
    assert(actions == synced + creating);
    lemma_performed_concat(d, synced, creating);
    if w.mems[0].log is Some {
        lemma_performed_one(d, VAction::SyncWal(w.mems[0].id));
    }
    assert(all_performed(d, synced) == d);
    let e = all_performed(d, creating);
    lemma_next_is_free(d, w);
    assert(!created(d.records).contains(id));
    if options.enable_wal {
        lemma_performed_two(d, VAction::CreateWal(id), VAction::WriteManifest(record));
        assert(e.records =~= d.records.push(record));
        assert(e.records.drop_last() =~= d.records);
        assert(e.wals == d.wals.insert(id, Seq::empty()));
        lemma_log_start();
        assert(created(e.records) =~= seq![id] + created(d.records));
        assert(pending(e.records) =~= seq![id] + pending(d.records));
        assert(flushes(e.records) =~= flushes(d.records));
    }
    assert(all_performed(d, actions) == e);
    lemma_logged_cons(after.mems[0], w.mems);
    assert(pending(e.records) =~= logged_ids(after.mems));
    let flushed = flushes(d.records);
    assert forall|i: int| 0 <= i < after.mems.len() implies (#[trigger] after.mems[i]).id
        < after.next && !flushed.contains(after.mems[i].id) && (after.mems[i].log is Some
        ==> wal_holds(e, after.mems[i].id, after.mems[i].contents)) by {
        if i > 0 {
            assert(after.mems[i] == w.mems[i - 1]);
        }
    }
    assert forall|i: int, j: int|
        #![trigger after.mems[i], after.mems[j]]
        0 <= i < j < after.mems.len() implies after.mems[i].id != after.mems[j].id by {
        assert(after.mems[j] == w.mems[j - 1]);
        if i > 0 {
            assert(after.mems[i] == w.mems[i - 1]);
        }
    }
    assert forall|i: int| 0 <= i < flushed.len() implies #[trigger] flushed[i] < after.next
        && table_stored(e, flushed[i]) by {
        assert(table_stored(d, flushed[i]));
    }
    assert forall|x: usize| #[trigger] created(e.records).contains(x) implies pending(
        e.records,
    ).contains(x) || (flushed.contains(x) && wal_holds(
        e,
        x,
        merging::to_map(e.ssts[x].entries()),
    )) by {
        if options.enable_wal {
            if x == id {
                assert(pending(e.records)[0] == id);
            } else {
                let i = created(e.records).index_of(x);
                assert(created(d.records)[i - 1] == x);
                assert(created(d.records).contains(x));
                if pending(d.records).contains(x) {
                    let j = pending(d.records).index_of(x);
                    assert(pending(e.records)[j + 1] == x);
                }
            }
        }
    }
    assert forall|x: usize| #[trigger] e.wals.contains_key(x) implies created(e.records).contains(
        x,
    ) by {
        if options.enable_wal {
            if x == id {
                assert(created(e.records)[0] == id);
            } else {
                assert(d.wals.contains_key(x));
                let i = created(d.records).index_of(x);
                assert(created(e.records)[i + 1] == x);
            }
        }
    }
}

/// The files after an entry has been put into the newest mem-table, before that is frozen.
spec fn logged(d: Disk, m: VMem, e: VEntry) -> Disk {
    if m.log is Some {
        performed(d, VAction::AppendWal(m.id, wal::batch_bytes(seq![e])))
    } else {
        d
    }
}

proof fn lemma_put_logged(d: Disk, w: WriteState, e: VEntry)
    requires
        mirrored(d, w),
        block::entry_fits(e),
    ensures
        ({
            let m = engine::put_mem(w.mems[0], e);
            let put = WriteState { mems: w.mems.update(0, m), next: w.next };
            mirrored(logged(d, m, e), put) && same_flushes(d, logged(d, m, e))
        }),
{
    let m = engine::put_mem(w.mems[0], e);
    let put = WriteState { mems: w.mems.update(0, m), next: w.next };
    let f = logged(d, m, e);
    let flushed = flushes(d.records);
    lemma_logged_same(w.mems, put.mems);
    assert(!flushed.contains(w.mems[0].id));
    if m.log is Some {
        assert(w.mems[0].log is Some);
        assert(wal_holds(d, w.mems[0].id, w.mems[0].contents));
    }
    assert forall|i: int| 0 <= i < put.mems.len() implies (#[trigger] put.mems[i]).id < put.next
        && !flushed.contains(put.mems[i].id) && (put.mems[i].log is Some ==> wal_holds(
        f,
        put.mems[i].id,
        put.mems[i].contents,
    )) by {
        assert(w.mems[i].id == put.mems[i].id);
        if w.mems[i].log is Some {
            assert(wal_holds(d, w.mems[i].id, w.mems[i].contents));
            if i == 0 {
                lemma_log_push(d.wals[m.id], w.mems[0].contents, e);
            } else {
                assert(w.mems[0].id != w.mems[i].id);
            }
        }
    }
    assert forall|i: int, j: int|
        #![trigger put.mems[i], put.mems[j]]
        0 <= i < j < put.mems.len() implies put.mems[i].id != put.mems[j].id by {
        assert(w.mems[i].id == put.mems[i].id);
        assert(w.mems[j].id == put.mems[j].id);
    }
    assert forall|i: int| 0 <= i < flushed.len() implies #[trigger] flushed[i] < put.next
        && table_stored(f, flushed[i]) by {
        assert(table_stored(d, flushed[i]));
    }
}

/// Putting an entry keeps the files in step.
proof fn lemma_put_mirrored(d: Disk, w: WriteState, e: VEntry, options: LsmStorageOptions)
    requires
        mirrored(d, w),
        block::entry_fits(e),
        0 <= w.next,
        engine::put_effects(w, e, options).0.next <= usize::MAX,
    ensures
        ({
            let (after, actions) = engine::put_effects(w, e, options);
            mirrored(all_performed(d, actions), after) && same_flushes(
                d,
                all_performed(d, actions),
            )
        }),
{
    let (after, actions) = engine::put_effects(w, e, options);
    let m = engine::put_mem(w.mems[0], e);
    let put = WriteState { mems: w.mems.update(0, m), next: w.next };
    let a = VAction::AppendWal(m.id, wal::batch_bytes(seq![e]));
    let first = if m.log is Some {
        seq![a]
    } else {
        Seq::empty()
    };
    lemma_put_logged(d, w, e);
    lemma_performed_one(d, a);
    let f = logged(d, m, e);
    assert(all_performed(d, first) == f);
    if m.size > options.target_sst_size {
        let more = engine::freeze_effects(put, options).1;
        lemma_performed_concat(d, first, more);
        lemma_freeze_mirrored(f, put, options);
    }
}

/// Ids only grow.
proof fn lemma_next_grows(w: WriteState, es: Seq<VEntry>, options: LsmStorageOptions)
    ensures
        w.next <= engine::batch_effects(w, es, options).0.next,
    decreases es.len(),
{
    if es.len() > 0 {
        lemma_next_grows(w, es.drop_last(), options);
    }
}

/// Putting entries one after another keeps the files in step.
proof fn lemma_batch_mirrored(d: Disk, w: WriteState, es: Seq<VEntry>, options: LsmStorageOptions)
    requires
        mirrored(d, w),
        block::entries_fit(es),
        0 <= w.next,
        engine::batch_effects(w, es, options).0.next <= usize::MAX,
    ensures
        ({
            let (after, actions) = engine::batch_effects(w, es, options);
            mirrored(all_performed(d, actions), after) && same_flushes(
                d,
                all_performed(d, actions),
            )
        }),
    decreases es.len(),
{
    if es.len() > 0 {
        let front = es.drop_last();
        let (before, done) = engine::batch_effects(w, front, options);
        let (after, more) = engine::put_effects(before, es.last(), options);
        assert forall|i: int| 0 <= i < front.len() implies block::entry_fits(
            #[trigger] front[i],
        ) by {
            assert(front[i] == es[i]);
        }
        assert(block::entry_fits(es[es.len() - 1]));
        lemma_next_grows(w, front, options);
        lemma_batch_mirrored(d, w, front, options);
        lemma_performed_concat(d, done, more);
        lemma_put_mirrored(all_performed(d, done), before, es.last(), options);
    }
}

/// What putting an entry makes of the layers.
proof fn lemma_put_layers(
    w: WriteState,
    below: Seq<Map<VKey, Seq<u8>>>,
    e: VEntry,
    options: LsmStorageOptions,
)
    requires
        w.mems.len() > 0,
        laws::layers_aged(all_layers(w.mems) + below),
        laws::no_newer(merging::union_layers(all_layers(w.mems) + below), e.key.ts),
    ensures
        ({
            let after = all_layers(engine::put_effects(w, e, options).0.mems) + below;
            &&& engine::put_effects(w, e, options).0.mems.len() > 0
            &&& laws::layers_aged(after)
            &&& merging::union_layers(after) == merging::union_layers(
                all_layers(w.mems) + below,
            ).insert(e.key, e.value)
        }),
{
    let layers = all_layers(w.mems) + below;
    let m = engine::put_mem(w.mems[0], e);
    let put = WriteState { mems: w.mems.update(0, m), next: w.next };
    let now = all_layers(put.mems) + below;
    assert(now =~= layers.update(0, layers[0].insert(e.key, e.value)));
    laws::lemma_aged_put(layers, e);
    engine::lemma_put_into_first(layers, e);
    if m.size > options.target_sst_size {
        let frozen = engine::freeze_effects(put, options).0;
        assert(all_layers(frozen.mems) + below =~= seq![Map::<VKey, Seq<u8>>::empty()] + now);
        laws::lemma_aged_cons(now);
        engine::lemma_empty_layer(now);
    }
}

/// What putting entries at one timestamp makes of the layers.
proof fn lemma_batch_layers(
    w: WriteState,
    below: Seq<Map<VKey, Seq<u8>>>,
    es: Seq<VEntry>,
    options: LsmStorageOptions,
    ts: u64,
)
    requires
        w.mems.len() > 0,
        laws::layers_aged(all_layers(w.mems) + below),
        laws::no_newer(merging::union_layers(all_layers(w.mems) + below), ts),
        forall|i: int| 0 <= i < es.len() ==> (#[trigger] es[i]).key.ts == ts,
    ensures
        ({
            let after = all_layers(engine::batch_effects(w, es, options).0.mems) + below;
            &&& engine::batch_effects(w, es, options).0.mems.len() > 0
            &&& laws::layers_aged(after)
            &&& laws::no_newer(merging::union_layers(after), ts)
            &&& merging::union_layers(after) == wal::put_all(
                merging::union_layers(all_layers(w.mems) + below),
                es,
            )
        }),
    decreases es.len(),
{
    if es.len() > 0 {
        let front = es.drop_last();
        let e = es.last();
        assert(es[es.len() - 1].key.ts == ts);
        assert forall|i: int| 0 <= i < front.len() implies (#[trigger] front[i]).key.ts == ts by {
            assert(front[i] == es[i]);
        }
        lemma_batch_layers(w, below, front, options, ts);
        let before = engine::batch_effects(w, front, options).0;
        lemma_put_layers(before, below, e, options);
        wal::lemma_put_all_push(merging::union_layers(all_layers(w.mems) + below), front, e);
        assert(front.push(e) =~= es);
    }
}

/// No reader can tell the two apart.
pub open spec fn same_seen(m: Map<VKey, Seq<u8>>, n: Map<VKey, Seq<u8>>) -> bool {
    forall|k: Seq<u8>, ts: u64| #[trigger] read::seen(m, k, ts) == read::seen(n, k, ts)
}

/// What the mem-tables and the flushed tables say, from the newest on, whatever compactions have
/// made of the tables since.
pub open spec fn kept_layers(d: Disk, e: LsmStorageInner) -> Seq<Map<VKey, Seq<u8>>> {
    all_layers(e.write_state().mems) + flushed_layers(d)
}

/// The files are those of the engine: they follow its mem-tables, and together with the mem-tables
/// they show every reader what the engine shows.
pub open spec fn in_step(d: Disk, e: LsmStorageInner) -> bool {
    let kept = kept_layers(d, e);
    &&& e.compaction_controller == recovery::controller_for(e.options.compaction_options)
    &&& mirrored(d, e.write_state())
    &&& e.aged()
    &&& laws::layers_aged(kept)
    &&& laws::no_newer(merging::union_layers(kept), e.mvcc.ts.0)
    &&& same_seen(merging::union_layers(kept), e.contents())
}

/// A new engine has no files.
pub proof fn lemma_new_in_step(e: LsmStorageInner, options: LsmStorageOptions)
    requires
        e.is_new(options),
        e.is_fresh(options),
        e.aged(),
    ensures
        in_step(no_files(), e),
{
    let d = no_files();
    let w = e.write_state();
    assert(w.mems =~= seq![engine::mem_view(e.state.memtable)]);
    assert(flushes(d.records) =~= Seq::empty());
    assert(created(d.records) =~= Seq::empty());
    assert(pending(d.records) =~= Seq::empty());
    lemma_logged_cons(w.mems[0], Seq::empty());
    assert(seq![w.mems[0]] + Seq::<VMem>::empty() =~= w.mems);
    assert(logged_ids(Seq::<VMem>::empty()) =~= Seq::empty());
    assert(logged_ids(w.mems) =~= Seq::empty());
    let kept = kept_layers(d, e);
    let nothing = Map::<VKey, Seq<u8>>::empty();
    assert(kept =~= seq![nothing]);
    lemma_union_nothing(kept);
    let s = e.state;
    let above = state::mem_layers(s) + state::table_layers(s.sstables@, s.l0_sstables@);
    assert(above =~= seq![nothing]);
    lemma_union_nothing(above);
    lemma_empty_levels(s.sstables@, s.levels@);
    merging::lemma_union_concat(above, state::level_layers(s.sstables@, s.levels@));
    assert(e.contents() =~= nothing);
}

/// Once the actions of a write have been performed, the files are in step with the engine again.
pub proof fn lemma_write_in_step(
    d: Disk,
    before: LsmStorageInner,
    after: LsmStorageInner,
    es: Seq<VEntry>,
    actions: Seq<Action>,
)
    requires
        before.wf(),
        before.mvcc.ts.0 < u64::MAX,
        in_step(d, before),
        after.written(before, es, actions),
        block::entries_fit(es),
        forall|i: int|
            0 <= i < es.len() ==> (#[trigger] es[i]).key.ts == before.mvcc.ts.0 + 1,
    ensures
        in_step(all_performed(d, engine::action_views(actions)), after),
{
    let f = all_performed(d, engine::action_views(actions));
    let w = before.write_state();
    let ts = (before.mvcc.ts.0 + 1) as u64;
    lemma_batch_mirrored(d, w, es, before.options);
    let below = flushed_layers(d);
    assert(flushed_layers(f) == below);
    let m = merging::union_layers(kept_layers(d, before));
    assert forall|x: VKey| #[trigger] m.contains_key(x) implies x.ts <= ts by {}
    lemma_batch_layers(w, below, es, before.options, ts);
    let n = before.contents();
    assert forall|k: Seq<u8>, t: u64| #[trigger]
        read::seen(wal::put_all(m, es), k, t) == read::seen(wal::put_all(n, es), k, t) by {
        laws::lemma_put_seen(m, es, before.mvcc.ts.0, k, t);
        laws::lemma_put_seen(n, es, before.mvcc.ts.0, k, t);
        assert(read::seen(m, k, t) == read::seen(n, k, t));
    }
}

/// Once the actions of freezing a mem-table have been performed, the files are in step with the
/// engine again.
pub proof fn lemma_freeze_in_step(
    d: Disk,
    before: LsmStorageInner,
    after: LsmStorageInner,
    actions: Seq<Action>,
)
    requires
        in_step(d, before),
        before.froze(after, actions),
    ensures
        in_step(all_performed(d, engine::action_views(actions)), after),
{
    let f = all_performed(d, engine::action_views(actions));
    lemma_freeze_mirrored(d, before.write_state(), before.options);
    let kept = kept_layers(d, before);
    assert(kept_layers(f, after) =~= seq![Map::<VKey, Seq<u8>>::empty()] + kept);
    laws::lemma_aged_cons(kept);
    engine::lemma_empty_layer(kept);
}

/// Once the actions of flushing a mem-table have been performed, the files are in step with the
/// engine again.
pub proof fn lemma_flush_in_step(
    d: Disk,
    before: LsmStorageInner,
    after: LsmStorageInner,
    actions: Seq<Action>,
)
    requires
        before.wf(),
        before.ids_ok(),
        in_step(d, before),
        before.state.imm_memtables@.len() > 0,
        after.flushed(before, actions),
    ensures
        in_step(all_performed(d, engine::action_views(actions)), after),
{
    let f = all_performed(d, engine::action_views(actions));
    let w = before.write_state();
    let v = after.write_state();
    let mem = before.state.imm_memtables@.last();
    let id = mem.id;
    let sst = after.state.sstables@[id];
    lemma_flush_performed(d, before, after, actions);
    assert(v.mems =~= w.mems.drop_last());
    let last = w.mems.len() - 1;
    assert(w.mems[last] == engine::mem_view(mem));
    lemma_flush_mirrored(d, f, w, v, sst);
    laws::lemma_flush_keeps_contents(before, after, actions);
    let flushed = flushes(d.records);
    let now = flushes(f.records);
    assert(kept_layers(f, after) =~= kept_layers(d, before)) by {
        assert forall|i: int| 0 <= i < now.len() implies #[trigger] flushed_layers(f)[i] == if i
            == 0 {
            mem.contents()
        } else {
            flushed_layers(d)[i - 1]
        } by {
            if i > 0 {
                assert(now[i] == flushed[i - 1]);
                assert(now[0] != now[i]);
            }
        }
        let a = kept_layers(f, after);
        let b = kept_layers(d, before);
        assert(a.len() == b.len());
        assert forall|i: int| 0 <= i < a.len() implies a[i] == b[i] by {
            if i < last {
                assert(v.mems[i] == w.mems[i]);
            } else if i > last {
                assert(a[i] == flushed_layers(f)[i - last]);
                assert(b[i] == flushed_layers(d)[i - last - 1]);
            } else {
                assert(a[i] == flushed_layers(f)[0]);
            }
        }
    }
}

/// The files after a mem-table has been flushed.
proof fn lemma_flush_performed(
    d: Disk,
    before: LsmStorageInner,
    after: LsmStorageInner,
    actions: Seq<Action>,
)
    requires
        before.state.imm_memtables@.len() > 0,
        after.flushed(before, actions),
    ensures
        ({
            let f = all_performed(d, engine::action_views(actions));
            let id = before.state.imm_memtables@.last().id;
            &&& f.records == d.records.push(ManifestRecord::Flush(id))
            &&& f.ssts == d.ssts.insert(id, after.state.sstables@[id])
            &&& f.wals == d.wals
        }),
{
    let mem = before.state.imm_memtables@.last();
    let a = VAction::WriteSst(after.state.sstables@[mem.id]);
    let b = VAction::WriteManifest(ManifestRecord::Flush(mem.id));
    assert(engine::action_views(actions) =~= seq![a, VAction::SyncDir] + seq![b]);
    lemma_performed_concat(d, seq![a, VAction::SyncDir], seq![b]);
    lemma_performed_two(d, a, VAction::SyncDir);
    lemma_performed_one(performed(d, a), b);
}

proof fn lemma_flush_mirrored(d: Disk, f: Disk, w: WriteState, v: WriteState, sst: Arc<SsTable>)
    requires
        mirrored(d, w),
        w.mems.len() > 1,
        v.mems == w.mems.drop_last(),
        v.next == w.next,
        f.records == d.records.push(ManifestRecord::Flush(w.mems.last().id)),
        f.ssts == d.ssts.insert(w.mems.last().id, sst),
        f.wals == d.wals,
        sst.id == w.mems.last().id,
        sst.wf(),
        table::builder::is_built(*sst),
        merging::to_map(sst.entries()) == w.mems.last().contents,
    ensures
        mirrored(f, v),
        flushes(f.records) == seq![w.mems.last().id] + flushes(d.records),
{
    let last = w.mems.len() - 1;
    let id = w.mems[last].id;
    let flushed = flushes(d.records);
    let now = flushes(f.records);
    assert(f.records.drop_last() =~= d.records);
    assert(now =~= seq![id] + flushed);
    assert(!flushed.contains(id));
    assert forall|x: usize| #[trigger] now.contains(x) <==> x == id || flushed.contains(x) by {
        if flushed.contains(x) {
            let i = flushed.index_of(x);
            assert(now[i + 1] == x);
        }
        if x == id {
            assert(now[0] == x);
        }
        if now.contains(x) && x != id {
            let i = now.index_of(x);
            assert(flushed[i - 1] == x);
        }
    }
    assert forall|i: int| 0 <= i < v.mems.len() implies (#[trigger] v.mems[i]).id < v.next
        && !now.contains(v.mems[i].id) && (v.mems[i].log is Some ==> wal_holds(
        f,
        v.mems[i].id,
        v.mems[i].contents,
    )) by {
        assert(v.mems[i] == w.mems[i]);
        assert(w.mems[i].id != w.mems[last].id);
    }
    assert forall|i: int, j: int|
        #![trigger v.mems[i], v.mems[j]]
        0 <= i < j < v.mems.len() implies v.mems[i].id != v.mems[j].id by {
        assert(v.mems[i] == w.mems[i]);
        assert(v.mems[j] == w.mems[j]);
    }
    assert forall|i: int| 0 <= i < now.len() implies #[trigger] now[i] < v.next && table_stored(
        f,
        now[i],
    ) by {
        if i > 0 {
            assert(now[i] == flushed[i - 1]);
            assert(table_stored(d, flushed[i - 1]));
            assert(flushed.contains(flushed[i - 1]));
        } else {
            assert(w.mems[last].id < w.next);
        }
    }
    assert forall|i: int, j: int|
        #![trigger now[i], now[j]]
        0 <= i < j < now.len() implies now[i] != now[j] by {
        assert(now[j] == flushed[j - 1]);
        assert(flushed.contains(flushed[j - 1]));
        if i > 0 {
            assert(now[i] == flushed[i - 1]);
        }
    }
    lemma_flush_pending(d, w);
    assert(pending(f.records) == logged_ids(v.mems));
    assert(created(f.records) =~= created(d.records));
    assert forall|x: usize| #[trigger] created(f.records).contains(x) implies pending(
        f.records,
    ).contains(x) || (now.contains(x) && wal_holds(
        f,
        x,
        merging::to_map(f.ssts[x].entries()),
    )) by {
        assert(created(d.records).contains(x));
        if x == id {
            if pending(d.records).contains(x) {
                let j = pending(d.records).index_of(x);
                let i = lemma_logged_at(w.mems, j);
                if i != last {
                    assert(w.mems[i].id != w.mems[last].id);
                }
                assert(wal_holds(d, w.mems[i].id, w.mems[i].contents));
            }
        } else if pending(d.records).contains(x) {
            let j = pending(d.records).index_of(x);
            let i = lemma_logged_at(w.mems, j);
            assert(v.mems[i] == w.mems[i]);
            lemma_logged_listed(v.mems, i);
        }
    }
}

/// What is pending once the earliest mem-table has been flushed.
proof fn lemma_flush_pending(d: Disk, w: WriteState)
    requires
        mirrored(d, w),
    ensures
        ids::without(pending(d.records), seq![w.mems.last().id]) == logged_ids(
            w.mems.drop_last(),
        ),
{
    let front = w.mems.drop_last();
    let rest = logged_ids(front);
    let last = w.mems.len() - 1;
    let id = w.mems[last].id;
    if rest.contains(id) {
        let j = rest.index_of(id);
        let i = lemma_logged_at(front, j);
        assert(front[i] == w.mems[i]);
        assert(w.mems[i].id != w.mems[last].id);
    }
    lemma_without_other(rest, id);
    if w.mems.last().log is Some {
        let all = rest.push(id);
        assert(all.drop_last() =~= rest);
        assert(seq![id][0] == id);
        assert(seq![id].contains(all.last()));
    }
}

/// Writing the files of tables leaves everything else as it is.
proof fn lemma_tables_written(d: Disk, v: Seq<Arc<SsTable>>, n: int)
    requires
        forall|i: int| 0 <= i < v.len() ==> (#[trigger] v[i]).id >= n,
    ensures
        ({
            let f = all_performed(d, executor::write_tables(v));
            &&& f.records == d.records
            &&& f.wals == d.wals
            &&& forall|id: usize|
                id < n ==> (#[trigger] f.ssts.contains_key(id) <==> d.ssts.contains_key(id))
                    && f.ssts[id] == d.ssts[id]
        }),
    decreases v.len(),
{
    let actions = executor::write_tables(v);
    if v.len() > 0 {
        let front = v.drop_last();
        assert forall|i: int| 0 <= i < front.len() implies (#[trigger] front[i]).id >= n by {
            assert(front[i] == v[i]);
        }
        lemma_tables_written(d, front, n);
        assert(actions.drop_last() =~= executor::write_tables(front));
        assert(actions.last() == VAction::WriteSst(v.last()));
        assert(v[v.len() - 1].id >= n);
        let g = all_performed(d, executor::write_tables(front));
        let f = all_performed(d, actions);
        assert(f == performed(g, VAction::WriteSst(v.last())));
        assert forall|id: usize| id < n implies (#[trigger] f.ssts.contains_key(id)
            <==> d.ssts.contains_key(id)) && f.ssts[id] == d.ssts[id] by {
            assert(g.ssts.contains_key(id) <==> d.ssts.contains_key(id));
        }
    }
}

/// Once the tables of a compaction have been written, the files are in step with the engine again.
proof fn lemma_compaction_in_step(
    d: Disk,
    before: LsmStorageInner,
    after: LsmStorageInner,
    consumed: Seq<usize>,
    v: Seq<Arc<SsTable>>,
    actions: Seq<Action>,
)
    requires
        in_step(d, before),
        executor::tables_replaced(before, after, consumed, v, actions),
        executor::new_tables_ok(v, before.next_sst_id as int),
        after.state.memtable == before.state.memtable,
        after.state.imm_memtables == before.state.imm_memtables,
        after.aged(),
        same_seen(after.contents(), before.contents()),
    ensures
        in_step(all_performed(d, engine::action_views(actions)), after),
{
    let f = all_performed(d, engine::action_views(actions));
    let w = before.write_state();
    let x = after.write_state();
    lemma_tables_written(d, v, before.next_sst_id as int);
    assert(x.mems =~= w.mems);
    let flushed = flushes(d.records);
    assert forall|i: int| 0 <= i < flushed.len() implies #[trigger] flushed[i] < x.next
        && table_stored(f, flushed[i]) && f.ssts[flushed[i]] == d.ssts[flushed[i]] by {
        assert(table_stored(d, flushed[i]));
        assert(f.ssts.contains_key(flushed[i]) <==> d.ssts.contains_key(flushed[i]));
    }
    assert(flushed_layers(f) =~= flushed_layers(d));
    assert forall|id: usize| #[trigger] created(f.records).contains(id) implies pending(
        f.records,
    ).contains(id) || (flushed.contains(id) && wal_holds(
        f,
        id,
        merging::to_map(f.ssts[id].entries()),
    )) by {
        assert(created(d.records).contains(id));
        if flushed.contains(id) {
            let i = flushed.index_of(id);
            assert(f.ssts[flushed[i]] == d.ssts[flushed[i]]);
        }
    }
    assert forall|i: int| 0 <= i < x.mems.len() implies (#[trigger] x.mems[i]).id < x.next
        && !flushed.contains(x.mems[i].id) && (x.mems[i].log is Some ==> wal_holds(
        f,
        x.mems[i].id,
        x.mems[i].contents,
    )) by {
        assert(x.mems[i] == w.mems[i]);
    }
    let m = merging::union_layers(kept_layers(d, before));
    assert(kept_layers(f, after) =~= kept_layers(d, before));
    assert forall|k: Seq<u8>, ts: u64| #[trigger] read::seen(m, k, ts) == read::seen(
        after.contents(),
        k,
        ts,
    ) by {
        assert(read::seen(after.contents(), k, ts) == read::seen(before.contents(), k, ts));
    }
}

/// Once the tables of a full compaction have been written, the files are in step with the engine
/// again.
pub proof fn lemma_full_compaction_in_step(
    d: Disk,
    before: LsmStorageInner,
    after: LsmStorageInner,
    v: Seq<Arc<SsTable>>,
    actions: Seq<Action>,
)
    requires
        before.wf(),
        before.sst_ids_ok(),
        before.state.levels@.len() > 0,
        in_step(d, before),
        executor::fully_compacted(before, after, v, actions),
    ensures
        in_step(all_performed(d, engine::action_views(actions)), after),
{
    assert forall|k: Seq<u8>, ts: u64| #[trigger] read::seen(after.contents(), k, ts)
        == read::seen(before.contents(), k, ts) by {
        compact::laws::lemma_full_compaction_keeps(before, after, v, actions, k, ts);
    }
    compact::laws::lemma_full_compaction_keeps(before, after, v, actions, Seq::empty(), 0);
    let consumed = before.state.l0_sstables@ + before.state.levels@[0].1@;
    lemma_compaction_in_step(d, before, after, consumed, v, actions);
}

/// Once the tables of a simple leveled compaction have been written, the files are in step with the
/// engine again.
pub proof fn lemma_simple_compaction_in_step(
    options: SimpleLeveledCompactionOptions,
    d: Disk,
    before: LsmStorageInner,
    after: LsmStorageInner,
    task: SimpleLeveledCompactionTask,
    v: Seq<Arc<SsTable>>,
    actions: Seq<Action>,
)
    requires
        before.wf(),
        before.sst_ids_ok(),
        in_step(d, before),
        simple_leveled::can_generate(options, before.state),
        simple_leveled::generated(options, before.state, Some(task)),
        executor::simple_compacted(before, after, task, v, actions),
    ensures
        in_step(all_performed(d, engine::action_views(actions)), after),
{
    assert forall|k: Seq<u8>, ts: u64| #[trigger] read::seen(after.contents(), k, ts)
        == read::seen(before.contents(), k, ts) by {
        compact::laws::lemma_simple_compaction_keeps(
            options,
            before,
            after,
            task,
            v,
            actions,
            k,
            ts,
        );
    }
    compact::laws::lemma_simple_compaction_keeps(
        options,
        before,
        after,
        task,
        v,
        actions,
        Seq::empty(),
        0,
    );
    let consumed = simple_leveled::simple_consumed(before.state, task);
    lemma_compaction_in_step(d, before, after, consumed, v, actions);
}

/// Once the tables of a tiered compaction have been written, the files are in step with the engine
/// again.
pub proof fn lemma_tiered_compaction_in_step(
    options: TieredCompactionOptions,
    d: Disk,
    before: LsmStorageInner,
    after: LsmStorageInner,
    task: TieredCompactionTask,
    v: Seq<Arc<SsTable>>,
    actions: Seq<Action>,
)
    requires
        before.wf(),
        before.sst_ids_ok(),
        in_step(d, before),
        tiered::has_tiers(before.state.levels@, options),
        tiered::tiers_generated(options, before.state, Some(task)),
        executor::tiers_compacted(before, after, task, v, actions),
    ensures
        in_step(all_performed(d, engine::action_views(actions)), after),
{
    assert forall|k: Seq<u8>, ts: u64| #[trigger] read::seen(after.contents(), k, ts)
        == read::seen(before.contents(), k, ts) by {
        compact::laws::lemma_tiered_compaction_keeps(
            options,
            before,
            after,
            task,
            v,
            actions,
            k,
            ts,
        );
    }
    compact::laws::lemma_tiered_compaction_keeps(
        options,
        before,
        after,
        task,
        v,
        actions,
        Seq::empty(),
        0,
    );
    lemma_compaction_in_step(d, before, after, ids::tier_ids(task.tiers@), v, actions);
}

/// The tables of a state that comes back, in the order of the records: in L0, or one in each tier.
spec fn lists_back(c: CompactionController, flushed: Seq<usize>, s: LsmStorageState) -> bool {
    &&& forall|i: int| 0 <= i < s.levels@.len() ==> (#[trigger] s.levels@[i]).0 == i + 1
    &&& if c is Tiered {
        &&& s.l0_sstables@.len() == 0
        &&& s.levels@.len() == flushed.len()
        &&& forall|i: int|
            0 <= i < s.levels@.len() ==> (#[trigger] s.levels@[i]).1@ == seq![flushed[i]]
    } else {
        &&& s.l0_sstables@ == flushed
        &&& forall|i: int| 0 <= i < s.levels@.len() ==> (#[trigger] s.levels@[i]).1@.len() == 0
    }
}

/// What the state is after the records have been replayed, in the order of the records.
spec fn came_back(
    c: CompactionController,
    files: StoredFiles,
    records: Seq<ManifestRecord>,
    s: LsmStorageState,
) -> bool {
    &&& lists_back(c, flushes(records), s)
    &&& forall|id: usize| #[trigger]
        s.sstables@.contains_key(id) <==> flushes(records).contains(id)
    &&& forall|id: usize| #[trigger]
        s.sstables@.contains_key(id) ==> recovery::sst_loaded(files, id, Ok(s.sstables@[id]))
    &&& mems_back(files, pending(records), s.imm_memtables@)
    &&& s.memtable.contents() == Map::<VKey, Seq<u8>>::empty()
}

/// The mem-tables have the given ids and come from their WALs.
spec fn mems_back(files: StoredFiles, ids: Seq<usize>, mems: Seq<MemTable>) -> bool {
    &&& mems.len() == ids.len()
    &&& forall|i: int|
        0 <= i < mems.len() ==> (#[trigger] mems[i]).id == ids[i] && recovery::mem_recovered(
            files,
            ids[i],
            Ok(mems[i]),
        )
}

proof fn lemma_mems_without(files: StoredFiles, s: Seq<usize>, mems: Seq<MemTable>, id: usize)
    requires
        mems_back(files, s, mems),
    ensures
        mems_back(files, ids::without(s, seq![id]), recovery::without_mem(mems, id)),
    decreases mems.len(),
{
    if mems.len() > 0 {
        let front = mems.drop_last();
        let n = mems.len() - 1;
        assert(mems[n].id == s[n]);
        assert forall|i: int| 0 <= i < front.len() implies (#[trigger] front[i]).id
            == s.drop_last()[i] && recovery::mem_recovered(
            files,
            s.drop_last()[i],
            Ok(front[i]),
        ) by {
            assert(front[i] == mems[i]);
        }
        lemma_mems_without(files, s.drop_last(), front, id);
        assert(seq![id].contains(s.last()) <==> s.last() == id) by {
            if s.last() == id {
                assert(seq![id][0] == id);
            }
        }
    }
}

proof fn lemma_replayed(
    c: CompactionController,
    options: LsmStorageOptions,
    files: StoredFiles,
    records: Seq<ManifestRecord>,
    s: LsmStorageState,
)
    requires
        c == recovery::controller_for(options.compaction_options),
        recovery::replayed(c, options, files, records, s),
        in_order(records),
    ensures
        came_back(c, files, records, s),
    decreases records.len(),
{
    if records.len() == 0 {
        assert(s.l0_sstables@ =~= Seq::empty());
        assert(flushes(records) =~= Seq::empty());
        assert(pending(records) =~= Seq::empty());
    } else {
        let front = records.drop_last();
        let p = choose|p: LsmStorageState| #[trigger]
            recovery::record_replayed(c, files, records.last(), p, s) && recovery::replayed(
                c,
                options,
                files,
                front,
                p,
            );
        lemma_replayed(c, options, files, front, p);
        match records.last() {
            ManifestRecord::Flush(id) => {
                lemma_flush_back(c, files, records, p, s, id);
            },
            ManifestRecord::NewMemtable(id) => {
                let ids = pending(records);
                assert(!p.sstables@.contains_key(id));
                assert(ids =~= seq![id] + pending(front));
                assert forall|i: int| 0 <= i < s.imm_memtables@.len() implies (
                #[trigger] s.imm_memtables@[i]).id == ids[i] && recovery::mem_recovered(
                    files,
                    ids[i],
                    Ok(s.imm_memtables@[i]),
                ) by {
                    if i > 0 {
                        assert(s.imm_memtables@[i] == p.imm_memtables@[i - 1]);
                    }
                }
            },
            ManifestRecord::Compaction(_, _) => {},
        }
    }
}

/// Replaying a flush.
proof fn lemma_flush_back(
    c: CompactionController,
    files: StoredFiles,
    records: Seq<ManifestRecord>,
    p: LsmStorageState,
    s: LsmStorageState,
    id: usize,
)
    requires
        records.len() > 0,
        records.last() == ManifestRecord::Flush(id),
        came_back(c, files, records.drop_last(), p),
        recovery::flush_replayed(c, files, id, p, s),
    ensures
        came_back(c, files, records, s),
{
    let front = records.drop_last();
    let ids = flushes(records);
    assert(ids =~= seq![id] + flushes(front));
    assert forall|x: usize| #[trigger] s.sstables@.contains_key(x) <==> ids.contains(x) by {
        if flushes(front).contains(x) {
            let j = flushes(front).index_of(x);
            assert(ids[j + 1] == x);
        }
        if x == id {
            assert(ids[0] == x);
        }
        if ids.contains(x) && x != id {
            let j = ids.index_of(x);
            assert(flushes(front)[j - 1] == x);
        }
    }
    lemma_mems_without(files, pending(front), p.imm_memtables@, id);
    if c is Tiered {
        assert forall|i: int| 0 <= i < s.levels@.len() implies (#[trigger] s.levels@[i]).0 == i + 1
            && s.levels@[i].1@ == seq![ids[i]] by {
            if i > 0 {
                assert(p.levels@[i - 1].1@ == seq![flushes(front)[i - 1]]);
            }
        }
    }
}

/// The stored files have what the engine has written.
pub open spec fn files_of(d: Disk, files: StoredFiles) -> bool {
    &&& forall|id: usize| #[trigger]
        d.ssts.contains_key(id) ==> files.ssts@.contains_key(id) && files.ssts@[id]@
            == d.ssts[id].file.bytes()
    &&& forall|id: usize| #[trigger]
        d.wals.contains_key(id) ==> files.wals@.contains_key(id) && files.wals@[id]@ == d.wals[id]
}

proof fn lemma_flat_singles(es: Seq<VEntry>)
    ensures
        table::builder::flat(singles(es)) == es,
    decreases es.len(),
{
    if es.len() > 0 {
        lemma_flat_singles(es.drop_first());
        assert(singles(es).drop_first() =~= singles(es.drop_first()));
        assert(seq![es[0]] + es.drop_first() =~= es);
    } else {
        assert(singles(es) =~= Seq::empty());
    }
}

/// The log of a mem-table brings the mem-table back.
proof fn lemma_log_recovers(
    d: Disk,
    files: StoredFiles,
    id: usize,
    m: Map<VKey, Seq<u8>>,
    r: Result<MemTable, LsmError>,
)
    requires
        files_of(d, files),
        wal_holds(d, id, m),
        recovery::mem_recovered(files, id, r),
    ensures
        r matches Ok(t) && t.contents() == m,
{
    let es = choose|es: Seq<VEntry>| #[trigger]
        logs_entries(d.wals[id], es) && wal::put_all(Map::empty(), es) == m;
    lemma_singles_fit(es);
    recovery::lemma_logged_memtable_recovers(singles(es), id, files, r);
    lemma_flat_singles(es);
}

proof fn lemma_singles_fit(es: Seq<VEntry>)
    requires
        block::entries_fit(es),
    ensures
        forall|i: int|
            0 <= i < singles(es).len() ==> wal::batch_fits(#[trigger] singles(es)[i])
                && block::entries_fit(singles(es)[i]),
{
    assert forall|i: int| 0 <= i < singles(es).len() implies wal::batch_fits(
        #[trigger] singles(es)[i],
    ) && block::entries_fit(singles(es)[i]) by {
        let e = es[i];
        let one = seq![e];
        assert(block::entry_fits(es[i]));
        assert(singles(es)[i] == one);
        let chunks = wal::record_chunks(one);
        assert(chunks =~= seq![wal::record_bytes(e)]);
        assert(chunks.drop_last() =~= Seq::empty());
        assert(codec::concat(chunks.drop_last()) =~= Seq::empty());
        assert(wal::batch_body(one) =~= wal::record_bytes(e));
        codec::lemma_le_len(e.key.key.len(), 2);
        codec::lemma_le_len(e.value.len(), 2);
        codec::lemma_le_len(e.key.ts as nat, 8);
        assert(wal::record_bytes(e).len() == 12 + e.key.key.len() + e.value.len());
        assert forall|j: int| 0 <= j < one.len() implies wal::record_fits(#[trigger] one[j])
            && block::entry_fits(one[j]) by {
            assert(one[j] == e);
        }
    }
}

/// No table is larger than its offsets can say.
pub open spec fn offsets_fit(d: Disk) -> bool {
    forall|id: usize| #[trigger]
        d.ssts.contains_key(id) ==> d.ssts[id].file.bytes().len() <= u32::MAX
}

/// A stored table is loaded again as it was.
proof fn lemma_stored_loads(
    d: Disk,
    files: StoredFiles,
    id: usize,
    r: Result<Arc<SsTable>, LsmError>,
)
    requires
        files_of(d, files),
        offsets_fit(d),
        table_stored(d, id),
        recovery::sst_loaded(files, id, r),
    ensures
        r matches Ok(t) && t.wf() && t.id == id && t.entries() == d.ssts[id].entries() && t.max_ts
            == d.ssts[id].max_ts,
{
    let sst = d.ssts[id];
    let bytes = sst.file.bytes();
    assert(files.ssts@[id]@ == bytes);
    match r {
        Ok(t) => {
            table::builder::lemma_built_table_reopens(&*sst, &t.file, &*t);
        },
        Err(e) => {
            table::builder::lemma_built_table_reopens(&*sst, &sst.file, &*sst);
            let t = choose|t: SsTable| #[trigger] recovery::holds(bytes, id, t) && !t.wf();
            table::builder::lemma_built_table_reopens(&*sst, &t.file, &t);
        },
    }
}

/// What comes back after a restart: what the mem-tables hold that have a WAL, and what the flushed
/// tables hold.
pub open spec fn durable(d: Disk, e: LsmStorageInner) -> Map<VKey, Seq<u8>> {
    merging::union_layers(logged_layers(e.write_state().mems) + flushed_layers(d))
}

/// Layers that say nothing say nothing together.
proof fn lemma_union_nothing(layers: Seq<Map<VKey, Seq<u8>>>)
    requires
        forall|i: int|
            0 <= i < layers.len() ==> #[trigger] layers[i] == Map::<VKey, Seq<u8>>::empty(),
    ensures
        merging::union_layers(layers) == Map::<VKey, Seq<u8>>::empty(),
{
    assert forall|k: VKey| !merging::union_layers(layers).contains_key(k) by {
        merging::lemma_union_contains(layers, k);
    }
    assert(merging::union_layers(layers) =~= Map::<VKey, Seq<u8>>::empty());
}

/// Levels without tables say nothing.
proof fn lemma_empty_levels(tables: Map<usize, Arc<SsTable>>, levels: Seq<(usize, Vec<usize>)>)
    requires
        forall|i: int| 0 <= i < levels.len() ==> (#[trigger] levels[i]).1@.len() == 0,
    ensures
        merging::union_layers(state::level_layers(tables, levels)) == Map::<
            VKey,
            Seq<u8>,
        >::empty(),
{
    let layers = state::level_layers(tables, levels);
    assert forall|i: int| 0 <= i < layers.len() implies #[trigger] layers[i] == Map::<
        VKey,
        Seq<u8>,
    >::empty() by {
        let run = state::tables_of(tables, levels[i].1@);
        assert(concat_iterator::contents(run) =~= Seq::empty());
        assert(concat_iterator::joined(run) =~= Seq::empty());
        assert(layers[i] =~= Map::<VKey, Seq<u8>>::empty());
    }
    lemma_union_nothing(layers);
}

/// A record is found among the ids of its sort.
proof fn lemma_record_listed(records: Seq<ManifestRecord>, i: int)
    requires
        0 <= i < records.len(),
        in_order(records),
    ensures
        in_order(records.take(i)),
        records[i] matches ManifestRecord::Flush(id) ==> flushes(records).contains(id),
        records[i] matches ManifestRecord::NewMemtable(id) ==> created(records).contains(id),
        !(records[i] is Compaction),
    decreases records.len(),
{
    let front = records.drop_last();
    if i == records.len() - 1 {
        assert(records.take(i) =~= front);
        match records.last() {
            ManifestRecord::Flush(id) => {
                assert(flushes(records)[0] == id);
            },
            ManifestRecord::NewMemtable(id) => {
                assert(created(records)[0] == id);
            },
            ManifestRecord::Compaction(_, _) => {},
        }
    } else {
        lemma_record_listed(front, i);
        assert(records.take(i) =~= front.take(i));
        assert(front[i] == records[i]);
        match records[i] {
            ManifestRecord::Flush(id) => {
                let j = flushes(front).index_of(id);
                if records.last() is Flush {
                    assert(flushes(records)[j + 1] == id);
                }
            },
            ManifestRecord::NewMemtable(id) => {
                let j = created(front).index_of(id);
                if records.last() is NewMemtable {
                    assert(created(records)[j + 1] == id);
                }
            },
            ManifestRecord::Compaction(_, _) => {},
        }
    }
}

/// The largest timestamp is that of some entry.
proof fn lemma_max_ts_found(es: Seq<VEntry>) -> (i: int)
    requires
        table::max_ts_of(es) > 0,
    ensures
        0 <= i < es.len(),
        es[i].key.ts == table::max_ts_of(es),
    decreases es.len(),
{
    if es.last().key.ts > table::max_ts_of(es.drop_last()) {
        es.len() - 1
    } else {
        let i = lemma_max_ts_found(es.drop_last());
        i
    }
}

/// Entries that have been put are there.
proof fn lemma_put_all_contains(es: Seq<VEntry>, i: int)
    requires
        0 <= i < es.len(),
    ensures
        wal::put_all(Map::empty(), es).contains_key(es[i].key),
    decreases es.len(),
{
    if i < es.len() - 1 {
        lemma_put_all_contains(es.drop_last(), i);
        assert(es.drop_last()[i] == es[i]);
    }
}

/// The actions of two steps.
proof fn lemma_views_concat(a: Seq<Action>, b: Seq<Action>)
    ensures
        engine::action_views(a + b) == engine::action_views(a) + engine::action_views(b),
{
    assert(engine::action_views(a + b) =~= engine::action_views(a) + engine::action_views(b));
}

/// Flushing several mem-tables keeps the files in step.
proof fn lemma_flushes_in_step(
    d: Disk,
    before: LsmStorageInner,
    after: LsmStorageInner,
    actions: Seq<Action>,
    n: nat,
)
    requires
        before.wf(),
        before.ids_ok(),
        in_step(d, before),
        engine::flushed_times(before, after, actions, n),
    ensures
        after.wf(),
        after.ids_ok(),
        in_step(all_performed(d, engine::action_views(actions)), after),
    decreases n,
{
    if n == 0 {
        assert(engine::action_views(actions) =~= Seq::empty());
    } else {
        let (mid, a, b) = choose|mid: LsmStorageInner, a: Seq<Action>, b: Seq<Action>| #[trigger]
            engine::two_steps(actions, a, b) && #[trigger] after.flushed(mid, b)
                && mid.state.imm_memtables@.len() > 0 && engine::flushed_times(
                before,
                mid,
                a,
                (n - 1) as nat,
            );
        lemma_flushes_in_step(d, before, mid, a, (n - 1) as nat);
        lemma_views_concat(a, b);
        lemma_performed_concat(d, engine::action_views(a), engine::action_views(b));
        lemma_flush_in_step(all_performed(d, engine::action_views(a)), mid, after, b);
        let last = mid.state.imm_memtables@.len() as int;
        assert(mid.write_state().mems[last].id == mid.state.imm_memtables@.last().id);
        laws::lemma_flush_wf(mid, after, b);
        laws::lemma_flush_keeps_ids(mid, after, b);
    }
}

/// Once the actions of closing the engine have been performed, the files are in step with the engine
/// again. Without a WAL, the files then have everything that it holds.
pub proof fn lemma_close_in_step(
    d: Disk,
    before: LsmStorageInner,
    after: LsmStorageInner,
    actions: Seq<Action>,
)
    requires
        before.wf(),
        before.ids_ok(),
        in_step(d, before),
        engine::closed(before, after, actions),
        !before.options.enable_wal ==> after.state.imm_memtables@.len() == 0
            && after.state.memtable.contents() == Map::<VKey, Seq<u8>>::empty(),
    ensures
        in_step(all_performed(d, engine::action_views(actions)), after),
        !before.options.enable_wal ==> all_logged(after),
{
    if before.options.enable_wal {
        assert(engine::action_views(actions) =~= Seq::empty());
    } else {
        let (frozen, a, b) = choose|frozen: LsmStorageInner, a: Seq<Action>, b: Seq<Action>|
            #[trigger] engine::two_steps(actions, a, b) && #[trigger] before.froze(frozen, a)
                && engine::flushed_times(
                frozen,
                after,
                b,
                frozen.state.imm_memtables@.len(),
            );
        lemma_views_concat(a, b);
        lemma_performed_concat(d, engine::action_views(a), engine::action_views(b));
        lemma_freeze_in_step(d, before, frozen, a);
        let f = all_performed(d, engine::action_views(a));
        lemma_flushes_in_step(f, frozen, after, b, frozen.state.imm_memtables@.len());
    }
}

/// A mem-table that was logged has a WAL that holds what the mem-table or its table holds.
proof fn lemma_created_logged(d: Disk, e: LsmStorageInner, id: usize) -> (m: Map<VKey, Seq<u8>>)
    requires
        in_step(d, e),
        created(d.records).contains(id),
    ensures
        wal_holds(d, id, m),
        exists|i: int| 0 <= i < kept_layers(d, e).len() && #[trigger] kept_layers(d, e)[i] == m,
{
    let mems = e.write_state().mems;
    let flushed = flushes(d.records);
    let kept = kept_layers(d, e);
    if pending(d.records).contains(id) {
        let j = pending(d.records).index_of(id);
        let i = lemma_logged_at(mems, j);
        assert(wal_holds(d, mems[i].id, mems[i].contents));
        assert(kept[i] == mems[i].contents);
        mems[i].contents
    } else {
        let j = flushed.index_of(id);
        let m = merging::to_map(d.ssts[id].entries());
        assert(kept[mems.len() + j] == m);
        m
    }
}

/// No record of the manifest keeps the files from being loaded.
proof fn lemma_no_record_fails(
    d: Disk,
    files: StoredFiles,
    e: LsmStorageInner,
    c: CompactionController,
    p: LsmStorageState,
    i: int,
    error: LsmError,
)
    requires
        in_step(d, e),
        files_of(d, files),
        offsets_fit(d),
        0 <= i < d.records.len(),
    ensures
        !recovery::record_fails(c, files, d.records[i], p, error),
{
    lemma_record_listed(d.records, i);
    match d.records[i] {
        ManifestRecord::Flush(id) => {
            let flushed = flushes(d.records);
            let j = flushed.index_of(id);
            assert(table_stored(d, flushed[j]));
            if recovery::sst_loaded(files, id, Err(error)) {
                lemma_stored_loads(d, files, id, Err(error));
            }
        },
        ManifestRecord::NewMemtable(id) => {
            let m = lemma_created_logged(d, e, id);
            if recovery::mem_recovered(files, id, Err(error)) {
                lemma_log_recovers(d, files, id, m, Err(error));
            }
        },
        ManifestRecord::Compaction(_, _) => {},
    }
}

/// The tables that come back are the tables that were written.
proof fn lemma_tables_back(
    d: Disk,
    files: StoredFiles,
    w: WriteState,
    c: CompactionController,
    s: LsmStorageState,
)
    requires
        mirrored(d, w),
        files_of(d, files),
        offsets_fit(d),
        came_back(c, files, d.records, s),
    ensures
        state::tables_ok(s.sstables@),
        forall|i: int|
            0 <= i < flushes(d.records).len() ==> s.sstables@.contains_key(
                #[trigger] flushes(d.records)[i],
            ),
        forall|id: usize| #[trigger]
            s.sstables@.contains_key(id) ==> id < w.next && s.sstables@[id].entries()
                == d.ssts[id].entries() && s.sstables@[id].max_ts == d.ssts[id].max_ts,
        state::table_layers(s.sstables@, flushes(d.records)) == flushed_layers(d),
{
    let flushed = flushes(d.records);
    assert forall|id: usize| #[trigger] s.sstables@.contains_key(id) implies id < w.next
        && s.sstables@[id].wf() && s.sstables@[id].id == id && s.sstables@[id].entries()
        == d.ssts[id].entries() && s.sstables@[id].max_ts == d.ssts[id].max_ts by {
        let j = flushed.index_of(id);
        assert(flushed[j] < w.next && table_stored(d, flushed[j]));
        lemma_stored_loads(d, files, id, Ok(s.sstables@[id]));
    }
    assert forall|i: int| 0 <= i < flushed.len() implies s.sstables@.contains_key(
        #[trigger] flushed[i],
    ) by {
        assert(flushed.contains(flushed[i]));
    }
    assert(state::table_layers(s.sstables@, flushed) =~= flushed_layers(d));
}

/// The lists of a state that comes back say what the flushed tables say, and then nothing more.
proof fn lemma_lists_back(
    d: Disk,
    files: StoredFiles,
    w: WriteState,
    c: CompactionController,
    s: LsmStorageState,
) -> (x: Seq<Map<VKey, Seq<u8>>>)
    requires
        mirrored(d, w),
        files_of(d, files),
        offsets_fit(d),
        came_back(c, files, d.records, s),
    ensures
        state::table_layers(s.sstables@, s.l0_sstables@) + state::level_layers(
            s.sstables@,
            s.levels@,
        ) == flushed_layers(d) + x,
        forall|i: int| 0 <= i < x.len() ==> #[trigger] x[i] == Map::<VKey, Seq<u8>>::empty(),
{
    let flushed = flushes(d.records);
    lemma_tables_back(d, files, w, c, s);
    let levels = state::level_layers(s.sstables@, s.levels@);
    let l0 = state::table_layers(s.sstables@, s.l0_sstables@);
    if c is Tiered {
        assert forall|i: int| 0 <= i < levels.len() implies #[trigger] levels[i]
            == flushed_layers(d)[i] by {
            assert(s.sstables@.contains_key(flushed[i]));
            let t = s.sstables@[flushed[i]];
            assert(state::tables_of(s.sstables@, s.levels@[i].1@) =~= seq![t]);
            laws::lemma_single_run(t);
            assert(state::table_layers(s.sstables@, flushed)[i] == merging::to_map(t.entries()));
        }
        let x = Seq::<Map<VKey, Seq<u8>>>::empty();
        assert(l0 + levels =~= flushed_layers(d) + x);
        x
    } else {
        assert forall|i: int| 0 <= i < levels.len() implies #[trigger] levels[i] == Map::<
            VKey,
            Seq<u8>,
        >::empty() by {
            let run = state::tables_of(s.sstables@, s.levels@[i].1@);
            assert(concat_iterator::contents(run) =~= Seq::empty());
            assert(concat_iterator::joined(run) =~= Seq::empty());
            assert(levels[i] =~= Map::<VKey, Seq<u8>>::empty());
        }
        levels
    }
}

/// The state that comes back is well formed.
proof fn lemma_state_wf(
    d: Disk,
    files: StoredFiles,
    w: WriteState,
    c: CompactionController,
    s: LsmStorageState,
)
    requires
        mirrored(d, w),
        files_of(d, files),
        offsets_fit(d),
        came_back(c, files, d.records, s),
    ensures
        s.wf(),
{
    let flushed = flushes(d.records);
    lemma_tables_back(d, files, w, c, s);
    assert forall|i: int| 0 <= i < s.imm_memtables@.len() implies (
    #[trigger] s.imm_memtables@[i]).fits() by {
        assert(recovery::mem_recovered(files, pending(d.records)[i], Ok(s.imm_memtables@[i])));
    }
    assert forall|i: int| 0 <= i < s.levels@.len() implies #[trigger] s.level_ok(i) by {
        let run = state::tables_of(s.sstables@, s.levels@[i].1@);
        if c is Tiered {
            assert(s.sstables@.contains_key(flushed[i]));
            let t = s.sstables@[flushed[i]];
            assert(run =~= seq![t]);
            laws::lemma_single_run(t);
        } else {
            assert(concat_iterator::contents(run) =~= Seq::empty());
            assert(concat_iterator::joined(run) =~= Seq::empty());
        }
    }
}

/// The ids that come back stand for one thing each and leave the next ones free.
proof fn lemma_ids_back(
    d: Disk,
    files: StoredFiles,
    w: WriteState,
    c: CompactionController,
    s: LsmStorageState,
)
    requires
        mirrored(d, w),
        files_of(d, files),
        offsets_fit(d),
        came_back(c, files, d.records, s),
    ensures
        recovery::ids_distinct(s),
        forall|id: usize| #[trigger] recovery::is_last_id(s, id) ==> id == 0 || id < w.next,
{
    let flushed = flushes(d.records);
    let logged = pending(d.records);
    lemma_tables_back(d, files, w, c, s);
    assert forall|i: int| 0 <= i < s.imm_memtables@.len() implies !s.sstables@.contains_key(
        (#[trigger] s.imm_memtables@[i]).id,
    ) && s.imm_memtables@[i].id < w.next by {
        let x = lemma_logged_at(w.mems, i);
        assert(w.mems[x].id == s.imm_memtables@[i].id);
    }
    assert forall|i: int, j: int|
        #![trigger s.imm_memtables@[i], s.imm_memtables@[j]]
        0 <= i < j < s.imm_memtables@.len() implies s.imm_memtables@[i].id
        != s.imm_memtables@[j].id by {
        lemma_logged_distinct(w.mems, i, j);
        assert(s.imm_memtables@[i].id == logged[i]);
        assert(s.imm_memtables@[j].id == logged[j]);
    }
    assert(engine::lists_apart(s)) by {
        assert forall|i: int, j: int|
            #![trigger s.levels@[i], s.levels@[j]]
            0 <= i < s.levels@.len() && 0 <= j < s.levels@.len() && i != j implies engine::apart(
            s.levels@[i].1@,
            s.levels@[j].1@,
        ) by {
            if c is Tiered {
                let a = s.levels@[i].1@;
                let b = s.levels@[j].1@;
                assert(flushed[i] != flushed[j]);
                assert forall|x: usize| #[trigger] a.contains(x) implies !b.contains(x) by {
                    assert(a[0] == flushed[i] && b[0] == flushed[j]);
                }
            }
        }
    }
}

/// What the mem-tables of an engine say that has come back.
proof fn lemma_mems_layers_back(
    d: Disk,
    files: StoredFiles,
    w: WriteState,
    c: CompactionController,
    s: LsmStorageState,
    f: LsmStorageInner,
    id: usize,
)
    requires
        mirrored(d, w),
        files_of(d, files),
        came_back(c, files, d.records, s),
        recovery::with_fresh(s, f.state, id),
    ensures
        ({
            let mems = f.write_state().mems;
            &&& all_layers(mems) == seq![Map::<VKey, Seq<u8>>::empty()] + logged_layers(w.mems)
            &&& logged_ids(mems) == pending(d.records)
            &&& forall|i: int|
                0 < i < mems.len() ==> (#[trigger] mems[i]).log is Some && wal_holds(
                    d,
                    mems[i].id,
                    mems[i].contents,
                )
        }),
{
    let mems = f.write_state().mems;
    let nothing = Map::<VKey, Seq<u8>>::empty();
    let imm = mems.skip(1);
    let logged = pending(d.records);
    lemma_logged_len(w.mems);
    assert(imm.len() == logged.len());
    assert forall|i: int| 0 <= i < imm.len() implies (#[trigger] imm[i]).log is Some && imm[i].id
        == logged[i] && imm[i].contents == logged_layers(w.mems)[i] && wal_holds(
        d,
        imm[i].id,
        imm[i].contents,
    ) by {
        let m = s.imm_memtables@[i];
        assert(imm[i] == engine::mem_view(m));
        let x = lemma_logged_at(w.mems, i);
        assert(wal_holds(d, w.mems[x].id, w.mems[x].contents));
        assert(recovery::mem_recovered(files, logged[i], Ok(m)));
        lemma_log_recovers(d, files, logged[i], w.mems[x].contents, Ok(m));
    }
    assert forall|i: int| 0 < i < mems.len() implies (#[trigger] mems[i]).log is Some && wal_holds(
        d,
        mems[i].id,
        mems[i].contents,
    ) by {
        assert(imm[i - 1] == mems[i]);
    }
    assert(all_layers(mems) =~= seq![nothing] + logged_layers(w.mems)) by {
        assert forall|i: int| 0 < i < mems.len() implies #[trigger] all_layers(mems)[i]
            == logged_layers(w.mems)[i - 1] by {
            assert(imm[i - 1] == mems[i]);
        }
    }
    lemma_logged_cons(mems[0], imm);
    assert(seq![mems[0]] + imm =~= mems);
    lemma_all_have_logs(imm);
    assert(logged_ids(mems) =~= logged);
}

/// Where all mem-tables have a WAL, their ids are the logged ones.
proof fn lemma_all_have_logs(mems: Seq<VMem>)
    requires
        forall|i: int| 0 <= i < mems.len() ==> (#[trigger] mems[i]).log is Some,
    ensures
        logged_ids(mems) == Seq::new(mems.len(), |i: int| mems[i].id),
    decreases mems.len(),
{
    if mems.len() > 0 {
        let front = mems.drop_last();
        assert forall|i: int| 0 <= i < front.len() implies (#[trigger] front[i]).log is Some by {
            assert(front[i] == mems[i]);
        }
        lemma_all_have_logs(front);
        assert(mems[mems.len() - 1].log is Some);
    }
    assert(logged_ids(mems) =~= Seq::new(mems.len(), |i: int| mems[i].id));
}

/// Leaving out a layer keeps the order of age.
proof fn lemma_aged_less(
    a: Seq<Map<VKey, Seq<u8>>>,
    m: Map<VKey, Seq<u8>>,
    b: Seq<Map<VKey, Seq<u8>>>,
)
    requires
        laws::layers_aged(a + (seq![m] + b)),
    ensures
        laws::layers_aged(a + b),
{
    let all = a + (seq![m] + b);
    let less = a + b;
    let n = a.len() as int;
    assert forall|i: int, j: int, x: VKey, y: VKey|
        0 <= i < j < less.len() && #[trigger] less[i].contains_key(x)
            && #[trigger] less[j].contains_key(y) && x.key == y.key implies x.ts >= y.ts by {
        let p = if i < n {
            i
        } else {
            i + 1
        };
        let q = if j < n {
            j
        } else {
            j + 1
        };
        assert(all[p] == less[i]);
        assert(all[q] == less[j]);
    }
}

/// Leaving out the mem-tables without a WAL keeps the order of age.
proof fn lemma_logged_aged(mems: Seq<VMem>, below: Seq<Map<VKey, Seq<u8>>>)
    requires
        laws::layers_aged(all_layers(mems) + below),
    ensures
        laws::layers_aged(logged_layers(mems) + below),
    decreases mems.len(),
{
    if mems.len() == 0 {
        assert(all_layers(mems) =~= logged_layers(mems));
    } else {
        let front = mems.drop_last();
        let m = mems.last().contents;
        assert(all_layers(mems) + below =~= all_layers(front) + (seq![m] + below));
        lemma_logged_aged(front, seq![m] + below);
        if mems.last().log is Some {
            assert(logged_layers(mems) + below =~= logged_layers(front) + (seq![m] + below));
        } else {
            lemma_aged_less(logged_layers(front), m, below);
        }
    }
}

/// Layers that say nothing can be put behind.
proof fn lemma_aged_nothing(a: Seq<Map<VKey, Seq<u8>>>, x: Seq<Map<VKey, Seq<u8>>>)
    requires
        laws::layers_aged(a),
        forall|i: int| 0 <= i < x.len() ==> #[trigger] x[i] == Map::<VKey, Seq<u8>>::empty(),
    ensures
        laws::layers_aged(a + x),
        merging::union_layers(a + x) == merging::union_layers(a),
{
    let all = a + x;
    assert forall|i: int, j: int, p: VKey, q: VKey|
        0 <= i < j < all.len() && #[trigger] all[i].contains_key(p)
            && #[trigger] all[j].contains_key(q) && p.key == q.key implies p.ts >= q.ts by {
        if j >= a.len() {
            assert(all[j] == x[j - a.len()]);
        } else {
            assert(all[i] == a[i] && all[j] == a[j]);
        }
    }
    merging::lemma_union_concat(a, x);
    lemma_union_nothing(x);
    assert(merging::union_layers(all) =~= merging::union_layers(a));
}

/// Mem-tables that have nothing to log add nothing.
proof fn lemma_all_logged_union(mems: Seq<VMem>)
    requires
        forall|i: int|
            0 <= i < mems.len() ==> (#[trigger] mems[i]).log is Some || mems[i].contents == Map::<
                VKey,
                Seq<u8>,
            >::empty(),
    ensures
        merging::union_layers(logged_layers(mems)) == merging::union_layers(all_layers(mems)),
    decreases mems.len(),
{
    if mems.len() == 0 {
        assert(all_layers(mems) =~= logged_layers(mems));
    } else {
        let front = mems.drop_last();
        let m = mems[mems.len() - 1];
        assert forall|i: int| 0 <= i < front.len() implies (#[trigger] front[i]).log is Some
            || front[i].contents == Map::<VKey, Seq<u8>>::empty() by {
            assert(front[i] == mems[i]);
        }
        lemma_all_logged_union(front);
        assert(all_layers(mems) =~= all_layers(front).push(m.contents));
        merging::lemma_union_push(all_layers(front), m.contents);
        if m.log is Some {
            merging::lemma_union_push(logged_layers(front), m.contents);
        } else {
            assert(merging::union_layers(all_layers(mems)) =~= merging::union_layers(
                all_layers(front),
            ));
        }
    }
}

/// No table that comes back has a timestamp that leaves no next one.
proof fn lemma_table_ts_back(
    d: Disk,
    files: StoredFiles,
    e: LsmStorageInner,
    c: CompactionController,
    s: LsmStorageState,
    id: usize,
)
    requires
        in_step(d, e),
        files_of(d, files),
        offsets_fit(d),
        came_back(c, files, d.records, s),
        e.mvcc.ts.0 < u64::MAX,
        s.sstables@.contains_key(id),
    ensures
        s.sstables@[id].max_ts < u64::MAX,
{
    let flushed = flushes(d.records);
    let kept = kept_layers(d, e);
    let j = flushed.index_of(id);
    assert(table_stored(d, flushed[j]));
    lemma_stored_loads(d, files, id, Ok(s.sstables@[id]));
    let t = d.ssts[id];
    if t.max_ts == u64::MAX {
        let i = lemma_max_ts_found(t.entries());
        let k = t.entries()[i].key;
        merging::lemma_to_map_contains(t.entries(), k);
        let n = e.write_state().mems.len() as int;
        assert(kept[n + j] == merging::to_map(t.entries()));
        merging::lemma_union_contains(kept, k);
        assert(merging::union_layers(kept).contains_key(k));
    }
}

/// No WAL that comes back has a timestamp that leaves no next one.
proof fn lemma_wal_ts_back(d: Disk, files: StoredFiles, e: LsmStorageInner, x: int)
    requires
        in_step(d, e),
        files_of(d, files),
        e.mvcc.ts.0 < u64::MAX,
        0 <= x < d.records.len(),
    ensures
        recovery::record_ts(files, d.records[x]) != Some(u64::MAX),
{
    let kept = kept_layers(d, e);
    if recovery::record_ts(files, d.records[x]) == Some(u64::MAX) {
        let id = d.records[x]->NewMemtable_0;
        lemma_record_listed(d.records, x);
        let m = lemma_created_logged(d, e, id);
        let es = choose|es: Seq<VEntry>| #[trigger]
            logs_entries(d.wals[id], es) && wal::put_all(Map::empty(), es) == m;
        lemma_singles_fit(es);
        lemma_flat_singles(es);
        wal::lemma_replay(singles(es), 0);
        assert(singles(es).skip(0) =~= singles(es));
        codec::lemma_chunk_start_ends(wal::log_chunks(singles(es)));
        let i = lemma_max_ts_found(es);
        lemma_put_all_contains(es, i);
        let y = choose|y: int| 0 <= y < kept.len() && #[trigger] kept[y] == m;
        merging::lemma_union_contains(kept, es[i].key);
        assert(kept[y].contains_key(es[i].key));
        assert(merging::union_layers(kept).contains_key(es[i].key));
    }
}

/// The timestamps that come back leave a next one.
proof fn lemma_ts_back(
    d: Disk,
    files: StoredFiles,
    e: LsmStorageInner,
    c: CompactionController,
    s: LsmStorageState,
)
    requires
        in_step(d, e),
        files_of(d, files),
        offsets_fit(d),
        came_back(c, files, d.records, s),
        e.mvcc.ts.0 < u64::MAX,
    ensures
        !recovery::is_init_ts(s.sstables@, files, d.records, u64::MAX),
{
    assert forall|id: usize| #[trigger] s.sstables@.contains_key(id) implies s.sstables@[id].max_ts
        != u64::MAX by {
        lemma_table_ts_back(d, files, e, c, s, id);
    }
    assert forall|x: int| 0 <= x < d.records.len() implies recovery::record_ts(
        files,
        #[trigger] d.records[x],
    ) != Some(u64::MAX) by {
        lemma_wal_ts_back(d, files, e, x);
    }
}

/// Ordering levels with one table at most changes nothing.
proof fn lemma_ordered_back(
    c: CompactionController,
    files: StoredFiles,
    records: Seq<ManifestRecord>,
    p: LsmStorageState,
    s: LsmStorageState,
)
    requires
        came_back(c, files, records, p),
        recovery::levels_ordered(p, s),
    ensures
        came_back(c, files, records, s),
{
    let flushed = flushes(records);
    assert forall|i: int| 0 <= i < s.levels@.len() implies (#[trigger] s.levels@[i]).0 == i + 1
        && s.levels@[i].1@ == p.levels@[i].1@ by {
        let ids = p.levels@[i].1@;
        leveled::lemma_by_first_key(p.sstables@, ids);
        if c is Tiered {
            let one = leveled::by_first_key(p.sstables@, ids);
            assert(ids.drop_last() =~= Seq::empty());
            assert(leveled::by_first_key(p.sstables@, ids.drop_last()).len() == 0);
            assert(one =~= ids) by {
                lemma_one_of_many(one, ids);
            }
        } else {
            assert(leveled::by_first_key(p.sstables@, ids) =~= ids);
        }
    }
}

/// A single id is the only one of its list.
proof fn lemma_one_of_many(a: Seq<usize>, b: Seq<usize>)
    requires
        a.len() == 1,
        b.len() == 1,
        a.to_multiset() == b.to_multiset(),
    ensures
        a == b,
{
    broadcast use vstd::seq_lib::group_to_multiset_ensures;

    assert(b.to_multiset().count(a[0]) > 0) by {
        assert(a.contains(a[0]));
        assert(a.to_multiset().contains(a[0]));
    }
    assert(b.contains(a[0]));
    assert(a =~= b);
}

/// The manifest can be loaded, and what is loaded is what the records say.
proof fn lemma_manifest_loads(
    d: Disk,
    files: StoredFiles,
    e: LsmStorageInner,
    r: Result<LsmStorageState, LsmError>,
)
    requires
        in_step(d, e),
        files_of(d, files),
        offsets_fit(d),
        recovery::manifest_loaded(e.compaction_controller, e.options, files, d.records, r),
    ensures
        r matches Ok(s) && came_back(e.compaction_controller, files, d.records, s),
{
    let c = e.compaction_controller;
    let options = e.options;
    let records = d.records;
    assert forall|i: int, p: LsmStorageState, error: LsmError|
        0 <= i < records.len() && #[trigger] recovery::replayed(
            c,
            options,
            files,
            records.take(i),
            p,
        ) implies !(#[trigger] recovery::record_fails(c, files, records[i], p, error)) by {
        lemma_no_record_fails(d, files, e, c, p, i, error);
    }
    assert forall|p: LsmStorageState| #[trigger]
        recovery::replayed(c, options, files, records, p) implies came_back(
        c,
        files,
        records,
        p,
    ) && p.wf() by {
        lemma_replayed(c, options, files, records, p);
        lemma_state_wf(d, files, e.write_state(), c, p);
    }
    assert forall|p: LsmStorageState, s: LsmStorageState|
        #[trigger] recovery::replayed(c, options, files, records, p) && #[trigger]
            recovery::levels_ordered(p, s) implies came_back(c, files, records, s) && s.wf() by {
        lemma_ordered_back(c, files, records, p, s);
        lemma_state_wf(d, files, e.write_state(), c, s);
    }
    match r {
        Ok(s) => {},
        Err(error) => {
            if exists|p: LsmStorageState| #[trigger]
                recovery::replayed(c, options, files, records, p) && (exists|i: int|
                    0 <= i < p.levels@.len() && !leveled::all_loaded(
                        p.sstables@,
                        (#[trigger] p.levels@[i]).1@,
                    )) {
                let p = choose|p: LsmStorageState| #[trigger]
                    recovery::replayed(c, options, files, records, p) && (exists|i: int|
                        0 <= i < p.levels@.len() && !leveled::all_loaded(
                            p.sstables@,
                            (#[trigger] p.levels@[i]).1@,
                        ));
                let i = choose|i: int|
                    0 <= i < p.levels@.len() && !leveled::all_loaded(
                        p.sstables@,
                        (#[trigger] p.levels@[i]).1@,
                    );
                assert(p.level_ok(i));
            }
        },
    }
}

/// What opening an engine says of its result.
pub open spec fn reopened(
    options: LsmStorageOptions,
    records: Seq<ManifestRecord>,
    files: StoredFiles,
    r: Result<LsmStorageInner, LsmError>,
) -> bool {
    match r {
        Ok(e) => e.wf() && e.is_recovered(options, records, files) && e.is_fresh(options),
        Err(e) => recovery::recovery_fails(options, records, files, e),
    }
}

/// Every mem-table has a WAL, or nothing to log.
pub open spec fn all_logged(e: LsmStorageInner) -> bool {
    let mems = e.write_state().mems;
    forall|i: int|
        0 <= i < mems.len() ==> (#[trigger] mems[i]).log is Some || mems[i].contents == Map::<
            VKey,
            Seq<u8>,
        >::empty()
}

/// What an engine that has come back holds, and that the files are in step with it.
#[verifier::spinoff_prover]
#[verifier::rlimit(60)]
proof fn lemma_engine_back(d: Disk, e: LsmStorageInner, files: StoredFiles, f: LsmStorageInner)
    requires
        in_step(d, e),
        offsets_fit(d),
        files_of(d, files),
        f.wf(),
        f.is_recovered(e.options, d.records, files),
        f.is_fresh(e.options),
    ensures
        f.contents() == durable(d, e),
        in_step(d, f),
{
    let c = e.compaction_controller;
    let w = e.write_state();
    let (s, id) = choose|s: LsmStorageState, id: usize| #[trigger]
        recovery::manifest_loaded(f.compaction_controller, e.options, files, d.records, Ok(s))
            && #[trigger] recovery::is_last_id(s, id) && recovery::ids_distinct(s)
            && f.next_sst_id == recovery::next_id(s, id) && recovery::with_fresh(
            s,
            f.state,
            recovery::fresh_id(s, id) as usize,
        );
    lemma_manifest_loads(d, files, e, Ok(s));
    lemma_mems_layers_back(d, files, w, c, s, f, recovery::fresh_id(s, id) as usize);
    let below = flushed_layers(d);
    let nothing = Map::<VKey, Seq<u8>>::empty();
    let logged = logged_layers(w.mems);
    let kept = kept_layers(d, f);
    lemma_logged_aged(w.mems, below);
    laws::lemma_aged_cons(logged + below);
    engine::lemma_empty_layer(logged + below);
    assert(kept =~= seq![nothing] + (logged + below));
    let x = lemma_lists_back(d, files, w, c, s);
    lemma_aged_nothing(kept, x);
    let mems = f.write_state().mems;
    assert(state::mem_layers(f.state) =~= all_layers(mems));
    assert(f.state.layers() =~= kept + x) by {
        let lists = state::table_layers(s.sstables@, s.l0_sstables@) + state::level_layers(
            s.sstables@,
            s.levels@,
        );
        assert(f.state.layers() =~= state::mem_layers(f.state) + lists);
        assert(kept + x =~= all_layers(mems) + (below + x));
    }
    lemma_mirrored_back(d, files, w, c, s, f, id);
}

/// The files follow the mem-tables of an engine that has come back.
proof fn lemma_mirrored_back(
    d: Disk,
    files: StoredFiles,
    w: WriteState,
    c: CompactionController,
    s: LsmStorageState,
    f: LsmStorageInner,
    id: usize,
)
    requires
        mirrored(d, w),
        files_of(d, files),
        offsets_fit(d),
        came_back(c, files, d.records, s),
        recovery::is_last_id(s, id),
        f.next_sst_id == recovery::next_id(s, id),
        recovery::with_fresh(s, f.state, recovery::fresh_id(s, id) as usize),
    ensures
        mirrored(d, f.write_state()),
{
    let v = f.write_state();
    let flushed = flushes(d.records);
    let fresh = recovery::fresh_id(s, id) as usize;
    recovery::lemma_fresh_id(s, id);
    lemma_mems_layers_back(d, files, w, c, s, f, fresh);
    lemma_tables_back(d, files, w, c, s);
    lemma_ids_back(d, files, w, c, s);
    assert forall|i: int| 0 <= i < v.mems.len() implies (#[trigger] v.mems[i]).id < v.next
        && !flushed.contains(v.mems[i].id) && (v.mems[i].log is Some ==> wal_holds(
        d,
        v.mems[i].id,
        v.mems[i].contents,
    )) by {
        if i > 0 {
            assert(v.mems[i].id == s.imm_memtables@[i - 1].id);
            assert(!s.sstables@.contains_key(v.mems[i].id));
        } else {
            assert(!s.sstables@.contains_key(fresh));
        }
    }
    assert forall|i: int, j: int|
        #![trigger v.mems[i], v.mems[j]]
        0 <= i < j < v.mems.len() implies v.mems[i].id != v.mems[j].id by {
        assert(v.mems[j].id == s.imm_memtables@[j - 1].id);
        if i > 0 {
            assert(v.mems[i].id == s.imm_memtables@[i - 1].id);
        }
    }
    assert forall|i: int| 0 <= i < flushed.len() implies #[trigger] flushed[i] < v.next
        && table_stored(d, flushed[i]) by {
        assert(s.sstables@.contains_key(flushed[i]));
    }
}

/// A restart gives back what was written, whatever compactions have run: opening an engine on the
/// files of another one succeeds, and the new engine holds what the flushed tables and the mem-tables
/// with a WAL held. Where there is nothing in the others, it shows of every user key what the other
/// one showed. The files are in step with the new engine, so this holds of the next restart too.
pub proof fn lemma_restart_gives_back(
    d: Disk,
    e: LsmStorageInner,
    files: StoredFiles,
    r: Result<LsmStorageInner, LsmError>,
    k: Seq<u8>,
)
    requires
        e.wf(),
        in_step(d, e),
        e.mvcc.ts.0 < u64::MAX,
        e.next_sst_id < usize::MAX,
        offsets_fit(d),
        files_of(d, files),
        reopened(e.options, d.records, files, r),
    ensures
        r matches Ok(f) && f.contents() == durable(d, e) && in_step(d, f),
        all_logged(e) ==> (r matches Ok(f) && read::seen(f.contents(), k, f.mvcc.ts.0)
            == read::seen(e.contents(), k, e.mvcc.ts.0)),
{
    let c = e.compaction_controller;
    let options = e.options;
    let records = d.records;
    match r {
        Ok(f) => {
            lemma_engine_back(d, e, files, f);
        },
        Err(error) => {
            if recovery::manifest_loaded(c, options, files, records, Err(error)) {
                lemma_manifest_loads(d, files, e, Err(error));
            }
            assert forall|s: LsmStorageState| #[trigger]
                recovery::manifest_loaded(c, options, files, records, Ok(s)) implies !(exists|
                id: usize,
            | #[trigger]
                recovery::is_last_id(s, id) && recovery::next_id(s, id) > usize::MAX)
                && !recovery::is_init_ts(
                s.sstables@,
                files,
                records,
                u64::MAX,
            ) && recovery::ids_distinct(s) by {
                lemma_manifest_loads(d, files, e, Ok(s));
                lemma_ids_back(d, files, e.write_state(), c, s);
                lemma_ts_back(d, files, e, c, s);
            }
        },
    }
    if all_logged(e) {
        let f = r->Ok_0;
        let mems = e.write_state().mems;
        let kept = kept_layers(d, e);
        lemma_all_logged_union(mems);
        merging::lemma_union_concat(logged_layers(mems), flushed_layers(d));
        merging::lemma_union_concat(all_layers(mems), flushed_layers(d));
        assert(f.contents() == merging::union_layers(kept));
        if e.mvcc.ts.0 <= f.mvcc.ts.0 {
            laws::lemma_nothing_newer(f.contents(), k, e.mvcc.ts.0, f.mvcc.ts.0);
        } else {
            laws::lemma_nothing_newer(f.contents(), k, f.mvcc.ts.0, e.mvcc.ts.0);
        }
        assert(read::seen(merging::union_layers(kept), k, e.mvcc.ts.0) == read::seen(
            e.contents(),
            k,
            e.mvcc.ts.0,
        ));
    }
}

} // verus!
