//! When writing freezes a mem-table.
use vstd::prelude::*;

use crate::iterators::merging;
use crate::key::{VEntry, VKey};
use crate::lsm_storage::{engine, Action, LsmStorageInner, LsmStorageOptions};
use crate::lsm_storage::engine::{VAction, WriteState};
use crate::manifest::ManifestRecord;
use crate::{mem_table, wal};

verus! {

/// The bytes that an entry adds to a mem-table: its key, its timestamp and its value.
pub open spec fn bytes_of_entry(e: VEntry) -> int {
    (e.key.key.len() + 8 + e.value.len()) as int
}

/// A put leaves the current mem-table within the target size, whether or not there is a WAL. The
/// mem-table that was current is frozen if and only if the put takes it above the target size; else
/// it stays current and no other is made.
pub proof fn lemma_put_within_target(w: WriteState, e: VEntry, options: LsmStorageOptions)
    requires
        w.mems.len() > 0,
        w.mems[0].size + bytes_of_entry(e) <= usize::MAX,
    ensures
        ({
            let after = engine::put_effects(w, e, options).0;
            let grown = w.mems[0].size + bytes_of_entry(e);
            &&& after.mems[0].size <= options.target_sst_size
            &&& grown > options.target_sst_size ==> {
                &&& after.mems.len() == w.mems.len() + 1
                &&& after.mems[0].size == 0
                &&& after.mems[0].contents.dom() =~= Set::empty()
                &&& after.mems[0].id == w.next as usize
                &&& after.mems[1].size == grown
                &&& after.mems[1].id == w.mems[0].id
                &&& after.mems[1].contents == w.mems[0].contents.insert(e.key, e.value)
                &&& after.mems.skip(2) == w.mems.skip(1)
                &&& after.next == w.next + 1
            }
            &&& grown <= options.target_sst_size ==> {
                &&& after.mems.len() == w.mems.len()
                &&& after.mems[0].size == grown
                &&& after.mems[0].id == w.mems[0].id
                &&& after.mems[0].contents == w.mems[0].contents.insert(e.key, e.value)
                &&& after.mems.skip(1) == w.mems.skip(1)
                &&& after.next == w.next
            }
        }),
{
    lemma_one(w.mems[0].size, e);
    let after = engine::put_effects(w, e, options).0;
    let put = engine::put_mem(w.mems[0], e);
    if after.mems.len() > w.mems.len() {
        assert(after.mems[1] == put);
        assert(after.mems.skip(2) =~= w.mems.skip(1));
    } else {
        assert(after.mems[0] == put);
        assert(after.mems.skip(1) =~= w.mems.skip(1));
    }
}

proof fn lemma_one(size: usize, e: VEntry)
    ensures
        size + bytes_of_entry(e) <= usize::MAX ==> mem_table::size_after(size, seq![e]) == size
            + bytes_of_entry(e),
{
    assert(seq![e].drop_last() =~= Seq::empty());
    mem_table::lemma_size_after(size, seq![e]);
    mem_table::lemma_size_after(size, Seq::empty());
}

/// Of two engines whose current mem-tables have one size, the same put freezes both mem-tables or
/// neither: neither a WAL nor what the mem-tables hold nor the timestamp matters.
pub proof fn lemma_puts_freeze_alike(
    a: WriteState,
    b: WriteState,
    d: VEntry,
    e: VEntry,
    one: LsmStorageOptions,
    other: LsmStorageOptions,
)
    requires
        a.mems.len() > 0,
        b.mems.len() > 0,
        a.mems[0].size == b.mems[0].size,
        d.key.key.len() == e.key.key.len(),
        d.value.len() == e.value.len(),
        one.target_sst_size == other.target_sst_size,
    ensures
        engine::put_effects(a, d, one).0.mems.len() - a.mems.len() == engine::put_effects(
            b,
            e,
            other,
        ).0.mems.len() - b.mems.len(),
        engine::put_effects(a, d, one).0.mems[0].size == engine::put_effects(b, e, other).0.mems[0].size,
{
    assert(seq![d].drop_last() =~= Seq::empty());
    assert(seq![e].drop_last() =~= Seq::empty());
    assert(mem_table::size_after(a.mems[0].size, seq![d].drop_last()) == a.mems[0].size);
    assert(mem_table::size_after(b.mems[0].size, seq![e].drop_last()) == b.mems[0].size);
}

/// Writing entries leaves the current mem-table within the target size. What has been frozen on the
/// way was above it, and what was frozen before is as it was.
pub proof fn lemma_writes_within_target(w: WriteState, es: Seq<VEntry>, options: LsmStorageOptions)
    requires
        w.mems.len() > 0,
    ensures
        ({
            let after = engine::batch_effects(w, es, options).0;
            let n = after.mems.len() - w.mems.len();
            &&& es.len() > 0 || w.mems[0].size <= options.target_sst_size ==> after.mems[0].size
                <= options.target_sst_size
            &&& 0 <= n <= es.len()
            &&& forall|i: int|
                1 <= i <= n ==> (#[trigger] after.mems[i]).size > options.target_sst_size
            &&& after.mems.skip(n + 1) == w.mems.skip(1)
            &&& after.next == w.next + n
        }),
    decreases es.len(),
{
    if es.len() > 0 {
        lemma_writes_within_target(w, es.drop_last(), options);
        let mid = engine::batch_effects(w, es.drop_last(), options).0;
        let after = engine::batch_effects(w, es, options).0;
        assert(after == engine::put_effects(mid, es.last(), options).0);
        let m = mid.mems.len() - w.mems.len();
        let n = after.mems.len() - w.mems.len();
        assert forall|i: int| 1 <= i <= n implies (#[trigger] after.mems[i]).size
            > options.target_sst_size by {
            if n == m {
                assert(after.mems[i] == mid.mems[i]);
            } else if i > 1 {
                assert(after.mems[i] == mid.mems[i - 1]);
            }
        }
        assert(after.mems.skip(n + 1) =~= mid.mems.skip(m + 1));
    } else {
        assert(engine::batch_effects(w, es, options).0 == w);
    }
}

/// The same of the engine: after a put, a deletion, a batch or a commit that wrote anything the
/// current mem-table is within the target size, and each immutable mem-table that was added is above
/// it.
pub proof fn lemma_written_within_target(
    before: LsmStorageInner,
    after: LsmStorageInner,
    es: Seq<VEntry>,
    r: Seq<Action>,
)
    requires
        after.written(before, es, r),
    ensures
        es.len() > 0 || before.state.memtable.approximate_size <= before.options.target_sst_size
            ==> after.state.memtable.approximate_size <= after.options.target_sst_size,
        before.state.imm_memtables@.len() <= after.state.imm_memtables@.len()
            <= before.state.imm_memtables@.len() + es.len(),
        forall|i: int|
            0 <= i < after.state.imm_memtables@.len() - before.state.imm_memtables@.len() ==> (
            #[trigger] after.state.imm_memtables@[i]).approximate_size
                > after.options.target_sst_size,
{
    let w = before.write_state();
    lemma_writes_within_target(w, es, before.options);
    let mems = after.write_state().mems;
    assert(mems[0] == engine::mem_view(after.state.memtable));
    assert forall|i: int|
        0 <= i < after.state.imm_memtables@.len() - before.state.imm_memtables@.len() implies (
    #[trigger] after.state.imm_memtables@[i]).approximate_size > after.options.target_sst_size by {
        assert(mems[i + 1] == engine::mem_view(after.state.imm_memtables@[i]));
    }
}

/// What freezing asks of the files: the WAL of the mem-table that is frozen is made durable exactly
/// where it has one; with WALs, that of the new mem-table is created before the manifest names it.
pub proof fn lemma_freeze_actions(w: WriteState, options: LsmStorageOptions)
    requires
        w.mems.len() > 0,
        0 <= w.next <= usize::MAX,
    ensures
        ({
            let (after, acts) = engine::freeze_effects(w, options);
            let id = w.mems[0].id;
            let fresh = after.mems[0].id;
            &&& fresh == w.next
            &&& after.mems[0].log is Some <==> options.enable_wal
            &&& acts.contains(VAction::SyncWal(id)) <==> w.mems[0].log is Some
            &&& options.enable_wal <==> exists|i: int, j: int|
                0 <= i < j < acts.len() && #[trigger] acts[i] == VAction::CreateWal(fresh)
                    && #[trigger] acts[j] == VAction::WriteManifest(
                    ManifestRecord::NewMemtable(fresh),
                )
            &&& acts.len() == (if w.mems[0].log is Some {
                1int
            } else {
                0int
            }) + (if options.enable_wal {
                2int
            } else {
                0int
            })
        }),
{
    let (after, acts) = engine::freeze_effects(w, options);
    let id = w.mems[0].id;
    let fresh = after.mems[0].id;
    let n: int = if w.mems[0].log is Some {
        1
    } else {
        0
    };
    if w.mems[0].log is Some {
        assert(acts[0] == VAction::SyncWal(id));
    }
    if options.enable_wal {
        assert(acts[n] == VAction::CreateWal(fresh));
        assert(acts[n + 1] == VAction::WriteManifest(ManifestRecord::NewMemtable(fresh)));
    }
    if acts.contains(VAction::SyncWal(id)) {
        let i = acts.index_of(VAction::SyncWal(id));
        assert(acts[i] == VAction::SyncWal(id));
    }
}

/// Every put into a mem-table with a WAL is logged, as a batch of its own and before anything else,
/// in the WAL of that mem-table; without a WAL nothing is.
pub proof fn lemma_put_actions(w: WriteState, e: VEntry, options: LsmStorageOptions)
    requires
        w.mems.len() > 0,
    ensures
        ({
            let acts = engine::put_effects(w, e, options).1;
            &&& w.mems[0].log is Some ==> acts.len() > 0 && acts[0] == VAction::AppendWal(
                w.mems[0].id,
                wal::batch_bytes(seq![e]),
            )
            &&& forall|i: int|
                0 <= i < acts.len() && #[trigger] acts[i] is AppendWal ==> i == 0
                    && w.mems[0].log is Some
        }),
{
    let put = WriteState { mems: w.mems.update(0, engine::put_mem(w.mems[0], e)), next: w.next };
    let more = engine::freeze_effects(put, options).1;
    assert forall|i: int| 0 <= i < more.len() implies !(#[trigger] more[i] is AppendWal) by {}
    let acts = engine::put_effects(w, e, options).1;
    let logged: int = if w.mems[0].log is Some {
        1
    } else {
        0
    };
    assert forall|i: int| 0 <= i < acts.len() && #[trigger] acts[i] is AppendWal implies i == 0
        && w.mems[0].log is Some by {
        if i >= logged {
            assert(acts[i] == more[i - logged]);
        }
    }
}

/// The manifest names a flushed table only after its file has been written and the directory has
/// been made durable.
pub proof fn lemma_flush_actions(before: LsmStorageInner, after: LsmStorageInner, r: Seq<Action>)
    requires
        after.flushed(before, r),
    ensures
        ({
            let id = before.state.imm_memtables@.last().id;
            exists|i: int, j: int, k: int|
                0 <= i < j < k < r.len() && (#[trigger] r[i]@) == VAction::WriteSst(
                    after.state.sstables@[id],
                ) && (#[trigger] r[j]@) == VAction::SyncDir && (#[trigger] r[k]@)
                    == VAction::WriteManifest(ManifestRecord::Flush(id))
        }),
        forall|i: int|
            0 <= i < r.len() && (#[trigger] r[i]@) is WriteManifest ==> r[i]@
                == VAction::WriteManifest(
                ManifestRecord::Flush(before.state.imm_memtables@.last().id),
            ),
{
    let v = engine::action_views(r);
    let id = before.state.imm_memtables@.last().id;
    assert(v == seq![
        VAction::WriteSst(after.state.sstables@[id]),
        VAction::SyncDir,
        VAction::WriteManifest(ManifestRecord::Flush(id)),
    ]);
    assert(v.len() == 3);
    assert(r.len() == 3);
    assert(v[0] == r[0]@ && v[1] == r[1]@ && v[2] == r[2]@);
    assert forall|i: int| 0 <= i < r.len() && (#[trigger] r[i]@) is WriteManifest implies r[i]@
        == VAction::WriteManifest(
        ManifestRecord::Flush(before.state.imm_memtables@.last().id),
    ) by {
        assert(v[i] == r[i]@);
        assert(i == 2);
    }
}

/// While there are at most `num_memtable_limit` mem-tables, the current one included, nothing is
/// flushed. With more, the earliest immutable one becomes a table, and only that one: it leaves
/// memory, its table is loaded under its id, and the table holds what it held.
pub proof fn lemma_flush_trigger(before: LsmStorageInner, after: LsmStorageInner, r: Seq<Action>)
    requires
        engine::flush_triggered(before, after, r),
        forall|i: int|
            0 <= i < before.state.imm_memtables@.len()
                ==> !before.state.sstables@.contains_key(
                (#[trigger] before.state.imm_memtables@[i]).id,
            ),
    ensures
        ({
            let imm = before.state.imm_memtables@;
            let limit = before.options.num_memtable_limit;
            &&& imm.len() + 1 <= limit || imm.len() == 0 ==> after == before && r.len() == 0
            &&& imm.len() + 1 > limit && imm.len() > 0 ==> {
                &&& after.state.memtable == before.state.memtable
                &&& after.state.imm_memtables@ == imm.drop_last()
                &&& forall|x: usize| #[trigger]
                    after.state.sstables@.contains_key(x) <==> before.state.sstables@.contains_key(
                        x,
                    ) || x == imm.last().id
                &&& merging::to_map(after.state.sstables@[imm.last().id].entries())
                    == imm.last().contents()
                &&& r.len() > 0
            }
        }),
{
    if before.state.imm_memtables@.len() > 0 && before.options.num_memtable_limit
        < before.state.imm_memtables@.len() + 1 {
        assert(engine::action_views(r).len() == 3);
    }
}

/// Forcing a flush does nothing where memory is empty. Otherwise exactly one more table is loaded, the
/// current mem-table is empty afterwards, and there is one mem-table with entries less: the earliest
/// immutable one has become that table, or the current one where there was none.
pub proof fn lemma_force_flush(before: LsmStorageInner, after: LsmStorageInner, r: Seq<Action>)
    requires
        engine::force_flushed(before, after, r),
        before.ids_ok(),
    ensures
        ({
            let empty = Map::<VKey, Seq<u8>>::empty();
            let imm = before.state.imm_memtables@;
            let id = if imm.len() > 0 {
                imm.last().id
            } else {
                before.state.memtable.id
            };
            &&& before.state.memtable.contents() == empty && imm.len() == 0 ==> after == before
                && r.len() == 0
            &&& before.state.memtable.contents() != empty || imm.len() > 0 ==> {
                &&& after.state.memtable.contents() == empty
                &&& after.state.sstables@.dom() == before.state.sstables@.dom().insert(id)
                &&& !before.state.sstables@.contains_key(id)
                &&& before.state.memtable.contents() != empty ==> after.state.imm_memtables@.len()
                    == imm.len()
                &&& before.state.memtable.contents() == empty ==> after.state.imm_memtables@.len()
                    == imm.len() - 1
            }
        }),
{
    let empty = Map::<VKey, Seq<u8>>::empty();
    let imm = before.state.imm_memtables@;
    let w = before.write_state().mems;
    assert(w[0] == engine::mem_view(before.state.memtable));
    if imm.len() > 0 {
        assert(w[imm.len() as int] == engine::mem_view(imm.last()));
    }
    if before.state.memtable.contents() != empty {
        let (frozen, a, b) = choose|frozen: LsmStorageInner, a: Seq<Action>, b: Seq<Action>|
            #[trigger]
            engine::two_steps(r, a, b) && #[trigger] before.froze(frozen, a) && after.flushed(
                frozen,
                b,
            );
        let mems = frozen.write_state().mems;
        assert(mems.len() == w.len() + 1);
        assert(mems[0] == engine::mem_view(frozen.state.memtable));
        let last = frozen.state.imm_memtables@.len() - 1;
        assert(mems[last + 1] == engine::mem_view(frozen.state.imm_memtables@[last]));
        assert(mems[last + 1] == w[last]);
        assert(after.state.sstables@.dom() =~= before.state.sstables@.dom().insert(w[last].id));
    } else if imm.len() > 0 {
        assert(after.state.sstables@.dom() =~= before.state.sstables@.dom().insert(
            imm.last().id,
        ));
    }
}

/// Each flush takes one mem-table out of memory and keeps the current one.
proof fn lemma_flushed_times(
    before: LsmStorageInner,
    after: LsmStorageInner,
    r: Seq<Action>,
    n: nat,
)
    requires
        engine::flushed_times(before, after, r, n),
    ensures
        after.state.imm_memtables@.len() + n == before.state.imm_memtables@.len(),
        after.state.memtable == before.state.memtable,
        after.options == before.options,
    decreases n,
{
    if n > 0 {
        let (mid, a, b) = choose|mid: LsmStorageInner, a: Seq<Action>, b: Seq<Action>| #[trigger]
            engine::two_steps(r, a, b) && #[trigger] after.flushed(mid, b)
                && mid.state.imm_memtables@.len() > 0 && engine::flushed_times(
                before,
                mid,
                a,
                (n - 1) as nat,
            );
        lemma_flushed_times(before, mid, a, (n - 1) as nat);
    }
}

/// Closing does nothing with a WAL. Without one, nothing is left in memory.
pub proof fn lemma_close(before: LsmStorageInner, after: LsmStorageInner, r: Seq<Action>)
    requires
        engine::closed(before, after, r),
    ensures
        before.options.enable_wal ==> after == before && r.len() == 0,
        !before.options.enable_wal ==> after.state.imm_memtables@.len() == 0
            && after.state.memtable.contents() == Map::<VKey, Seq<u8>>::empty()
            && after.state.memtable.approximate_size == 0,
{
    if !before.options.enable_wal {
        let (frozen, a, b) = choose|frozen: LsmStorageInner, a: Seq<Action>, b: Seq<Action>|
            #[trigger]
            engine::two_steps(r, a, b) && #[trigger] before.froze(frozen, a)
                && engine::flushed_times(
                frozen,
                after,
                b,
                frozen.state.imm_memtables@.len(),
            );
        lemma_flushed_times(frozen, after, b, frozen.state.imm_memtables@.len());
        assert(frozen.write_state().mems[0] == engine::mem_view(frozen.state.memtable));
    }
}

} // verus!
