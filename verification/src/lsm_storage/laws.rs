//! What holds of the engine as a whole.
use std::sync::Arc;

use vstd::prelude::*;

use crate::compact::leveled;
use crate::iterators::{concat_iterator, merging};
use crate::key::{VEntry, VKey};
use crate::lsm_iterator;
use crate::lsm_storage::engine::Action;
use crate::lsm_storage::LsmStorageInner;
use crate::lsm_storage::{engine, read, state};
use crate::table::SsTable;
use crate::{table, wal};

verus! {

broadcast use vstd::std_specs::hash::group_hash_axioms;

/// One more table leaves the tables that are listed as they are.
pub proof fn lemma_tables_of_insert(
    tables: Map<usize, Arc<SsTable>>,
    id: usize,
    sst: Arc<SsTable>,
    ids: Seq<usize>,
)
    requires
        leveled::all_loaded(tables, ids),
        !tables.contains_key(id),
    ensures
        leveled::all_loaded(tables.insert(id, sst), ids),
        state::tables_of(tables.insert(id, sst), ids) == state::tables_of(tables, ids),
        state::table_layers(tables.insert(id, sst), ids) == state::table_layers(tables, ids),
{
    assert forall|i: int| 0 <= i < ids.len() implies tables.insert(id, sst).contains_key(
        #[trigger] ids[i],
    ) && tables.insert(id, sst)[ids[i]] == tables[ids[i]] by {
        assert(tables.contains_key(ids[i]));
    }
    assert(state::tables_of(tables.insert(id, sst), ids) =~= state::tables_of(tables, ids));
    assert(state::table_layers(tables.insert(id, sst), ids) =~= state::table_layers(tables, ids));
}

/// A single table is a run.
pub proof fn lemma_single_run(sst: Arc<SsTable>)
    requires
        sst.wf(),
    ensures
        concat_iterator::run_ok(seq![sst]),
        concat_iterator::joined(seq![sst]) == sst.entries(),
{
    let tables = seq![sst];
    let c = concat_iterator::contents(tables);
    assert(c =~= seq![sst.entries()]);
    assert(c.drop_first() =~= Seq::empty());
    assert(table::builder::flat(c.drop_first()) =~= Seq::empty());
    assert(concat_iterator::joined(tables) =~= sst.entries());
}

/// Of every user key, what lies further up is not older than what lies below.
pub open spec fn layers_aged(layers: Seq<Map<VKey, Seq<u8>>>) -> bool {
    forall|i: int, j: int, x: VKey, y: VKey|
        0 <= i < j < layers.len() && #[trigger] layers[i].contains_key(x)
            && #[trigger] layers[j].contains_key(y) && x.key == y.key ==> x.ts >= y.ts
}

/// A layer that says nothing can be put in front.
pub proof fn lemma_aged_cons(layers: Seq<Map<VKey, Seq<u8>>>)
    ensures
        layers_aged(layers) ==> layers_aged(seq![Map::<VKey, Seq<u8>>::empty()] + layers),
{
    let all = seq![Map::<VKey, Seq<u8>>::empty()] + layers;
    if layers_aged(layers) {
        assert forall|i: int, j: int, x: VKey, y: VKey|
            0 <= i < j < all.len() && #[trigger] all[i].contains_key(x)
                && #[trigger] all[j].contains_key(y) && x.key == y.key implies x.ts >= y.ts by {
            assert(all[j] == layers[j - 1]);
            if i > 0 {
                assert(all[i] == layers[i - 1]);
            }
        }
    }
}

/// What is not older than anything can be put into the first layer.
pub proof fn lemma_aged_put(layers: Seq<Map<VKey, Seq<u8>>>, e: VEntry)
    requires
        layers.len() > 0,
        layers_aged(layers),
        no_newer(merging::union_layers(layers), e.key.ts),
    ensures
        layers_aged(layers.update(0, layers[0].insert(e.key, e.value))),
{
    let all = layers.update(0, layers[0].insert(e.key, e.value));
    assert forall|i: int, j: int, x: VKey, y: VKey|
        0 <= i < j < all.len() && #[trigger] all[i].contains_key(x)
            && #[trigger] all[j].contains_key(y) && x.key == y.key implies x.ts >= y.ts by {
        assert(all[j] == layers[j]);
        if i == 0 && x == e.key {
            merging::lemma_union_contains(layers, y);
            assert(merging::union_layers(layers).contains_key(y));
        } else {
            assert(layers[i].contains_key(x));
        }
    }
}

/// Turning a mem-table into a table keeps the engine well formed where no table has the mem-table's
/// id yet.
pub proof fn lemma_flush_wf(before: LsmStorageInner, after: LsmStorageInner, r: Seq<Action>)
    requires
        before.wf(),
        before.state.imm_memtables@.len() > 0,
        after.flushed(before, r),
        !before.state.sstables@.contains_key(before.state.imm_memtables@.last().id),
    ensures
        after.wf(),
{
    let id = before.state.imm_memtables@.last().id;
    let a = before.state;
    let b = after.state;
    let sst = b.sstables@[id];
    assert forall|i: int| 0 <= i < b.imm_memtables@.len() implies (
    #[trigger] b.imm_memtables@[i]).fits() by {
        assert(a.imm_memtables@[i].fits());
    }
    lemma_tables_of_insert(a.sstables@, id, sst, a.l0_sstables@);
    assert forall|i: int| 0 <= i < b.levels@.len() implies #[trigger] b.level_ok(i) by {
        if before.compaction_controller is Tiered {
            if i == 0 {
                assert(state::tables_of(b.sstables@, b.levels@[0].1@) =~= seq![sst]);
                lemma_single_run(sst);
            } else {
                assert(a.level_ok(i - 1));
                lemma_tables_of_insert(a.sstables@, id, sst, a.levels@[i - 1].1@);
            }
        } else {
            assert(a.level_ok(i));
            lemma_tables_of_insert(a.sstables@, id, sst, a.levels@[i].1@);
        }
    }
    lemma_flush_keeps_contents(before, after, r);
}

/// Turning a mem-table into a table changes nothing about what the engine holds, where no table has
/// the mem-table's id yet.
pub proof fn lemma_flush_keeps_contents(
    before: LsmStorageInner,
    after: LsmStorageInner,
    r: Seq<Action>,
)
    requires
        before.parts_ok(),
        before.state.imm_memtables@.len() > 0,
        after.flushed(before, r),
        !before.state.sstables@.contains_key(before.state.imm_memtables@.last().id),
    ensures
        after.state.layers() == before.state.layers(),
        after.contents() == before.contents(),
{
    let mem = before.state.imm_memtables@.last();
    let id = mem.id;
    let a = before.state;
    let b = after.state;
    let sst = b.sstables@[id];
    lemma_tables_of_insert(a.sstables@, id, sst, a.l0_sstables@);
    let mems_a = state::mem_layers(a);
    let mems_b = state::mem_layers(b);
    let m = mem.contents();
    assert(mems_a =~= mems_b.push(m));
    if before.compaction_controller is Tiered {
        lemma_single_run(sst);
        assert(state::tables_of(b.sstables@, b.levels@[0].1@) =~= seq![sst]);
        let la = state::level_layers(a.sstables@, a.levels@);
        let lb = state::level_layers(b.sstables@, b.levels@);
        assert(lb =~= seq![m] + la) by {
            assert forall|i: int| 0 < i < lb.len() implies #[trigger] lb[i] == la[i - 1] by {
                assert(a.level_ok(i - 1));
                lemma_tables_of_insert(a.sstables@, id, sst, a.levels@[i - 1].1@);
            }
        }
        assert(a.layers() =~= b.layers());
    } else {
        let ta = state::table_layers(a.sstables@, a.l0_sstables@);
        let tb = state::table_layers(b.sstables@, b.l0_sstables@);
        assert(tb =~= seq![m] + ta) by {
            assert forall|i: int| 0 < i < tb.len() implies #[trigger] tb[i] == ta[i - 1] by {
                assert(state::table_layers(b.sstables@, a.l0_sstables@)[i - 1] == ta[i - 1]);
            }
        }
        let la = state::level_layers(a.sstables@, a.levels@);
        let lb = state::level_layers(b.sstables@, b.levels@);
        assert(lb =~= la) by {
            assert forall|i: int| 0 <= i < lb.len() implies #[trigger] lb[i] == la[i] by {
                assert(a.level_ok(i));
                lemma_tables_of_insert(a.sstables@, id, sst, a.levels@[i].1@);
            }
        }
        assert(a.layers() =~= b.layers());
    }
}

/// Turning a mem-table into a table keeps the ids in order.
pub proof fn lemma_flush_keeps_ids(before: LsmStorageInner, after: LsmStorageInner, r: Seq<Action>)
    requires
        before.wf(),
        before.ids_ok(),
        before.state.imm_memtables@.len() > 0,
        after.flushed(before, r),
    ensures
        after.ids_ok(),
{
    let a = before.state;
    let b = after.state;
    let id = a.imm_memtables@.last().id;
    let ma = before.write_state().mems;
    let mb = after.write_state().mems;
    let n = mb.len() as int;
    assert(ma[n].id == id);
    assert(ma.take(n) =~= mb);
    assert forall|i: int| 0 <= i < mb.len() implies (#[trigger] mb[i]).id < after.next_sst_id
        && !b.sstables@.contains_key(mb[i].id) by {
        assert(ma[i] == mb[i]);
        assert(ma[i].id != ma[n].id);
    }
    assert forall|i: int, j: int| #![trigger mb[i], mb[j]] 0 <= i < j < mb.len() implies mb[i].id
        != mb[j].id by {
        assert(ma[i] == mb[i]);
        assert(ma[j] == mb[j]);
    }
    // The new table is in no list yet.
    assert(!a.l0_sstables@.contains(id)) by {
        if a.l0_sstables@.contains(id) {
            assert(a.sstables@.contains_key(a.l0_sstables@[a.l0_sstables@.index_of(id)]));
        }
    }
    assert forall|i: int| 0 <= i < a.levels@.len() implies !(#[trigger] a.levels@[i]).1@.contains(
        id,
    ) by {
        assert(a.level_ok(i));
        let ids = a.levels@[i].1@;
        if ids.contains(id) {
            assert(a.sstables@.contains_key(ids[ids.index_of(id)]));
        }
    }
    if before.compaction_controller is Tiered {
        assert forall|i: int| 0 <= i < b.levels@.len() implies engine::apart(
            b.l0_sstables@,
            #[trigger] b.levels@[i].1@,
        ) by {
            if i == 0 {
                assert forall|x: usize| #[trigger] b.l0_sstables@.contains(x) implies !seq![
                    id,
                ].contains(x) by {}
            } else {
                assert(engine::apart(a.l0_sstables@, a.levels@[i - 1].1@));
            }
        }
        assert forall|i: int, j: int|
            #![trigger b.levels@[i], b.levels@[j]]
            0 <= i < b.levels@.len() && 0 <= j < b.levels@.len() && i != j implies engine::apart(
            b.levels@[i].1@,
            b.levels@[j].1@,
        ) by {
            if i > 0 && j > 0 {
                assert(engine::apart(a.levels@[i - 1].1@, a.levels@[j - 1].1@));
            } else if i == 0 {
                assert(!a.levels@[j - 1].1@.contains(id));
            } else {
                assert(!a.levels@[i - 1].1@.contains(id));
            }
        }
    } else {
        assert forall|i: int| 0 <= i < b.levels@.len() implies engine::apart(
            b.l0_sstables@,
            #[trigger] b.levels@[i].1@,
        ) by {
            assert(engine::apart(a.l0_sstables@, a.levels@[i].1@));
            assert forall|x: usize| #[trigger] b.l0_sstables@.contains(x) implies !b.levels@[i].1@.contains(
                x,
            ) by {
                let p = b.l0_sstables@.index_of(x);
                if p > 0 {
                    assert(a.l0_sstables@[p - 1] == x);
                    assert(a.l0_sstables@.contains(x));
                }
            }
        }
    }
}

/// What the last of several entries for a user key gives it.
pub open spec fn last_write(es: Seq<VEntry>, k: Seq<u8>) -> Option<Seq<u8>>
    decreases es.len(),
{
    if es.len() == 0 {
        None
    } else if es.last().key.key == k {
        Some(es.last().value)
    } else {
        last_write(es.drop_last(), k)
    }
}

/// What a reader finds where a value has been written: nothing, where the value is a tombstone.
pub open spec fn found(v: Seq<u8>) -> Option<Seq<u8>> {
    if v.len() > 0 {
        Some(v)
    } else {
        None
    }
}

/// No version is newer than the latest commit.
pub open spec fn no_newer(m: Map<VKey, Seq<u8>>, ts: u64) -> bool {
    forall|x: VKey| #[trigger] m.contains_key(x) ==> x.ts <= ts
}

/// What versions there are after entries have been put at one timestamp.
proof fn lemma_put_all_at(m: Map<VKey, Seq<u8>>, es: Seq<VEntry>, ts: u64, x: VKey)
    requires
        forall|i: int| 0 <= i < es.len() ==> (#[trigger] es[i]).key.ts == ts,
    ensures
        ({
            let n = wal::put_all(m, es);
            if x.ts == ts && last_write(es, x.key) is Some {
                n.contains_key(x) && n[x] == last_write(es, x.key)->0
            } else {
                (n.contains_key(x) <==> m.contains_key(x)) && (m.contains_key(x) ==> n[x] == m[x])
            }
        }),
    decreases es.len(),
{
    if es.len() > 0 {
        let front = es.drop_last();
        let e = es.last();
        assert forall|i: int| 0 <= i < front.len() implies (#[trigger] front[i]).key.ts == ts by {
            assert(front[i] == es[i]);
        }
        lemma_put_all_at(m, front, ts, x);
        wal::lemma_put_all_push(m, front, e);
        assert(front.push(e) =~= es);
        assert(es[es.len() - 1].key.ts == ts);
        if x.ts == ts && x.key == e.key.key {
            assert(x =~= e.key);
        }
    }
}

/// What readers see after a write at a new timestamp: at that timestamp, what was written, and of
/// other user keys what was there before; at an earlier timestamp, what they saw before.
pub open spec fn shows_write(
    before: LsmStorageInner,
    after: LsmStorageInner,
    es: Seq<VEntry>,
) -> bool {
    &&& forall|k: Seq<u8>| #[trigger]
        read::seen(after.contents(), k, after.mvcc.ts.0) == match last_write(es, k) {
            Some(v) => found(v),
            None => read::seen(before.contents(), k, before.mvcc.ts.0),
        }
    &&& forall|k: Seq<u8>, read_ts: u64|
        read_ts <= before.mvcc.ts.0 ==> #[trigger] read::seen(after.contents(), k, read_ts)
            == read::seen(before.contents(), k, read_ts)
}

/// A write at a new timestamp shows as it should to every reader.
pub proof fn lemma_write_shows(
    before: LsmStorageInner,
    after: LsmStorageInner,
    es: Seq<VEntry>,
    r: Seq<Action>,
)
    requires
        before.mvcc.ts.0 < u64::MAX,
        before.wf(),
        forall|i: int|
            0 <= i < es.len() ==> (#[trigger] es[i]).key.ts == before.mvcc.ts.0 + 1,
        after.written(before, es, r),
    ensures
        shows_write(before, after, es),
{
    assert forall|k: Seq<u8>| #[trigger]
        read::seen(after.contents(), k, after.mvcc.ts.0) == match last_write(es, k) {
            Some(v) => found(v),
            None => read::seen(before.contents(), k, before.mvcc.ts.0),
        } by {
        lemma_write_then_read(before, after, es, r, k, 0);
    }
    assert forall|k: Seq<u8>, read_ts: u64|
        read_ts <= before.mvcc.ts.0 implies #[trigger] read::seen(after.contents(), k, read_ts)
        == read::seen(before.contents(), k, read_ts) by {
        lemma_write_then_read(before, after, es, r, k, read_ts);
    }
}

/// Of the user keys that a write at a new timestamp wrote, a reader at that timestamp sees what was
/// written; of all others it sees what a reader before the write saw. A reader at an earlier
/// timestamp sees what it saw before the write.
pub proof fn lemma_write_then_read(
    before: LsmStorageInner,
    after: LsmStorageInner,
    es: Seq<VEntry>,
    r: Seq<Action>,
    k: Seq<u8>,
    read_ts: u64,
)
    requires
        before.mvcc.ts.0 < u64::MAX,
        before.wf(),
        forall|i: int|
            0 <= i < es.len() ==> (#[trigger] es[i]).key.ts == before.mvcc.ts.0 + 1,
        after.written(before, es, r),
    ensures
        no_newer(after.contents(), after.mvcc.ts.0),
        read::seen(after.contents(), k, after.mvcc.ts.0) == match last_write(es, k) {
            Some(v) => found(v),
            None => read::seen(before.contents(), k, before.mvcc.ts.0),
        },
        read_ts <= before.mvcc.ts.0 ==> read::seen(after.contents(), k, read_ts) == read::seen(
            before.contents(),
            k,
            read_ts,
        ),
{
    let m = before.contents();
    let n = after.contents();
    let old_ts = before.mvcc.ts.0;
    let ts = after.mvcc.ts.0;
    assert forall|x: VKey| #[trigger] n.contains_key(x) implies x.ts <= ts by {
        lemma_put_all_at(m, es, ts, x);
    }
    assert forall|t: u64| t <= old_ts implies (#[trigger] n.contains_key(VKey { key: k, ts: t })
        <==> m.contains_key(VKey { key: k, ts: t })) && (m.contains_key(VKey { key: k, ts: t })
        ==> n[VKey { key: k, ts: t }] == m[VKey { key: k, ts: t }]) by {
        lemma_put_all_at(m, es, ts, VKey { key: k, ts: t });
    }
    lemma_same_past(n, m, k, old_ts, old_ts);
    if read_ts <= old_ts {
        lemma_same_past(n, m, k, old_ts, read_ts);
    }
    lemma_put_all_at(m, es, ts, VKey { key: k, ts });
    match last_write(es, k) {
        Some(v) => {
            assert(lsm_iterator::is_latest(n, k, ts, ts));
            lsm_iterator::lemma_latest_unique(n, k, ts, ts);
        },
        None => {
            assert(!n.contains_key(VKey { key: k, ts }));
            lemma_nothing_newer(n, k, old_ts, ts);
        },
    }
}

/// What a reader sees after entries have been put at the next timestamp, whoever reads when.
pub proof fn lemma_put_seen(
    m: Map<VKey, Seq<u8>>,
    es: Seq<VEntry>,
    last: u64,
    k: Seq<u8>,
    read_ts: u64,
)
    requires
        last < u64::MAX,
        no_newer(m, last),
        forall|i: int| 0 <= i < es.len() ==> (#[trigger] es[i]).key.ts == last + 1,
    ensures
        read::seen(wal::put_all(m, es), k, read_ts) == if read_ts > last && last_write(
            es,
            k,
        ) is Some {
            found(last_write(es, k)->0)
        } else {
            read::seen(m, k, read_ts)
        },
{
    let n = wal::put_all(m, es);
    let ts = (last + 1) as u64;
    if read_ts > last && last_write(es, k) is Some {
        lemma_put_all_at(m, es, ts, VKey { key: k, ts });
        assert forall|u: u64| ts < u <= read_ts implies !(#[trigger] n.contains_key(
            VKey { key: k, ts: u },
        )) by {
            lemma_put_all_at(m, es, ts, VKey { key: k, ts: u });
            assert(!m.contains_key(VKey { key: k, ts: u }));
        }
        assert(lsm_iterator::is_latest(n, k, read_ts, ts));
        lsm_iterator::lemma_latest_unique(n, k, read_ts, ts);
    } else {
        assert forall|t: u64| t <= read_ts implies (#[trigger] n.contains_key(
            VKey { key: k, ts: t },
        ) <==> m.contains_key(VKey { key: k, ts: t })) && (m.contains_key(VKey { key: k, ts: t })
            ==> n[VKey { key: k, ts: t }] == m[VKey { key: k, ts: t }]) by {
            lemma_put_all_at(m, es, ts, VKey { key: k, ts: t });
        }
        lemma_same_past(n, m, k, read_ts, read_ts);
    }
}

/// What is looked up at a timestamp depends on the versions up to it only.
proof fn lemma_same_past(
    a: Map<VKey, Seq<u8>>,
    b: Map<VKey, Seq<u8>>,
    k: Seq<u8>,
    limit: u64,
    ts: u64,
)
    requires
        ts <= limit,
        forall|t: u64|
            t <= limit ==> (#[trigger] a.contains_key(VKey { key: k, ts: t }) <==> b.contains_key(
                VKey { key: k, ts: t },
            )) && (b.contains_key(VKey { key: k, ts: t }) ==> a[VKey { key: k, ts: t }]
                == b[VKey { key: k, ts: t }]),
    ensures
        lsm_iterator::lookup(a, k, ts) == lsm_iterator::lookup(b, k, ts),
{
    if exists|t: u64| lsm_iterator::is_latest(a, k, ts, t) {
        let t = choose|t: u64| lsm_iterator::is_latest(a, k, ts, t);
        assert forall|u: u64| t < u <= ts implies !(#[trigger] b.contains_key(
            VKey { key: k, ts: u },
        )) by {
            assert(!a.contains_key(VKey { key: k, ts: u }));
        }
        assert(lsm_iterator::is_latest(b, k, ts, t));
        lsm_iterator::lemma_latest_unique(a, k, ts, t);
        lsm_iterator::lemma_latest_unique(b, k, ts, t);
    } else if exists|t: u64| lsm_iterator::is_latest(b, k, ts, t) {
        let t = choose|t: u64| lsm_iterator::is_latest(b, k, ts, t);
        assert(a.contains_key(VKey { key: k, ts: t }));
        assert(lsm_iterator::is_latest(a, k, ts, t));
    }
}

/// A reader at a later timestamp sees the same where no version has come since.
pub proof fn lemma_nothing_newer(m: Map<VKey, Seq<u8>>, k: Seq<u8>, old_ts: u64, ts: u64)
    requires
        old_ts <= ts,
        forall|u: u64| old_ts < u <= ts ==> !(#[trigger] m.contains_key(VKey { key: k, ts: u })),
    ensures
        lsm_iterator::lookup(m, k, ts) == lsm_iterator::lookup(m, k, old_ts),
{
    if exists|t: u64| lsm_iterator::is_latest(m, k, old_ts, t) {
        let t = choose|t: u64| lsm_iterator::is_latest(m, k, old_ts, t);
        assert forall|u: u64| t < u <= ts implies !(#[trigger] m.contains_key(
            VKey { key: k, ts: u },
        )) by {
            if u <= old_ts {
                assert(!m.contains_key(VKey { key: k, ts: u }));
            }
        }
        assert(lsm_iterator::is_latest(m, k, ts, t));
        lsm_iterator::lemma_latest_unique(m, k, ts, t);
        lsm_iterator::lemma_latest_unique(m, k, old_ts, t);
    } else if exists|t: u64| lsm_iterator::is_latest(m, k, ts, t) {
        let t = choose|t: u64| lsm_iterator::is_latest(m, k, ts, t);
        assert(t <= old_ts);
        assert(lsm_iterator::is_latest(m, k, old_ts, t));
    }
}

} // verus!
