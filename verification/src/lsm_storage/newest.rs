//! Finding the newest version of a user key in tables, and the clock that is ahead of all of them.
use std::sync::Arc;

use vstd::prelude::*;

use crate::error::LsmError;
use crate::iterators::{concat_iterator, merging};
use crate::key::{VEntry, VKey, TS_RANGE_BEGIN};
use crate::lsm_storage::recovery::StoredFiles;
use crate::lsm_storage::{laws, read, recovery, state};
use crate::lsm_storage::{LsmStorageInner, LsmStorageOptions, LsmStorageState};
use crate::manifest::ManifestRecord;
use crate::table::SsTable;
use crate::{key, lsm_iterator, table};

verus! {

/// The first version in entries one after another is that of the first part, if it has one.
proof fn lemma_first_version_concat(a: Seq<VEntry>, b: Seq<VEntry>, k: Seq<u8>, ts: u64)
    ensures
        lsm_iterator::first_version(a + b, k, ts) == match lsm_iterator::first_version(a, k, ts) {
            Some(v) => Some(v),
            None => lsm_iterator::first_version(b, k, ts),
        },
    decreases a.len(),
{
    if a.len() == 0 {
        assert(a + b =~= b);
    } else {
        lemma_first_version_concat(a.drop_first(), b, k, ts);
        assert((a + b).drop_first() =~= a.drop_first() + b);
    }
}

/// In a run of tables, the first version is that of the first table that has one.
proof fn lemma_run_get(tables: Map<usize, Arc<SsTable>>, ids: Seq<usize>, k: Seq<u8>)
    requires
        forall|i: int| 0 <= i < ids.len() ==> tables.contains_key(#[trigger] ids[i]),
    ensures
        read::level_get(tables, ids, k) == Ok::<Option<Seq<u8>>, LsmError>(
            lsm_iterator::first_version(
                concat_iterator::joined(state::tables_of(tables, ids)),
                k,
                TS_RANGE_BEGIN,
            ),
        ),
    decreases ids.len(),
{
    let c = concat_iterator::contents(state::tables_of(tables, ids));
    if ids.len() == 0 {
        assert(table::builder::flat(c) =~= Seq::empty());
    } else {
        let rest = ids.drop_first();
        assert forall|i: int| 0 <= i < rest.len() implies tables.contains_key(#[trigger] rest[i]) by {
            assert(rest[i] == ids[i + 1]);
        }
        lemma_run_get(tables, rest, k);
        assert(tables.contains_key(ids[0]));
        assert(c.drop_first() =~= concat_iterator::contents(state::tables_of(tables, rest)));
        lemma_first_version_concat(c[0], table::builder::flat(c.drop_first()), k, TS_RANGE_BEGIN);
    }
}

/// What the first layer says that has a version of the user key: its newest one there.
pub open spec fn first_layer_says(layers: Seq<Map<VKey, Seq<u8>>>, k: Seq<u8>) -> Option<Seq<u8>>
    decreases layers.len(),
{
    if layers.len() == 0 {
        None
    } else {
        match lsm_iterator::lookup(layers[0], k, u64::MAX) {
            Some(v) => Some(v),
            None => first_layer_says(layers.drop_first(), k),
        }
    }
}

/// Where what lies further up is not older, the first layer that has a version of a user key has the
/// newest one of all.
proof fn lemma_first_layer_newest(layers: Seq<Map<VKey, Seq<u8>>>, k: Seq<u8>)
    requires
        laws::layers_aged(layers),
        forall|i: int, x: VKey|
            0 <= i < layers.len() && #[trigger] layers[i].contains_key(x) && x.key == k
                ==> lsm_iterator::lookup(layers[i], k, u64::MAX) is Some,
    ensures
        first_layer_says(layers, k) == lsm_iterator::lookup(
            merging::union_layers(layers),
            k,
            u64::MAX,
        ),
    decreases layers.len(),
{
    let all = merging::union_layers(layers);
    if layers.len() == 0 {
        assert(!exists|t: u64| lsm_iterator::is_latest(all, k, u64::MAX, t));
    } else {
        let rest = layers.drop_first();
        let top = layers[0];
        assert forall|i: int, j: int, x: VKey, y: VKey|
            0 <= i < j < rest.len() && #[trigger] rest[i].contains_key(x)
                && #[trigger] rest[j].contains_key(y) && x.key == y.key implies x.ts >= y.ts by {
            assert(layers[i + 1].contains_key(x) && layers[j + 1].contains_key(y));
        }
        assert forall|i: int, x: VKey|
            0 <= i < rest.len() && #[trigger] rest[i].contains_key(x) && x.key == k implies
            lsm_iterator::lookup(rest[i], k, u64::MAX) is Some by {
            assert(layers[i + 1].contains_key(x));
        }
        lemma_first_layer_newest(rest, k);
        let below = merging::union_layers(rest);
        if lsm_iterator::lookup(top, k, u64::MAX) is Some {
            let t = choose|t: u64| lsm_iterator::is_latest(top, k, u64::MAX, t);
            assert(top.contains_key(VKey { key: k, ts: t }));
            assert forall|u: u64| t < u <= u64::MAX implies !(#[trigger] all.contains_key(
                VKey { key: k, ts: u },
            )) by {
                let y = VKey { key: k, ts: u };
                assert(!top.contains_key(y));
                merging::lemma_union_contains(rest, y);
                if below.contains_key(y) {
                    let i = choose|i: int|
                        0 <= i < rest.len() && (#[trigger] rest[i]).contains_key(y);
                    assert(layers[0].contains_key(VKey { key: k, ts: t }));
                    assert(layers[i + 1].contains_key(y));
                }
            }
            assert(lsm_iterator::is_latest(all, k, u64::MAX, t));
            lsm_iterator::lemma_latest_unique(all, k, u64::MAX, t);
            lsm_iterator::lemma_latest_unique(top, k, u64::MAX, t);
        } else {
            assert forall|u: u64| #[trigger] all.contains_key(VKey { key: k, ts: u })
                <==> below.contains_key(VKey { key: k, ts: u }) by {
                if top.contains_key(VKey { key: k, ts: u }) {
                    assert(layers[0].contains_key(VKey { key: k, ts: u }));
                }
            }
            if exists|t: u64| lsm_iterator::is_latest(below, k, u64::MAX, t) {
                let t = choose|t: u64| lsm_iterator::is_latest(below, k, u64::MAX, t);
                assert(all.contains_key(VKey { key: k, ts: t }));
                assert(!top.contains_key(VKey { key: k, ts: t })) by {
                    if top.contains_key(VKey { key: k, ts: t }) {
                        assert(layers[0].contains_key(VKey { key: k, ts: t }));
                    }
                }
                assert forall|u: u64| t < u <= u64::MAX implies !(#[trigger] all.contains_key(
                    VKey { key: k, ts: u },
                )) by {
                    assert(!below.contains_key(VKey { key: k, ts: u }));
                }
                assert(lsm_iterator::is_latest(all, k, u64::MAX, t));
                lsm_iterator::lemma_latest_unique(all, k, u64::MAX, t);
                lsm_iterator::lemma_latest_unique(below, k, u64::MAX, t);
            } else if exists|t: u64| lsm_iterator::is_latest(all, k, u64::MAX, t) {
                let t = choose|t: u64| lsm_iterator::is_latest(all, k, u64::MAX, t);
                assert(below.contains_key(VKey { key: k, ts: t }));
                assert forall|u: u64| t < u <= u64::MAX implies !(#[trigger] below.contains_key(
                    VKey { key: k, ts: u },
                )) by {
                    assert(!all.contains_key(VKey { key: k, ts: u }));
                }
                assert(lsm_iterator::is_latest(below, k, u64::MAX, t));
            }
        }
    }
}

/// Sorted entries that have a version of a user key have a newest one.
proof fn lemma_has_newest(s: Seq<VEntry>, x: VKey)
    requires
        key::sorted(s),
        merging::to_map(s).contains_key(x),
    ensures
        lsm_iterator::lookup(merging::to_map(s), x.key, u64::MAX) is Some,
    decreases s.len(),
{
    lsm_iterator::lemma_first_version(s, x.key, u64::MAX);
    merging::lemma_to_map_contains(s, x);
    let i = choose|i: int| 0 <= i < s.len() && (#[trigger] s[i]).key == x;
    if i > 0 {
        let r = s.drop_first();
        merging::lemma_sorted_parts(s);
        assert(r[i - 1] == s[i]);
        merging::lemma_to_map_contains(r, x);
        lemma_has_newest(r, x);
        lsm_iterator::lemma_first_version(r, x.key, u64::MAX);
    }
}

/// The tables of L0 are asked from the first on.
proof fn lemma_l0_get(
    tables: Map<usize, Arc<SsTable>>,
    ids: Seq<usize>,
    k: Seq<u8>,
)
    requires
        state::tables_ok(tables),
        forall|i: int| 0 <= i < ids.len() ==> tables.contains_key(#[trigger] ids[i]),
    ensures
        read::level_get(tables, ids, k) == Ok::<Option<Seq<u8>>, LsmError>(
            first_layer_says(state::table_layers(tables, ids), k),
        ),
    decreases ids.len(),
{
    if ids.len() > 0 {
        let rest = ids.drop_first();
        assert forall|i: int| 0 <= i < rest.len() implies tables.contains_key(#[trigger] rest[i]) by {
            assert(rest[i] == ids[i + 1]);
        }
        lemma_l0_get(tables, rest, k);
        assert(tables.contains_key(ids[0]));
        let layers = state::table_layers(tables, ids);
        assert(layers.drop_first() =~= state::table_layers(tables, rest));
        lsm_iterator::lemma_first_version(tables[ids[0]].entries(), k, TS_RANGE_BEGIN);
    }
}

/// The levels are asked from the first on.
proof fn lemma_levels_get(s: LsmStorageState, k: Seq<u8>, i: int)
    requires
        s.wf(),
        0 <= i <= s.levels@.len(),
    ensures
        read::levels_get(s.sstables@, s.levels@, k, i) == Ok::<Option<Seq<u8>>, LsmError>(
            first_layer_says(state::level_layers(s.sstables@, s.levels@).skip(i), k),
        ),
    decreases s.levels@.len() - i,
{
    let layers = state::level_layers(s.sstables@, s.levels@);
    if i < s.levels@.len() {
        lemma_levels_get(s, k, i + 1);
        assert(layers.skip(i).drop_first() =~= layers.skip(i + 1));
        assert(s.level_ok(i));
        lemma_run_get(s.sstables@, s.levels@[i].1@, k);
        lsm_iterator::lemma_first_version(
            concat_iterator::joined(state::tables_of(s.sstables@, s.levels@[i].1@)),
            k,
            TS_RANGE_BEGIN,
        );
    }
}

proof fn lemma_first_layer_concat(
    a: Seq<Map<VKey, Seq<u8>>>,
    b: Seq<Map<VKey, Seq<u8>>>,
    k: Seq<u8>,
)
    ensures
        first_layer_says(a + b, k) == match first_layer_says(a, k) {
            Some(v) => Some(v),
            None => first_layer_says(b, k),
        },
    decreases a.len(),
{
    if a.len() == 0 {
        assert(a + b =~= b);
    } else {
        lemma_first_layer_concat(a.drop_first(), b, k);
        assert((a + b).drop_first() =~= a.drop_first() + b);
    }
}

/// Asking the tables for a user key gives the value of its newest version that any listed table has,
/// and nothing exactly where none has one, as long as what lies further up is not older.
pub proof fn lemma_tables_give_newest(s: LsmStorageState, k: Seq<u8>)
    requires
        s.wf(),
        laws::layers_aged(
            state::table_layers(s.sstables@, s.l0_sstables@) + state::level_layers(
                s.sstables@,
                s.levels@,
            ),
        ),
    ensures
        read::sstables_get(s, k) == Ok::<Option<Seq<u8>>, LsmError>(
            lsm_iterator::lookup(
                merging::union_layers(
                    state::table_layers(s.sstables@, s.l0_sstables@) + state::level_layers(
                        s.sstables@,
                        s.levels@,
                    ),
                ),
                k,
                u64::MAX,
            ),
        ),
{
    let l0 = state::table_layers(s.sstables@, s.l0_sstables@);
    let levels = state::level_layers(s.sstables@, s.levels@);
    let all = l0 + levels;
    lemma_l0_get(s.sstables@, s.l0_sstables@, k);
    lemma_levels_get(s, k, 0);
    assert(levels.skip(0) =~= levels);
    lemma_first_layer_concat(l0, levels, k);
    assert forall|i: int, x: VKey|
        0 <= i < all.len() && #[trigger] all[i].contains_key(x) && x.key == k implies
        lsm_iterator::lookup(all[i], k, u64::MAX) is Some by {
        if i < l0.len() {
            assert(all[i] == l0[i]);
            assert(s.sstables@.contains_key(s.l0_sstables@[i]));
            lemma_has_newest(s.sstables@[s.l0_sstables@[i]].entries(), x);
        } else {
            let j = i - l0.len();
            assert(all[i] == levels[j]);
            assert(s.level_ok(j));
            lemma_has_newest(
                concat_iterator::joined(state::tables_of(s.sstables@, s.levels@[j].1@)),
                x,
            );
        }
    }
    lemma_first_layer_newest(all, k);
}

/// The clock of an engine that has been brought back is ahead of every version in its tables. It
/// stands at 1, or one behind a timestamp that a table or a WAL holds: no timestamps are left out.
pub proof fn lemma_recovered_clock(
    e: LsmStorageInner,
    options: LsmStorageOptions,
    records: Seq<ManifestRecord>,
    files: StoredFiles,
)
    requires
        e.is_recovered(options, records, files),
        e.wf(),
    ensures
        forall|id: usize, i: int|
            #![trigger e.state.sstables@[id].entries()[i]]
            e.state.sstables@.contains_key(id) && 0 <= i < e.state.sstables@[id].entries().len()
                ==> e.state.sstables@[id].entries()[i].key.ts < e.mvcc.ts.0,
        e.mvcc.ts.0 > 1 ==> (exists|id: usize, i: int|
            #![trigger e.state.sstables@[id].entries()[i]]
            e.state.sstables@.contains_key(id) && 0 <= i < e.state.sstables@[id].entries().len()
                && e.state.sstables@[id].entries()[i].key.ts + 1 == e.mvcc.ts.0) || (exists|i: int|
            0 <= i < records.len() && recovery::record_ts(files, #[trigger] records[i]) == Some(
                (e.mvcc.ts.0 - 1) as u64,
            )),
{
    let tables = e.state.sstables@;
    assert forall|id: usize, i: int|
        #![trigger tables[id].entries()[i]]
        tables.contains_key(id) && 0 <= i < tables[id].entries().len() implies tables[id].entries()[i].key.ts
        < e.mvcc.ts.0 by {
        table::lemma_max_ts(tables[id].entries());
        assert(tables[id].wf());
        assert(tables[id].max_ts <= e.mvcc.ts.0 - 1);
    }
    if e.mvcc.ts.0 > 1 {
        if exists|id: usize| #[trigger]
            tables.contains_key(id) && tables[id].max_ts == (e.mvcc.ts.0 - 1) as u64 {
            let id = choose|id: usize| #[trigger]
                tables.contains_key(id) && tables[id].max_ts == (e.mvcc.ts.0 - 1) as u64;
            let es = tables[id].entries();
            assert(tables[id].wf());
            table::lemma_max_ts(es);
            let i = choose|i: int|
                0 <= i < es.len() && (#[trigger] es[i]).key.ts == table::max_ts_of(es);
            assert(tables[id].entries()[i].key.ts + 1 == e.mvcc.ts.0);
        }
    }
}

} // verus!
