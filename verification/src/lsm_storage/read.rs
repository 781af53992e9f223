//! Reading: bringing together what mem-tables and tables say about the keys of a range.
use std::sync::Arc;

use vstd::prelude::*;

use crate::bound::Bound;
use crate::codec::{copy_slice, same_bytes};
use crate::compact::leveled;
use crate::error::LsmError;
use crate::iterators::concat_iterator;
use crate::iterators::concat_iterator::SstConcatIterator;
use crate::iterators::merge_iterator;
use crate::iterators::merge_iterator::MergeIterator;
use crate::iterators::merging;
use crate::iterators::two_merge_iterator::TwoMergeIterator;
use crate::iterators::StorageIterator;
use crate::key::{KeySlice, VEntry, VKey, TS_DEFAULT, TS_RANGE_BEGIN, TS_RANGE_END};
use crate::lsm_iterator;
use crate::lsm_iterator::{FusedIterator, LsmIterator, LsmIteratorInner};
use crate::lsm_storage::state;
use crate::lsm_storage::{LsmStorageInner, LsmStorageState};
use crate::mem_table::MemTableIterator;
use crate::outside::share;
use crate::table::{SsTable, SsTableIterator};
use crate::{bound, key, outside, skiplist, table};

verus! {

broadcast use {crate::key::group_models, vstd::std_specs::hash::group_hash_axioms};

/// No user key is before the lower end of the range.
pub open spec fn floor(m: Map<VKey, Seq<u8>>, lower: Bound<Seq<u8>>) -> bool {
    forall|k: VKey| #[trigger] m.contains_key(k) ==> not_before(lower, k.key)
}

/// `k` is not before the lower end of the range. The end itself counts even where it is excluded.
pub open spec fn not_before(lower: Bound<Seq<u8>>, k: Seq<u8>) -> bool {
    match lower {
        Bound::Included(l) => key::bytes_le(l, k),
        Bound::Excluded(l) => key::bytes_le(l, k),
        Bound::Unbounded => true,
    }
}

/// `m` has what `full` has for the user keys of the range, and nothing before the range.
pub open spec fn covers(
    m: Map<VKey, Seq<u8>>,
    full: Map<VKey, Seq<u8>>,
    lower: Bound<Seq<u8>>,
    upper: Bound<Seq<u8>>,
) -> bool {
    merging::agree(m, full, lower, upper) && floor(m, lower)
}

/// The ends of a range of versions that takes in all versions of its user keys.
pub open spec fn full_range(lower: Bound<VKey>, upper: Bound<VKey>) -> bool {
    &&& lower == bound::key_bound(bound::byte_bound(lower), TS_RANGE_BEGIN)
    &&& upper == bound::key_bound(bound::byte_bound(upper), TS_RANGE_END)
}

pub proof fn lemma_covers_union(
    a: Map<VKey, Seq<u8>>,
    b: Map<VKey, Seq<u8>>,
    c: Map<VKey, Seq<u8>>,
    d: Map<VKey, Seq<u8>>,
    lower: Bound<Seq<u8>>,
    upper: Bound<Seq<u8>>,
)
    requires
        covers(a, b, lower, upper),
        covers(c, d, lower, upper),
    ensures
        covers(a.union_prefer_right(c), b.union_prefer_right(d), lower, upper),
{
    merging::lemma_agree_union(a, b, c, d, lower, upper);
    let x = a.union_prefer_right(c);
    assert forall|k: VKey| #[trigger] x.contains_key(k) implies not_before(lower, k.key) by {
        assert(a.contains_key(k) || c.contains_key(k));
    }
}

/// A range of versions takes in the user keys between its ends.
proof fn lemma_within(lower: Bound<VKey>, upper: Bound<VKey>, k: VKey)
    requires
        full_range(lower, upper),
    ensures
        bound::above(bound::byte_bound(lower), k.key) && bound::below(
            bound::byte_bound(upper),
            k.key,
        ) ==> skiplist::within(lower, upper, k),
        skiplist::within(lower, upper, k) ==> not_before(bound::byte_bound(lower), k.key),
{
    match lower {
        Bound::Included(l) => {
            if l.key == k.key && l.ts == k.ts {
                assert(l =~= k);
            }
        },
        _ => {},
    }
    match upper {
        Bound::Included(u) => {
            if u.key == k.key && u.ts == k.ts {
                assert(u =~= k);
            }
        },
        _ => {},
    }
}

/// The versions of a mem-table between two ends cover the range.
proof fn lemma_mem_covers(
    m: crossbeam_skiplist::SkipMap<(Vec<u8>, u64), Vec<u8>>,
    lower: Bound<VKey>,
    upper: Bound<VKey>,
)
    requires
        full_range(lower, upper),
    ensures
        covers(
            skiplist::versions_within(m, lower, upper),
            skiplist::versions(m),
            bound::byte_bound(lower),
            bound::byte_bound(upper),
        ),
{
    let a = skiplist::versions_within(m, lower, upper);
    let b = skiplist::versions(m);
    let lo = bound::byte_bound(lower);
    let up = bound::byte_bound(upper);
    assert forall|k: VKey|
        #![trigger a.contains_key(k)]
        #![trigger b.contains_key(k)]
        bound::above(lo, k.key) && bound::below(up, k.key) implies (a.contains_key(k)
        <==> b.contains_key(k)) && (a.contains_key(k) ==> a[k] == b[k]) by {
        lemma_within(lower, upper, k);
    }
    assert forall|k: VKey| #[trigger] a.contains_key(k) implies not_before(lo, k.key) by {
        lemma_within(lower, upper, k);
    }
}

/// Without versions of `k` in front.
pub open spec fn past_user_key(s: Seq<VEntry>, k: Seq<u8>) -> Seq<VEntry>
    decreases s.len(),
{
    if s.len() > 0 && s[0].key.key == k {
        past_user_key(s.drop_first(), k)
    } else {
        s
    }
}

/// What is left of a table's entries after seeking to the lower end of a range.
pub open spec fn sought(es: Seq<VEntry>, lower: Bound<VKey>) -> Seq<VEntry> {
    match lower {
        Bound::Included(k) => es.skip(key::seek_index(es, k)),
        Bound::Excluded(k) => past_user_key(es.skip(key::seek_index(es, k)), k.key),
        Bound::Unbounded => es,
    }
}

/// What is left after seeking to a key is sorted and holds exactly what is not before the key.
proof fn lemma_skip_map(es: Seq<VEntry>, k: VKey)
    requires
        key::sorted(es),
    ensures
        key::sorted(es.skip(key::seek_index(es, k))),
        forall|x: VKey| #[trigger]
            merging::to_map(es.skip(key::seek_index(es, k))).contains_key(x)
                <==> merging::to_map(es).contains_key(x) && !key::key_lt(x, k),
        forall|x: VKey| #[trigger]
            merging::to_map(es.skip(key::seek_index(es, k))).contains_key(x)
                ==> merging::to_map(es.skip(key::seek_index(es, k)))[x] == merging::to_map(es)[x],
{
    let i = key::seek_index(es, k);
    let s = es.skip(i);
    key::lemma_seek_index(es, k);
    assert(key::is_suffix(s, es)) by {
        assert(s =~= es.skip(es.len() - s.len()));
    }
    table::iterator::lemma_suffix_sorted(s, es);
    assert forall|x: VKey|
        (#[trigger] merging::to_map(s).contains_key(x) <==> merging::to_map(es).contains_key(x)
            && !key::key_lt(x, k)) && (merging::to_map(s).contains_key(x) ==> merging::to_map(s)[x]
            == merging::to_map(es)[x]) by {
        merging::lemma_to_map_contains(s, x);
        merging::lemma_to_map_contains(es, x);
        if merging::to_map(s).contains_key(x) {
            let j = choose|j: int| 0 <= j < s.len() && (#[trigger] s[j]).key == x;
            assert(es[i + j] == s[j]);
            if key::key_lt(x, k) {
                if j > 0 {
                    assert(key::key_lt(es[i].key, es[i + j].key));
                    key::lemma_key_lt_transitive(es[i].key, x, k);
                }
            }
        }
        if merging::to_map(es).contains_key(x) && !key::key_lt(x, k) {
            let j = choose|j: int| 0 <= j < es.len() && (#[trigger] es[j]).key == x;
            assert(j >= i);
            assert(s[j - i] == es[j]);
        }
    }
}

/// Leaving out the versions of a user key in front leaves out versions of that key only.
proof fn lemma_past_user_key(s: Seq<VEntry>, k: Seq<u8>)
    requires
        key::sorted(s),
    ensures
        key::sorted(past_user_key(s, k)),
        forall|x: VKey| #[trigger]
            merging::to_map(past_user_key(s, k)).contains_key(x) ==> merging::to_map(s).contains_key(
                x,
            ) && merging::to_map(past_user_key(s, k))[x] == merging::to_map(s)[x],
        forall|x: VKey| #[trigger]
            merging::to_map(s).contains_key(x) && x.key != k ==> merging::to_map(
                past_user_key(s, k),
            ).contains_key(x),
    decreases s.len(),
{
    if s.len() > 0 && s[0].key.key == k {
        merging::lemma_sorted_parts(s);
        lemma_past_user_key(s.drop_first(), k);
        merging::lemma_to_map_after(s.drop_first(), s[0].key);
        assert forall|x: VKey| #[trigger]
            merging::to_map(past_user_key(s, k)).contains_key(x) implies merging::to_map(
            s,
        ).contains_key(x) && merging::to_map(past_user_key(s, k))[x] == merging::to_map(s)[x] by {
            assert(merging::to_map(s.drop_first()).contains_key(x));
        }
    }
}

/// What is left of a table's entries after seeking covers the range.
pub proof fn lemma_sought_covers(es: Seq<VEntry>, lower: Bound<VKey>, upper: Bound<VKey>)
    requires
        key::sorted(es),
        full_range(lower, upper),
    ensures
        key::sorted(sought(es, lower)),
        covers(
            merging::to_map(sought(es, lower)),
            merging::to_map(es),
            bound::byte_bound(lower),
            bound::byte_bound(upper),
        ),
{
    let lo = bound::byte_bound(lower);
    let up = bound::byte_bound(upper);
    let s = sought(es, lower);
    let a = merging::to_map(s);
    let b = merging::to_map(es);
    match lower {
        Bound::Included(k) => {
            lemma_skip_map(es, k);
        },
        Bound::Excluded(k) => {
            lemma_skip_map(es, k);
            lemma_past_user_key(es.skip(key::seek_index(es, k)), k.key);
        },
        Bound::Unbounded => {},
    }
    assert forall|x: VKey|
        #![trigger a.contains_key(x)]
        #![trigger b.contains_key(x)]
        bound::above(lo, x.key) && bound::below(up, x.key) implies (a.contains_key(x)
        <==> b.contains_key(x)) && (a.contains_key(x) ==> a[x] == b[x]) by {
        match lower {
            Bound::Included(k) => {
                lemma_not_before_start(k, x);
            },
            Bound::Excluded(k) => {
                lemma_not_before_start(k, x);
                key::lemma_bytes_lt_irreflexive(k.key);
                let t = merging::to_map(es.skip(key::seek_index(es, k)));
                assert(t.contains_key(x) <==> b.contains_key(x) && !key::key_lt(x, k));
                if b.contains_key(x) {
                    assert(t.contains_key(x));
                    assert(a.contains_key(x));
                }
                if a.contains_key(x) {
                    assert(t.contains_key(x));
                }
            },
            Bound::Unbounded => {},
        }
    }
    assert forall|x: VKey| #[trigger] a.contains_key(x) implies not_before(lo, x.key) by {
        match lower {
            Bound::Included(k) => {
                lemma_not_before_start(k, x);
            },
            Bound::Excluded(k) => {
                lemma_not_before_start(k, x);
                let t = merging::to_map(es.skip(key::seek_index(es, k)));
                assert(t.contains_key(x));
            },
            Bound::Unbounded => {},
        }
    }
}

/// A version is not before the newest possible version of a user key exactly where its user key is
/// not before that one.
proof fn lemma_not_before_start(k: VKey, x: VKey)
    requires
        k.ts == TS_RANGE_BEGIN,
    ensures
        !key::key_lt(x, k) <==> key::bytes_le(k.key, x.key),
{
    key::lemma_bytes_total(k.key, x.key);
    key::lemma_bytes_lt_irreflexive(k.key);
    if key::bytes_lt(x.key, k.key) && key::bytes_lt(k.key, x.key) {
        key::lemma_bytes_lt_transitive(x.key, k.key, x.key);
        key::lemma_bytes_lt_irreflexive(x.key);
    }
}

/// Merging iterators of which each covers a layer covers all layers.
proof fn lemma_merged_covers<I: StorageIterator>(
    iters: Seq<Box<I>>,
    full: Map<VKey, Seq<u8>>,
    lower: Bound<Seq<u8>>,
    upper: Bound<Seq<u8>>,
)
    requires
        merge_iterator::all_wf(iters),
        covers(
            merging::union_layers(merging::maps_of(merge_iterator::rems(iters))),
            full,
            lower,
            upper,
        ),
    ensures
        covers(
            merging::to_map(merging::merge_all(merge_iterator::rems(iters))),
            full,
            lower,
            upper,
        ),
{
    merge_iterator::lemma_rems_sorted(iters);
    merging::lemma_merge_all_map(merge_iterator::rems(iters));
}

/// One more iterator that covers one more layer.
proof fn lemma_push_covers<I: StorageIterator>(
    iters: Seq<Box<I>>,
    iter: Box<I>,
    layers: Seq<Map<VKey, Seq<u8>>>,
    layer: Map<VKey, Seq<u8>>,
    lower: Bound<Seq<u8>>,
    upper: Bound<Seq<u8>>,
)
    requires
        covers(
            merging::union_layers(merging::maps_of(merge_iterator::rems(iters))),
            merging::union_layers(layers),
            lower,
            upper,
        ),
        covers(merging::to_map(iter.remaining()), layer, lower, upper),
    ensures
        covers(
            merging::union_layers(merging::maps_of(merge_iterator::rems(iters.push(iter)))),
            merging::union_layers(layers.push(layer)),
            lower,
            upper,
        ),
{
    let maps = merging::maps_of(merge_iterator::rems(iters));
    let m = merging::to_map(iter.remaining());
    assert(merging::maps_of(merge_iterator::rems(iters.push(iter))) =~= maps.push(m));
    merging::lemma_union_push(maps, m);
    merging::lemma_union_push(layers, layer);
    lemma_covers_union(
        m,
        layer,
        merging::union_layers(maps),
        merging::union_layers(layers),
        lower,
        upper,
    );
}

/// A layer that says nothing about the range can be left out.
proof fn lemma_skip_covers(
    m: Map<VKey, Seq<u8>>,
    layers: Seq<Map<VKey, Seq<u8>>>,
    layer: Map<VKey, Seq<u8>>,
    lower: Bound<Seq<u8>>,
    upper: Bound<Seq<u8>>,
)
    requires
        covers(m, merging::union_layers(layers), lower, upper),
        forall|k: VKey| #[trigger]
            layer.contains_key(k) ==> !(bound::above(lower, k.key) && bound::below(upper, k.key)),
    ensures
        covers(m, merging::union_layers(layers.push(layer)), lower, upper),
{
    merging::lemma_union_push(layers, layer);
    let empty = Map::<VKey, Seq<u8>>::empty();
    assert(covers(empty, layer, lower, upper));
    lemma_covers_union(empty, layer, m, merging::union_layers(layers), lower, upper);
    assert(empty.union_prefer_right(m) =~= m);
}

impl LsmStorageInner {
    /// Merges the mem-tables, from the newest on.
    pub fn to_memtables_merge_iter(
        engine: &LsmStorageState,
        lower: Bound<KeySlice>,
        upper: Bound<KeySlice>,
    ) -> (r: MergeIterator<MemTableIterator>)
        requires
            engine.wf(),
            full_range(lower.keys(), upper.keys()),
        ensures
            r.wf(),
            r.infallible(),
            covers(
                merging::to_map(r.remaining()),
                merging::union_layers(state::mem_layers(*engine)),
                bound::byte_bound(lower.keys()),
                bound::byte_bound(upper.keys()),
            ),
    {
        let ghost lo = bound::byte_bound(lower.keys());
        let ghost up = bound::byte_bound(upper.keys());
        let ghost layers = state::mem_layers(*engine);
        let mut iters: Vec<Box<MemTableIterator>> = Vec::new();
        proof {
            assert(merging::maps_of(merge_iterator::rems(iters@)) =~= Seq::empty());
            assert(layers.take(0) =~= Seq::empty());
            assert(engine.memtable.no_empty_key()) by {
                lemma_fits_no_empty(engine.memtable);
            }
            lemma_mem_covers(engine.memtable.map, lower.keys(), upper.keys());
        }
        let first = Box::new(engine.memtable.scan(lower, upper));
        proof {
            lemma_push_covers(iters@, first, layers.take(0), layers[0], lo, up);
            assert(layers.take(1) =~= layers.take(0).push(layers[0]));
        }
        iters.push(first);
        let mut i: usize = 0;
        while i < engine.imm_memtables.len()
            invariant
                i <= engine.imm_memtables@.len(),
                engine.wf(),
                full_range(lower.keys(), upper.keys()),
                lo == bound::byte_bound(lower.keys()),
                up == bound::byte_bound(upper.keys()),
                layers == state::mem_layers(*engine),
                merge_iterator::all_wf(iters@),
                merge_iterator::all_infallible(iters@),
                covers(
                    merging::union_layers(merging::maps_of(merge_iterator::rems(iters@))),
                    merging::union_layers(layers.take(i + 1)),
                    lo,
                    up,
                ),
            decreases engine.imm_memtables@.len() - i,
        {
            proof {
                assert(engine.imm_memtables@[i as int].fits());
                lemma_fits_no_empty(engine.imm_memtables@[i as int]);
                lemma_mem_covers(engine.imm_memtables@[i as int].map, lower.keys(), upper.keys());
            }
            let next = Box::new(engine.imm_memtables[i].scan(lower, upper));
            proof {
                lemma_push_covers(iters@, next, layers.take(i + 1), layers[i + 1], lo, up);
                assert(layers.take(i + 2) =~= layers.take(i + 1).push(layers[i + 1]));
            }
            iters.push(next);
            i = i + 1;
        }
        proof {
            assert(layers.take(i + 1) =~= layers);
            lemma_merged_covers(iters@, merging::union_layers(layers), lo, up);
        }
        MergeIterator::create(iters)
    }

    /// Whether the range is a single version of a single key.
    pub fn contain_single_key(lower: &Bound<KeySlice>, upper: &Bound<KeySlice>) -> (r: bool)
        ensures
            r == (lower is Included && upper is Included && lower.keys() == upper.keys()),
    {
        match (lower, upper) {
            (Bound::Included(lower_key), Bound::Included(upper_key)) => lower_key.equals(
                *upper_key,
            ),
            _ => false,
        }
    }

    /// Whether the table may hold the user key of an included end. `false` for any other end.
    pub fn may_contain_key(key: &Bound<KeySlice>, sst: &Arc<SsTable>) -> (r: bool)
        requires
            sst.bloom matches Some(b) ==> b.wf(),
        ensures
            r == match *key {
                Bound::Included(k) => match sst.bloom {
                    Some(b) => b.covers(k@.key),
                    None => true,
                },
                _ => false,
            },
    {
        match key {
            Bound::Included(k) => sst.may_contain(k.key_ref()),
            _ => false,
        }
    }

    /// Moves an iterator on a table to the lower end of a range.
    pub fn sst_iter_seek_to_key(lower: Bound<KeySlice>, sst_iter: &mut SsTableIterator) -> (r: Result<
        (),
        LsmError,
    >)
        requires
            old(sst_iter).inv(),
        ensures
            r is Ok,
            final(sst_iter).inv(),
            final(sst_iter).table == old(sst_iter).table,
            lower is Unbounded ==> *final(sst_iter) == *old(sst_iter),
            !(lower is Unbounded) ==> final(sst_iter).rest() == sought(
                old(sst_iter).table.entries(),
                lower.keys(),
            ),
    {
        match lower {
            Bound::Included(key) => sst_iter.seek_to_key(key),
            Bound::Excluded(key) => {
                match sst_iter.seek_to_key(key) {
                    Ok(()) => {},
                    Err(e) => {
                        return Err(e);
                    },
                }
                let ghost target = sought(old(sst_iter).table.entries(), lower.keys());
                while sst_iter.is_valid() && same_bytes(sst_iter.key().key_ref(), key.key_ref())
                    invariant
                        sst_iter.inv(),
                        sst_iter.table == old(sst_iter).table,
                        past_user_key(sst_iter.rest(), key@.key) == target,
                    decreases sst_iter.rest().len(),
                {
                    match sst_iter.next() {
                        Ok(()) => {},
                        Err(e) => {
                            return Err(e);
                        },
                    }
                }
                Ok(())
            },
            Bound::Unbounded => Ok(()),
        }
    }

    /// Merges the tables of L0 that overlap with the range, from the newest on.
    pub fn to_l0_merge_iter(
        engine: &LsmStorageState,
        lower: Bound<KeySlice>,
        upper: Bound<KeySlice>,
    ) -> (r: Result<
        MergeIterator<SsTableIterator>,
        LsmError,
    >)
        requires
            engine.wf(),
            full_range(lower.keys(), upper.keys()),
        ensures
            r matches Ok(m) && m.wf() && m.infallible() && covers(
                merging::to_map(m.remaining()),
                merging::union_layers(state::table_layers(engine.sstables@, engine.l0_sstables@)),
                bound::byte_bound(lower.keys()),
                bound::byte_bound(upper.keys()),
            ),
    {
        let ghost lo = bound::byte_bound(lower.keys());
        let ghost up = bound::byte_bound(upper.keys());
        let ghost layers = state::table_layers(engine.sstables@, engine.l0_sstables@);
        // If the range only contains exactly one key, that's a get operation, we can use blooms
        // to improve the performance.
        let is_point_lookup = Self::contain_single_key(&lower, &upper);
        let mut sstable_iters: Vec<Box<SsTableIterator>> = Vec::new();
        let mut i: usize = 0;
        proof {
            assert(merging::maps_of(merge_iterator::rems(sstable_iters@)) =~= Seq::empty());
            assert(layers.take(0) =~= Seq::empty());
        }
        while i < engine.l0_sstables.len()
            invariant
                i <= engine.l0_sstables@.len(),
                engine.wf(),
                full_range(lower.keys(), upper.keys()),
                lo == bound::byte_bound(lower.keys()),
                up == bound::byte_bound(upper.keys()),
                layers == state::table_layers(engine.sstables@, engine.l0_sstables@),
                is_point_lookup ==> lower is Included && lower.keys() == upper.keys(),
                merge_iterator::all_wf(sstable_iters@),
                merge_iterator::all_infallible(sstable_iters@),
                covers(
                    merging::union_layers(merging::maps_of(merge_iterator::rems(sstable_iters@))),
                    merging::union_layers(layers.take(i as int)),
                    lo,
                    up,
                ),
            decreases engine.l0_sstables@.len() - i,
        {
            let id: usize = engine.l0_sstables[i];
            assert(engine.sstables@.contains_key(engine.l0_sstables@[i as int]));
            let table: Arc<SsTable> = share(engine.sstables.get(&id).unwrap());
            let ghost m = merging::union_layers(
                merging::maps_of(merge_iterator::rems(sstable_iters@)),
            );
            let ghost es = table.entries();
            proof {
                assert(layers.take(i + 1) =~= layers.take(i as int).push(layers[i as int]));
                assert(layers[i as int] == merging::to_map(es));
            }
            if is_point_lookup && !Self::may_contain_key(&lower, &table) {
                proof {
                    lemma_ruled_out(&*table, lower.keys());
                    lemma_skip_covers(m, layers.take(i as int), layers[i as int], lo, up);
                }
            } else if table.has_overlap(lower.key_refs(), upper.key_refs()) {
                match SsTableIterator::create_and_seek_to_first(table) {
                    Ok(iter) => {
                        let mut iter = iter;
                        match Self::sst_iter_seek_to_key(lower, &mut iter) {
                            Ok(()) => {},
                            Err(e) => {
                                return Err(e);
                            },
                        }
                        let boxed = Box::new(iter);
                        proof {
                            assert(boxed.rest() == sought(es, lower.keys()));
                            lemma_sought_covers(es, lower.keys(), upper.keys());
                            lemma_push_covers(
                                sstable_iters@,
                                boxed,
                                layers.take(i as int),
                                layers[i as int],
                                lo,
                                up,
                            );
                        }
                        sstable_iters.push(boxed);
                    },
                    Err(e) => {
                        return Err(e);
                    },
                }
            } else {
                proof {
                    lemma_apart(&*table, lo, up);
                    lemma_skip_covers(m, layers.take(i as int), layers[i as int], lo, up);
                }
            }
            i = i + 1;
        }
        proof {
            assert(layers.take(i as int) =~= layers);
            lemma_merged_covers(sstable_iters@, merging::union_layers(layers), lo, up);
        }
        Ok(MergeIterator::create(sstable_iters))
    }

    /// The tables of a level, one after another, from the lower end of a range on.
    pub fn to_non_l0_concat_iter(
        engine: &LsmStorageState,
        level_id: usize,
        lower: Bound<KeySlice>,
        upper: Bound<KeySlice>,
    ) -> (r: Result<SstConcatIterator, LsmError>)
        requires
            engine.wf(),
            1 <= level_id <= engine.levels@.len(),
            full_range(lower.keys(), upper.keys()),
        ensures
            ({
                let all = concat_iterator::joined(
                    state::tables_of(engine.sstables@, engine.levels@[level_id - 1].1@),
                );
                r matches Ok(it) && it.inv() && it.rest() == match lower.keys() {
                    Bound::Included(k) => all.skip(key::seek_index(all, k)),
                    Bound::Excluded(k) => all.skip(key::seek_index(all, k)),
                    Bound::Unbounded => all,
                }
            }),
    {
        let ids = &engine.levels[level_id - 1].1;
        let ghost tables = state::tables_of(engine.sstables@, ids@);
        assert(engine.level_ok(level_id - 1));
        let mut level_ssts: Vec<Arc<SsTable>> = Vec::new();
        let mut i: usize = 0;
        while i < ids.len()
            invariant
                i <= ids@.len(),
                leveled::all_loaded(engine.sstables@, ids@),
                tables == state::tables_of(engine.sstables@, ids@),
                level_ssts@ =~= tables.take(i as int),
            decreases ids@.len() - i,
        {
            let id: usize = ids[i];
            assert(engine.sstables@.contains_key(ids@[i as int]));
            level_ssts.push(share(engine.sstables.get(&id).unwrap()));
            i = i + 1;
        }
        assert(level_ssts@ =~= tables);
        match lower {
            Bound::Included(k) => {
                proof {
                    lemma_seek_all(tables, k@);
                }
                SstConcatIterator::create_and_seek_to_key(level_ssts, k)
            },
            Bound::Excluded(k) => {
                proof {
                    lemma_seek_all(tables, k@);
                }
                SstConcatIterator::create_and_seek_to_key(level_ssts, k)
            },
            Bound::Unbounded => SstConcatIterator::create_and_seek_to_first(level_ssts),
        }
    }

    /// Merges the levels below L0, from the newest on.
    pub fn to_non_l0_merge_iter(
        engine: &LsmStorageState,
        lower: Bound<KeySlice>,
        upper: Bound<KeySlice>,
    ) -> (r: Result<
        MergeIterator<SstConcatIterator>,
        LsmError,
    >)
        requires
            engine.wf(),
            full_range(lower.keys(), upper.keys()),
        ensures
            r matches Ok(m) && m.wf() && m.infallible() && covers(
                merging::to_map(m.remaining()),
                merging::union_layers(state::level_layers(engine.sstables@, engine.levels@)),
                bound::byte_bound(lower.keys()),
                bound::byte_bound(upper.keys()),
            ),
    {
        let ghost lo = bound::byte_bound(lower.keys());
        let ghost up = bound::byte_bound(upper.keys());
        let ghost layers = state::level_layers(engine.sstables@, engine.levels@);
        let mut concat_iters: Vec<Box<SstConcatIterator>> = Vec::new();
        let mut i: usize = 0;
        proof {
            assert(merging::maps_of(merge_iterator::rems(concat_iters@)) =~= Seq::empty());
            assert(layers.take(0) =~= Seq::empty());
        }
        while i < engine.levels.len()
            invariant
                i <= engine.levels@.len(),
                engine.wf(),
                full_range(lower.keys(), upper.keys()),
                lo == bound::byte_bound(lower.keys()),
                up == bound::byte_bound(upper.keys()),
                layers == state::level_layers(engine.sstables@, engine.levels@),
                merge_iterator::all_wf(concat_iters@),
                merge_iterator::all_infallible(concat_iters@),
                covers(
                    merging::union_layers(merging::maps_of(merge_iterator::rems(concat_iters@))),
                    merging::union_layers(layers.take(i as int)),
                    lo,
                    up,
                ),
            decreases engine.levels@.len() - i,
        {
            assert(engine.level_ok(i as int));
            let level_id: usize = engine.levels[i].0;
            let ghost all = concat_iterator::joined(
                state::tables_of(engine.sstables@, engine.levels@[i as int].1@),
            );
            match Self::to_non_l0_concat_iter(engine, level_id, lower, upper) {
                Ok(iter) => {
                    let boxed = Box::new(iter);
                    proof {
                        assert(layers.take(i + 1) =~= layers.take(i as int).push(layers[i as int]));
                        assert(layers[i as int] == merging::to_map(all));
                        lemma_level_covers(all, boxed.rest(), lower.keys(), upper.keys());
                        lemma_push_covers(
                            concat_iters@,
                            boxed,
                            layers.take(i as int),
                            layers[i as int],
                            lo,
                            up,
                        );
                    }
                    concat_iters.push(boxed);
                },
                Err(e) => {
                    return Err(e);
                },
            }
            i = i + 1;
        }
        proof {
            assert(layers.take(i as int) =~= layers);
            lemma_merged_covers(concat_iters@, merging::union_layers(layers), lo, up);
        }
        Ok(MergeIterator::create(concat_iters))
    }
}

/// What is left of a level after seeking to the lower end of a range covers the range.
proof fn lemma_level_covers(
    all: Seq<VEntry>,
    rest: Seq<VEntry>,
    lower: Bound<VKey>,
    upper: Bound<VKey>,
)
    requires
        key::sorted(all),
        full_range(lower, upper),
        rest == match lower {
            Bound::Included(k) => all.skip(key::seek_index(all, k)),
            Bound::Excluded(k) => all.skip(key::seek_index(all, k)),
            Bound::Unbounded => all,
        },
    ensures
        covers(
            merging::to_map(rest),
            merging::to_map(all),
            bound::byte_bound(lower),
            bound::byte_bound(upper),
        ),
{
    match lower {
        Bound::Excluded(k) => {
            // An excluded end is sought as an included one.
            let inclusive = Bound::Included(k);
            lemma_sought_covers(all, inclusive, upper);
            let a = merging::to_map(rest);
            let b = merging::to_map(all);
            assert(sought(all, inclusive) == rest);
            let lo = bound::byte_bound(lower);
            let up = bound::byte_bound(upper);
            assert forall|x: VKey|
                #![trigger a.contains_key(x)]
                #![trigger b.contains_key(x)]
                bound::above(lo, x.key) && bound::below(up, x.key) implies (a.contains_key(x)
                <==> b.contains_key(x)) && (a.contains_key(x) ==> a[x] == b[x]) by {
                assert(bound::above(bound::byte_bound(inclusive), x.key));
            }
            assert forall|x: VKey| #[trigger] a.contains_key(x) implies not_before(lo, x.key) by {
                assert(not_before(bound::byte_bound(inclusive), x.key));
            }
        },
        _ => {
            lemma_sought_covers(all, lower, upper);
            assert(sought(all, lower) == rest);
        },
    }
}

/// Whatever table a seek begins with, it finds everything from the user key on.
proof fn lemma_seek_all(tables: Seq<Arc<SsTable>>, k: VKey)
    requires
        concat_iterator::run_ok(tables),
        k.ts == TS_RANGE_BEGIN,
    ensures
        forall|i: int| #[trigger]
            concat_iterator::is_seek_table(tables, k, i) ==> concat_iterator::seek_result(
                tables,
                k,
                i,
            ) == concat_iterator::joined(tables).skip(
                key::seek_index(concat_iterator::joined(tables), k),
            ),
        exists|i: int| concat_iterator::is_seek_table(tables, k, i),
{
    assert forall|i: int| #[trigger]
        concat_iterator::is_seek_table(tables, k, i) implies concat_iterator::seek_result(
        tables,
        k,
        i,
    ) == concat_iterator::joined(tables).skip(
        key::seek_index(concat_iterator::joined(tables), k),
    ) by {
        concat_iterator::lemma_seek_to_user_key(tables, k, i);
    }
    concat_iterator::lemma_seek_table_exists(tables, k);
}

proof fn lemma_fits_no_empty(m: crate::mem_table::MemTable)
    requires
        m.fits(),
    ensures
        m.no_empty_key(),
{
    assert forall|k: VKey| #[trigger] m.contents().contains_key(k) implies k.key.len() > 0 by {
        assert(crate::block::entry_fits(VEntry { key: k, value: m.contents()[k] }));
    }
}

/// A table that does not overlap with a range says nothing about it.
proof fn lemma_apart(t: &SsTable, lower: Bound<Seq<u8>>, upper: Bound<Seq<u8>>)
    requires
        t.wf(),
        !(bound::above(lower, t.last_key@.key) && bound::below(upper, t.first_key@.key)),
    ensures
        forall|k: VKey| #[trigger]
            merging::to_map(t.entries()).contains_key(k) ==> !(bound::above(lower, k.key)
                && bound::below(upper, k.key)),
{
    assert forall|k: VKey| #[trigger] merging::to_map(t.entries()).contains_key(k) implies !(
    bound::above(lower, k.key) && bound::below(upper, k.key)) by {
        merging::lemma_to_map_contains(t.entries(), k);
        let i = choose|i: int| 0 <= i < t.entries().len() && (#[trigger] t.entries()[i]).key == k;
        if bound::above(lower, k.key) && bound::below(upper, k.key) {
            table::sound::lemma_overlap_is_complete(*t, lower, upper, i);
        }
    }
}

/// A table whose bloom filter rules out a user key says nothing about it.
proof fn lemma_ruled_out(t: &SsTable, lower: Bound<VKey>)
    requires
        t.wf(),
        lower matches Bound::Included(k) && (t.bloom matches Some(b) && !b.covers(k.key)),
    ensures
        forall|x: VKey| #[trigger]
            merging::to_map(t.entries()).contains_key(x) ==> x.key != lower->Included_0.key,
{
    assert forall|x: VKey| #[trigger] merging::to_map(t.entries()).contains_key(x) implies x.key
        != lower->Included_0.key by {
        merging::lemma_to_map_contains(t.entries(), x);
        let i = choose|i: int| 0 <= i < t.entries().len() && (#[trigger] t.entries()[i]).key == x;
        assert(t.bloom->0.covers(t.entries()[i].key.key));
    }
}

/// What a reader at `read_ts` sees of a user key: the value of its newest version that is not newer
/// than that, unless it is a tombstone.
pub open spec fn seen(m: Map<VKey, Seq<u8>>, k: Seq<u8>, read_ts: u64) -> Option<Seq<u8>> {
    match lsm_iterator::lookup(m, k, read_ts) {
        Some(v) => if v.len() > 0 {
            Some(v)
        } else {
            None
        },
        None => None,
    }
}

/// What a reader at `read_ts` sees of the user keys between two ends.
pub open spec fn range_seen(
    m: Map<VKey, Seq<u8>>,
    lower: Bound<Seq<u8>>,
    upper: Bound<Seq<u8>>,
    read_ts: u64,
) -> Map<VKey, Seq<u8>> {
    Map::new(
        |u: VKey|
            u.ts == TS_DEFAULT && bound::above(lower, u.key) && bound::below(upper, u.key) && seen(
                m,
                u.key,
                read_ts,
            ) is Some,
        |u: VKey| seen(m, u.key, read_ts)->0,
    )
}

/// What is looked up of a user key depends on its own versions only.
proof fn lemma_lookup_agree(
    a: Map<VKey, Seq<u8>>,
    b: Map<VKey, Seq<u8>>,
    lower: Bound<Seq<u8>>,
    upper: Bound<Seq<u8>>,
    k: Seq<u8>,
    ts: u64,
)
    requires
        merging::agree(a, b, lower, upper),
        bound::above(lower, k),
        bound::below(upper, k),
    ensures
        lsm_iterator::lookup(a, k, ts) == lsm_iterator::lookup(b, k, ts),
{
    assert forall|u: u64|
        #![trigger a.contains_key(VKey { key: k, ts: u })]
        #![trigger b.contains_key(VKey { key: k, ts: u })]
        a.contains_key(VKey { key: k, ts: u }) <==> b.contains_key(VKey { key: k, ts: u }) by {}
    if exists|t: u64| lsm_iterator::is_latest(a, k, ts, t) {
        let t = choose|t: u64| lsm_iterator::is_latest(a, k, ts, t);
        assert(lsm_iterator::is_latest(b, k, ts, t));
        lsm_iterator::lemma_latest_unique(a, k, ts, t);
        lsm_iterator::lemma_latest_unique(b, k, ts, t);
    } else if exists|t: u64| lsm_iterator::is_latest(b, k, ts, t) {
        let t = choose|t: u64| lsm_iterator::is_latest(b, k, ts, t);
        assert(lsm_iterator::is_latest(a, k, ts, t));
    }
}

/// No key of a well-formed state is empty.
pub proof fn lemma_no_empty_key(s: LsmStorageState, k: VKey)
    requires
        s.wf(),
        s.contents().contains_key(k),
    ensures
        k.key.len() > 0,
{
    let layers = s.layers();
    merging::lemma_union_contains(layers, k);
    let i = choose|i: int| 0 <= i < layers.len() && (#[trigger] layers[i]).contains_key(k);
    let n = s.imm_memtables@.len() as int;
    let l = s.l0_sstables@.len() as int;
    if i == 0 {
        lemma_fits_no_empty(s.memtable);
        assert(s.memtable.contents().contains_key(k));
    } else if i < 1 + n {
        assert(s.imm_memtables@[i - 1].fits());
        lemma_fits_no_empty(s.imm_memtables@[i - 1]);
        assert(s.imm_memtables@[i - 1].contents().contains_key(k));
    } else if i < 1 + n + l {
        let id = s.l0_sstables@[i - 1 - n];
        assert(s.sstables@.contains_key(id));
        let es = s.sstables@[id].entries();
        assert(layers[i] == merging::to_map(es));
        merging::lemma_to_map_contains(es, k);
        let j = choose|j: int| 0 <= j < es.len() && (#[trigger] es[j]).key == k;
        assert(crate::block::entry_fits(es[j]));
    } else {
        let v = i - 1 - n - l;
        assert(s.level_ok(v));
        let tables = state::tables_of(s.sstables@, s.levels@[v].1@);
        let es = concat_iterator::joined(tables);
        assert(layers[i] == merging::to_map(es));
        merging::lemma_to_map_contains(es, k);
        let j = choose|j: int| 0 <= j < es.len() && (#[trigger] es[j]).key == k;
        concat_iterator::lemma_joined_fits(tables);
        assert(crate::block::entry_fits(es[j]));
    }
}

/// What is visible in entries that cover a range is what a reader sees of the range.
proof fn lemma_visible_is_seen(
    s: Seq<VEntry>,
    m: Map<VKey, Seq<u8>>,
    lower: Bound<Seq<u8>>,
    upper: Bound<Seq<u8>>,
    read_ts: u64,
)
    requires
        key::sorted(s),
        covers(merging::to_map(s), m, lower, upper),
        forall|k: VKey| #[trigger] m.contains_key(k) ==> k.key.len() > 0,
    ensures
        merging::to_map(lsm_iterator::visible(s, lower, upper, read_ts, Seq::empty()))
            == range_seen(m, lower, upper, read_ts),
        key::sorted(lsm_iterator::visible(s, lower, upper, read_ts, Seq::empty())),
{
    let vis = lsm_iterator::visible(s, lower, upper, read_ts, Seq::empty());
    let got = merging::to_map(vis);
    let want = range_seen(m, lower, upper, read_ts);
    let n = merging::to_map(s);
    assert forall|i: int| 0 <= i < s.len() implies key::bytes_le(
        Seq::empty(),
        (#[trigger] s[i]).key.key,
    ) by {
        key::lemma_empty_first(Seq::empty(), s[i].key.key);
    }
    lsm_iterator::lemma_visible_sorted(s, lower, upper, read_ts, Seq::empty());
    lemma_visible_ts(s, lower, upper, read_ts, Seq::empty());
    assert forall|u: VKey|
        (#[trigger] got.contains_key(u) <==> want.contains_key(u)) && (got.contains_key(u)
            ==> got[u] == want[u]) by {
        merging::lemma_to_map_contains(vis, u);
        if u.ts == TS_DEFAULT {
            assert(u =~= VKey { key: u.key, ts: TS_DEFAULT });
            lsm_iterator::lemma_visible(s, lower, upper, read_ts, Seq::empty(), u.key);
            lsm_iterator::lemma_first_version(s, u.key, read_ts);
            if bound::above(lower, u.key) && bound::below(upper, u.key) {
                lemma_lookup_agree(n, m, lower, upper, u.key, read_ts);
                key::lemma_bytes_lt_irreflexive(u.key);
                if u.key.len() == 0 && seen(m, u.key, read_ts) is Some {
                    let t = choose|t: u64| lsm_iterator::is_latest(m, u.key, read_ts, t);
                    assert(m.contains_key(VKey { key: u.key, ts: t }));
                }
            } else if got.contains_key(u) {
                // The user key has a version, so that it is not before the range, and it is not
                // the excluded end itself.
                let t = choose|t: u64| lsm_iterator::is_latest(n, u.key, read_ts, t);
                assert(n.contains_key(VKey { key: u.key, ts: t }));
                assert(not_before(lower, u.key));
            }
        } else if got.contains_key(u) {
            let i = choose|i: int| 0 <= i < vis.len() && (#[trigger] vis[i]).key == u;
            assert(vis[i].key.ts == TS_DEFAULT);
        }
    }
    assert(got =~= want);
}

/// Visible entries carry no version.
proof fn lemma_visible_ts(
    s: Seq<VEntry>,
    lower: Bound<Seq<u8>>,
    upper: Bound<Seq<u8>>,
    read_ts: u64,
    prev: Seq<u8>,
)
    ensures
        forall|i: int|
            0 <= i < lsm_iterator::visible(s, lower, upper, read_ts, prev).len() ==> (
            #[trigger] lsm_iterator::visible(s, lower, upper, read_ts, prev)[i]).key.ts
                == TS_DEFAULT,
    decreases s.len(),
{
    if s.len() > 0 && bound::below(upper, s[0].key.key) {
        let rest = s.drop_first();
        lemma_visible_ts(rest, lower, upper, read_ts, prev);
        lemma_visible_ts(rest, lower, upper, read_ts, s[0].key.key);
        let vis = lsm_iterator::visible(s, lower, upper, read_ts, prev);
        let same = lsm_iterator::visible(rest, lower, upper, read_ts, prev);
        let later = lsm_iterator::visible(rest, lower, upper, read_ts, s[0].key.key);
        assert forall|i: int| 0 <= i < vis.len() implies (#[trigger] vis[i]).key.ts
            == TS_DEFAULT by {
            if lsm_iterator::excluded(lower, s[0].key.key) || s[0].key.ts > read_ts
                || s[0].key.key == prev {
                assert(vis[i] == same[i]);
            } else if s[0].value.len() == 0 {
                assert(vis[i] == later[i]);
            } else if i > 0 {
                assert(vis[i] == later[i - 1]);
            }
        }
    }
}

impl LsmStorageInner {
    /// Create an iterator without skipping tombstones and duplicate keys: it walks all versions of
    /// the user keys of a range.
    pub fn create_lsm_iter(&self, lower: Bound<&[u8]>, upper: Bound<&[u8]>) -> (r: Result<
        LsmIteratorInner,
        LsmError,
    >)
        requires
            self.wf(),
        ensures
            r matches Ok(it) && it.wf() && it.infallible() && key::sorted(it.remaining()) && covers(
                merging::to_map(it.remaining()),
                self.contents(),
                lower.bytes(),
                upper.bytes(),
            ),
    {
        let ghost lo = lower.bytes();
        let ghost up = upper.bytes();
        // Use the full range to get all versions of keys and filter them by ts in LsmIterator.
        let lower_keys = lower.at_ts(TS_RANGE_BEGIN);
        let upper_keys = upper.at_ts(TS_RANGE_END);
        let snapshot = &self.state;
        let memtables_merge_iter = Self::to_memtables_merge_iter(snapshot, lower_keys, upper_keys);
        let l0_sst_merge_iter = match Self::to_l0_merge_iter(snapshot, lower_keys, upper_keys) {
            Ok(iter) => iter,
            Err(e) => {
                return Err(e);
            },
        };
        let non_l0_sst_merge_iter = match Self::to_non_l0_merge_iter(
            snapshot,
            lower_keys,
            upper_keys,
        ) {
            Ok(iter) => iter,
            Err(e) => {
                return Err(e);
            },
        };
        let ghost a = memtables_merge_iter.remaining();
        let ghost b = l0_sst_merge_iter.remaining();
        let ghost c = non_l0_sst_merge_iter.remaining();
        proof {
            memtables_merge_iter.lemma_wf();
            l0_sst_merge_iter.lemma_wf();
            non_l0_sst_merge_iter.lemma_wf();
        }
        let memtable_and_l0_merge_iter = match TwoMergeIterator::create(
            memtables_merge_iter,
            l0_sst_merge_iter,
        ) {
            Ok(iter) => iter,
            Err(e) => {
                return Err(e);
            },
        };
        let merged = match TwoMergeIterator::create(
            memtable_and_l0_merge_iter,
            non_l0_sst_merge_iter,
        ) {
            Ok(iter) => iter,
            Err(e) => {
                return Err(e);
            },
        };
        proof {
            lemma_state_covers(self.state, a, b, c, lo, up);
            merged.lemma_wf();
        }
        Ok(merged)
    }

    /// An iterator over the user keys of a range that a reader at `read_ts` sees.
    pub(crate) fn create_reader_iter(
        &self,
        lower: Bound<&[u8]>,
        upper: Bound<&[u8]>,
        read_ts: u64,
    ) -> (r: Result<FusedIterator<LsmIterator>, LsmError>)
        requires
            self.wf(),
        ensures
            r matches Ok(it) && it.wf() && it.infallible() && it.remaining()
                == merging::sorted_entries(
                range_seen(self.contents(), lower.bytes(), upper.bytes(), read_ts),
            ) && merging::to_map(it.remaining()) == range_seen(
                self.contents(),
                lower.bytes(),
                upper.bytes(),
                read_ts,
            ),
    {
        let ghost lo = lower.bytes();
        let ghost up = upper.bytes();
        let merged = match self.create_lsm_iter(lower, upper) {
            Ok(iter) => iter,
            Err(e) => {
                return Err(e);
            },
        };
        let ghost s = merged.remaining();
        proof {
            if lo is Excluded {
                let l = lo->Excluded_0;
                assert forall|i: int| 0 <= i < s.len() implies key::bytes_le(
                    l,
                    (#[trigger] s[i]).key.key,
                ) by {
                    merging::lemma_to_map_contains(s, s[i].key);
                    assert(merging::to_map(s).contains_key(s[i].key));
                    assert(not_before(lo, s[i].key.key));
                }
            }
            assert forall|k: VKey| #[trigger] self.contents().contains_key(k) implies k.key.len()
                > 0 by {
                lemma_no_empty_key(self.state, k);
            }
            lemma_visible_is_seen(s, self.contents(), lo, up, read_ts);
            merging::lemma_sorted_entries(
                lsm_iterator::visible(s, lo, up, read_ts, Seq::empty()),
            );
        }
        match LsmIterator::new(
            merged,
            lower.to_owned_bound(),
            upper.to_owned_bound(),
            read_ts,
        ) {
            Ok(iter) => Ok(FusedIterator::new(iter)),
            Err(e) => Err(e),
        }
    }

    /// Get a key from the storage, as a reader at `read_ts` sees it.
    pub fn get_with_ts(&self, read_ts: u64, key: &[u8]) -> (r: Result<Option<Vec<u8>>, LsmError>)
        requires
            self.wf(),
        ensures
            match seen(self.contents(), key@, read_ts) {
                Some(v) => r matches Ok(Some(w)) && w@ == v,
                None => r matches Ok(None),
            },
    {
        let lower = Bound::Included(key);
        let upper = Bound::Included(key);
        let ghost m = range_seen(self.contents(), lower.bytes(), upper.bytes(), read_ts);
        let iter = match self.create_reader_iter(lower, upper, read_ts) {
            Ok(iter) => iter,
            Err(e) => {
                return Err(e);
            },
        };
        let ghost u = VKey { key: key@, ts: TS_DEFAULT };
        proof {
            iter.lemma_wf();
            let s = iter.remaining();
            merging::lemma_to_map_contains(s, u);
            if s.len() > 0 {
                merging::lemma_to_map_contains(s, s[0].key);
                assert(m.contains_key(s[0].key));
                lemma_only_key(key@, s[0].key.key);
                assert(s[0].key =~= u);
            }
            key::lemma_bytes_lt_irreflexive(key@);
            assert(m.contains_key(u) <==> seen(self.contents(), key@, read_ts) is Some);
        }
        if iter.is_valid() && same_bytes(iter.key(), key) && iter.value().len() > 0 {
            Ok(Some(copy_slice(iter.value())))
        } else {
            Ok(None)
        }
    }

    /// Get a key from the storage.
    pub fn get(&self, key: &[u8]) -> (r: Result<Option<Vec<u8>>, LsmError>)
        requires
            self.wf(),
        ensures
            match seen(self.contents(), key@, self.mvcc.ts.0) {
                Some(v) => r matches Ok(Some(w)) && w@ == v,
                None => r matches Ok(None),
            },
    {
        self.get_with_ts(self.mvcc().latest_commit_ts(), key)
    }
}

/// Between a key and itself lies only the key.
pub proof fn lemma_only_key(k: Seq<u8>, x: Seq<u8>)
    requires
        key::bytes_le(k, x),
        key::bytes_le(x, k),
    ensures
        k == x,
{
    if k != x {
        key::lemma_bytes_lt_transitive(k, x, k);
        key::lemma_bytes_lt_irreflexive(k);
    }
}

/// Iterators that cover the mem-tables, L0 and the levels below cover the state when merged.
proof fn lemma_state_covers(
    engine: LsmStorageState,
    a: Seq<VEntry>,
    b: Seq<VEntry>,
    c: Seq<VEntry>,
    lower: Bound<Seq<u8>>,
    upper: Bound<Seq<u8>>,
)
    requires
        key::sorted(a),
        key::sorted(b),
        key::sorted(c),
        covers(
            merging::to_map(a),
            merging::union_layers(state::mem_layers(engine)),
            lower,
            upper,
        ),
        covers(
            merging::to_map(b),
            merging::union_layers(state::table_layers(engine.sstables@, engine.l0_sstables@)),
            lower,
            upper,
        ),
        covers(
            merging::to_map(c),
            merging::union_layers(state::level_layers(engine.sstables@, engine.levels@)),
            lower,
            upper,
        ),
    ensures
        covers(
            merging::to_map(merging::merge2(merging::merge2(a, b), c)),
            engine.contents(),
            lower,
            upper,
        ),
{
    let mems = state::mem_layers(engine);
    let l0 = state::table_layers(engine.sstables@, engine.l0_sstables@);
    let levels = state::level_layers(engine.sstables@, engine.levels@);
    merging::lemma_merge2_sorted(a, b);
    merging::lemma_merge2_map(a, b);
    merging::lemma_merge2_map(merging::merge2(a, b), c);
    merging::lemma_union_concat(mems, l0);
    merging::lemma_union_concat(mems + l0, levels);
    lemma_covers_union(
        merging::to_map(b),
        merging::union_layers(l0),
        merging::to_map(a),
        merging::union_layers(mems),
        lower,
        upper,
    );
    lemma_covers_union(
        merging::to_map(c),
        merging::union_layers(levels),
        merging::to_map(merging::merge2(a, b)),
        merging::union_layers(mems + l0),
        lower,
        upper,
    );
}

/// What the first of several tables that has a user key says about it: the newest version there.
pub open spec fn level_get(
    tables: Map<usize, Arc<SsTable>>,
    ids: Seq<usize>,
    k: Seq<u8>,
) -> Result<Option<Seq<u8>>, LsmError>
    decreases ids.len(),
{
    if ids.len() == 0 {
        Ok(None)
    } else if !tables.contains_key(ids[0]) {
        Err(LsmError::SstableNotFound(ids[0]))
    } else {
        match lsm_iterator::first_version(tables[ids[0]].entries(), k, TS_RANGE_BEGIN) {
            Some(v) => Ok(Some(v)),
            None => level_get(tables, ids.drop_first(), k),
        }
    }
}

/// What the first level from index `i` on that has a user key says about it.
pub open spec fn levels_get(
    tables: Map<usize, Arc<SsTable>>,
    levels: Seq<(usize, Vec<usize>)>,
    k: Seq<u8>,
    i: int,
) -> Result<Option<Seq<u8>>, LsmError>
    decreases levels.len() - i,
{
    if i >= levels.len() {
        Ok(None)
    } else {
        match level_get(tables, levels[i].1@, k) {
            Err(e) => Err(e),
            Ok(Some(v)) => Ok(Some(v)),
            Ok(None) => levels_get(tables, levels, k, i + 1),
        }
    }
}

/// What L0, and then the levels below, say about a user key.
pub open spec fn sstables_get(s: LsmStorageState, k: Seq<u8>) -> Result<Option<Seq<u8>>, LsmError> {
    match level_get(s.sstables@, s.l0_sstables@, k) {
        Err(e) => Err(e),
        Ok(Some(v)) => Ok(Some(v)),
        Ok(None) => levels_get(s.sstables@, s.levels@, k, 0),
    }
}

/// The result with the value's bytes.
pub open spec fn value_view(r: Result<Option<Vec<u8>>, LsmError>) -> Result<
    Option<Seq<u8>>,
    LsmError,
> {
    match r {
        Ok(Some(v)) => Ok(Some(v@)),
        Ok(None) => Ok(None),
        Err(e) => Err(e),
    }
}

/// No version of a user key among keys of others.
proof fn lemma_no_version(s: Seq<VEntry>, k: Seq<u8>, ts: u64)
    requires
        forall|i: int| 0 <= i < s.len() ==> (#[trigger] s[i]).key.key != k,
    ensures
        lsm_iterator::first_version(s, k, ts) is None,
    decreases s.len(),
{
    if s.len() > 0 {
        let r = s.drop_first();
        assert forall|i: int| 0 <= i < r.len() implies (#[trigger] r[i]).key.key != k by {
            assert(r[i] == s[i + 1]);
        }
        assert(s[0].key.key != k);
        lemma_no_version(r, k, ts);
    }
}

/// Seeking to the newest possible version of a user key finds its newest version, or no version.
proof fn lemma_seek_version(es: Seq<VEntry>, k: Seq<u8>)
    requires
        key::sorted(es),
    ensures
        ({
            let i = key::seek_index(es, VKey { key: k, ts: TS_RANGE_BEGIN });
            lsm_iterator::first_version(es, k, TS_RANGE_BEGIN) == (if i < es.len() && es[i].key.key
                == k {
                Some(es[i].value)
            } else {
                None
            })
        }),
    decreases es.len(),
{
    let t = VKey { key: k, ts: TS_RANGE_BEGIN };
    key::lemma_seek_index(es, t);
    if es.len() > 0 {
        let r = es.drop_first();
        merging::lemma_sorted_parts(es);
        lemma_not_before_start(t, es[0].key);
        if key::key_lt(es[0].key, t) {
            lemma_seek_version(r, k);
            key::lemma_seek_index(r, t);
            key::lemma_bytes_lt_irreflexive(k);
            let i = key::seek_index(es, t);
            let j = key::seek_index(r, t);
            assert(i == j + 1);
            if j < r.len() {
                assert(es[i] == r[j]);
            }
        } else {
            assert(key::seek_index(es, t) == 0) by {
                if key::seek_index(es, t) > 0 {
                    assert(key::key_lt(es[0].key, t));
                }
            }
            if es[0].key.key != k {
                assert forall|i: int| 0 <= i < es.len() implies (#[trigger] es[i]).key.key != k by {
                    lsm_iterator::lemma_keys_from_head(es);
                    assert(key::bytes_le(es[0].key.key, es[i].key.key));
                    if es[i].key.key == k {
                        lemma_only_key(k, es[0].key.key);
                    }
                }
                lemma_no_version(es, k, TS_RANGE_BEGIN);
            }
        }
    }
}

impl LsmStorageInner {
    /// Find the value of a key in sstables denoted by sst_ids. We don't convert
    /// a value with empty data(tombstone) to Option::None here.
    pub fn get_in_level(engine: &LsmStorageState, key: &[u8], sst_ids: &[usize]) -> (r: Result<
        Option<Vec<u8>>,
        LsmError,
    >)
        requires
            state::tables_ok(engine.sstables@),
            key@.len() > 0,
        ensures
            value_view(r) == level_get(engine.sstables@, sst_ids@, key@),
    {
        let mut i: usize = 0;
        assert(sst_ids@.skip(0) =~= sst_ids@);
        while i < sst_ids.len()
            invariant
                i <= sst_ids@.len(),
                state::tables_ok(engine.sstables@),
                level_get(engine.sstables@, sst_ids@, key@) == level_get(
                    engine.sstables@,
                    sst_ids@.skip(i as int),
                    key@,
                ),
            decreases sst_ids@.len() - i,
        {
            let id: usize = sst_ids[i];
            let ghost rest = sst_ids@.skip(i as int);
            assert(rest[0] == id);
            assert(rest.drop_first() =~= sst_ids@.skip(i + 1));
            match engine.sstables.get(&id) {
                Some(sst) => {
                    let ghost es = sst.entries();
                    if sst.may_contain(key) {
                        match SsTableIterator::create_and_seek_to_key(
                            share(sst),
                            KeySlice::from_slice(key, TS_RANGE_BEGIN),
                        ) {
                            Ok(iter) => {
                                proof {
                                    iter.lemma_wf();
                                    lemma_seek_version(es, key@);
                                    key::lemma_seek_index(
                                        es,
                                        VKey { key: key@, ts: TS_RANGE_BEGIN },
                                    );
                                }
                                if iter.is_valid() && same_bytes(iter.key().key_ref(), key) {
                                    return Ok(Some(copy_slice(iter.value())));
                                }
                            },
                            Err(e) => {
                                return Err(e);
                            },
                        }
                    } else {
                        proof {
                            assert forall|j: int| 0 <= j < es.len() implies (
                            #[trigger] es[j]).key.key != key@ by {
                                assert(sst.bloom->0.covers(es[j].key.key));
                            }
                            lemma_no_version(es, key@, TS_RANGE_BEGIN);
                        }
                    }
                },
                None => {
                    return Err(LsmError::SstableNotFound(id));
                },
            }
            i = i + 1;
        }
        Ok(None)
    }

    /// Find the value of a key in the sstables, L0 first.
    pub fn get_from_sstables(engine: &LsmStorageState, key: &[u8]) -> (r: Result<
        Option<Vec<u8>>,
        LsmError,
    >)
        requires
            state::tables_ok(engine.sstables@),
            key@.len() > 0,
        ensures
            value_view(r) == sstables_get(*engine, key@),
    {
        match Self::get_in_level(engine, key, engine.l0_sstables.as_slice()) {
            Ok(Some(v)) => {
                return Ok(Some(v));
            },
            Ok(None) => {},
            Err(e) => {
                return Err(e);
            },
        }
        let mut i: usize = 0;
        while i < engine.levels.len()
            invariant
                i <= engine.levels@.len(),
                state::tables_ok(engine.sstables@),
                key@.len() > 0,
                sstables_get(*engine, key@) == levels_get(
                    engine.sstables@,
                    engine.levels@,
                    key@,
                    i as int,
                ),
            decreases engine.levels@.len() - i,
        {
            match Self::get_in_level(engine, key, engine.levels[i].1.as_slice()) {
                Ok(Some(v)) => {
                    return Ok(Some(v));
                },
                Ok(None) => {},
                Err(e) => {
                    return Err(e);
                },
            }
            i = i + 1;
        }
        Ok(None)
    }
}

} // verus!
