//! Ordered maps of versions, kept in a skip list.
//!
//! The skip list orders its entries by the user key and then by how far the timestamp is from the
//! largest one, so that newer versions come first.
use crossbeam_skiplist::SkipMap;
use vstd::prelude::*;

use crate::bound::Bound;
use crate::codec::copy_slice;
use crate::iterators::merging;
use crate::key::{KeySlice, KeyVec, VEntry, VKey};
use crate::{bound, key};

verus! {

/// The ordered map of crate `crossbeam_skiplist`.
#[verifier::external_type_specification]
#[verifier::external_body]
#[verifier::reject_recursive_types(K)]
#[verifier::reject_recursive_types(V)]
pub struct ExSkipMap<K, V>(SkipMap<K, V>);

/// What a skip list maps each key to.
pub uninterp spec fn stored(m: SkipMap<(Vec<u8>, u64), Vec<u8>>) -> Map<(Seq<u8>, u64), Seq<u8>>;

/// The order of tuples of bytes and a number: the bytes lexicographically, then the number.
pub open spec fn pair_lt(a: (Seq<u8>, u64), b: (Seq<u8>, u64)) -> bool {
    key::bytes_lt(a.0, b.0) || (a.0 == b.0 && a.1 < b.1)
}

pub open spec fn pair_le(a: (Seq<u8>, u64), b: (Seq<u8>, u64)) -> bool {
    a == b || pair_lt(a, b)
}

/// `k` lies between the two ends.
pub open spec fn pair_within(
    lower: Bound<(Vec<u8>, u64)>,
    upper: Bound<(Vec<u8>, u64)>,
    k: (Seq<u8>, u64),
) -> bool {
    &&& match lower {
        Bound::Included(l) => pair_le((l.0@, l.1), k),
        Bound::Excluded(l) => pair_lt((l.0@, l.1), k),
        Bound::Unbounded => true,
    }
    &&& match upper {
        Bound::Included(u) => pair_le(k, (u.0@, u.1)),
        Bound::Excluded(u) => pair_lt(k, (u.0@, u.1)),
        Bound::Unbounded => true,
    }
}

/// The key of an item handed out by a skip list.
pub open spec fn item_key(item: ((Vec<u8>, u64), Vec<u8>)) -> (Seq<u8>, u64) {
    (item.0.0@, item.0.1)
}

/// The items in strictly ascending order of their keys.
pub open spec fn items_ascend(items: Seq<((Vec<u8>, u64), Vec<u8>)>) -> bool {
    forall|i: int, j: int|
        #![trigger items[i], items[j]]
        0 <= i < j < items.len() ==> pair_lt(item_key(items[i]), item_key(items[j]))
}

/// A map without entries.
pub open spec fn nothing() -> Map<(Seq<u8>, u64), Seq<u8>> {
    Map::empty()
}

/// Calls `SkipMap::new`, which gives a map without entries.
#[verifier::external_body]
pub(crate) fn skip_new() -> (m: SkipMap<(Vec<u8>, u64), Vec<u8>>)
    ensures
        stored(m) == nothing(),
{
    SkipMap::new()
}

/// Calls `SkipMap::insert`, which maps the key to the value in place of what it was mapped to.
#[verifier::external_body]
pub(crate) fn skip_insert(
    m: &mut SkipMap<(Vec<u8>, u64), Vec<u8>>,
    key: (Vec<u8>, u64),
    value: Vec<u8>,
)
    ensures
        stored(*final(m)) == stored(*old(m)).insert((key.0@, key.1), value@),
{
    m.insert(key, value);
}

/// Calls `SkipMap::get`, which gives the entry of the key, if there is one; of that, a copy of the
/// value is kept.
#[verifier::external_body]
pub(crate) fn skip_get(m: &SkipMap<(Vec<u8>, u64), Vec<u8>>, key: &(Vec<u8>, u64)) -> (r: Option<
    Vec<u8>,
>)
    ensures
        r is Some <==> stored(*m).contains_key((key.0@, key.1)),
        r matches Some(v) ==> v@ == stored(*m)[(key.0@, key.1)],
{
    m.get(key).map(|e| e.value().clone())
}

/// Calls `SkipMap::is_empty`, which tells whether there are no entries.
#[verifier::external_body]
pub(crate) fn skip_is_empty(m: &SkipMap<(Vec<u8>, u64), Vec<u8>>) -> (r: bool)
    ensures
        r == (stored(*m) == nothing()),
{
    m.is_empty()
}

/// Calls `SkipMap::range` and copies what it hands out: the entries between the two ends, each
/// once, in key order.
#[verifier::external_body]
pub(crate) fn skip_range(
    m: &SkipMap<(Vec<u8>, u64), Vec<u8>>,
    lower: Bound<(Vec<u8>, u64)>,
    upper: Bound<(Vec<u8>, u64)>,
) -> (r: Vec<((Vec<u8>, u64), Vec<u8>)>)
    ensures
        items_ascend(r@),
        forall|i: int|
            0 <= i < r@.len() ==> stored(*m).contains_key(item_key(#[trigger] r@[i])) && stored(
                *m,
            )[item_key(r@[i])] == r@[i].1@ && pair_within(lower, upper, item_key(r@[i])),
        forall|k: (Seq<u8>, u64)| #[trigger]
            stored(*m).contains_key(k) && pair_within(lower, upper, k) ==> exists|i: int|
                0 <= i < r@.len() && item_key(#[trigger] r@[i]) == k,
{
    let start = match lower {
        Bound::Included(k) => std::ops::Bound::Included(k),
        Bound::Excluded(k) => std::ops::Bound::Excluded(k),
        Bound::Unbounded => std::ops::Bound::Unbounded,
    };
    let end = match upper {
        Bound::Included(k) => std::ops::Bound::Included(k),
        Bound::Excluded(k) => std::ops::Bound::Excluded(k),
        Bound::Unbounded => std::ops::Bound::Unbounded,
    };
    m.range((start, end)).map(|e| (e.key().clone(), e.value().clone())).collect()
}

/// Calls `SkipMap::iter` and copies what it hands out: all entries, each once, in key order.
#[verifier::external_body]
pub(crate) fn skip_iter(m: &SkipMap<(Vec<u8>, u64), Vec<u8>>) -> (r: Vec<((Vec<u8>, u64), Vec<u8>)>)
    ensures
        items_ascend(r@),
        forall|i: int|
            0 <= i < r@.len() ==> stored(*m).contains_key(item_key(#[trigger] r@[i])) && stored(
                *m,
            )[item_key(r@[i])] == r@[i].1@,
        forall|k: (Seq<u8>, u64)| #[trigger]
            stored(*m).contains_key(k) ==> exists|i: int|
                0 <= i < r@.len() && item_key(#[trigger] r@[i]) == k,
{
    m.iter().map(|e| (e.key().clone(), e.value().clone())).collect()
}

/// Where a version stands in a skip list.
pub open spec fn place(k: VKey) -> (Seq<u8>, u64) {
    (k.key, (u64::MAX - k.ts) as u64)
}

/// The versions that a skip list holds.
pub open spec fn versions(m: SkipMap<(Vec<u8>, u64), Vec<u8>>) -> Map<VKey, Seq<u8>> {
    Map::new(|k: VKey| stored(m).contains_key(place(k)), |k: VKey| stored(m)[place(k)])
}

/// `k` lies between the two ends of a range of versions.
pub open spec fn within(lower: Bound<VKey>, upper: Bound<VKey>, k: VKey) -> bool {
    bound::key_above(lower, k) && bound::key_below(upper, k)
}

/// Items handed out by a skip list as entries.
pub open spec fn entry_views(items: Seq<(KeyVec, Vec<u8>)>) -> Seq<VEntry> {
    Seq::new(items.len(), |i: int| VEntry { key: items[i].0@, value: items[i].1@ })
}

proof fn lemma_place(a: VKey, b: VKey)
    ensures
        key::key_lt(a, b) <==> pair_lt(place(a), place(b)),
        a == b <==> place(a) == place(b),
{
    if place(a) == place(b) {
        assert(a =~= b);
    }
}

/// A map without versions.
pub(crate) fn new_versions() -> (m: SkipMap<(Vec<u8>, u64), Vec<u8>>)
    ensures
        versions(m) == Map::<VKey, Seq<u8>>::empty(),
{
    let m = skip_new();
    assert(versions(m) =~= Map::empty());
    m
}

/// Adds a version.
pub(crate) fn put_version(m: &mut SkipMap<(Vec<u8>, u64), Vec<u8>>, key: KeySlice, value: &[u8])
    ensures
        versions(*final(m)) == versions(*old(m)).insert(key@, value@),
{
    let ghost before = stored(*m);
    skip_insert(m, (copy_slice(key.key_ref()), u64::MAX - key.ts()), copy_slice(value));
    proof {
        let after = versions(*m);
        let want = versions(*old(m)).insert(key@, value@);
        assert forall|k: VKey| #[trigger] after.contains_key(k) <==> want.contains_key(k) by {
            lemma_place(k, key@);
        }
        assert forall|k: VKey| #[trigger] after.contains_key(k) implies after[k] == want[k] by {
            lemma_place(k, key@);
        }
        assert(after =~= want);
    }
}

/// The value of a version.
pub(crate) fn get_version(m: &SkipMap<(Vec<u8>, u64), Vec<u8>>, key: KeySlice) -> (r: Option<
    Vec<u8>,
>)
    ensures
        r is Some <==> versions(*m).contains_key(key@),
        r matches Some(v) ==> v@ == versions(*m)[key@],
{
    skip_get(m, &(copy_slice(key.key_ref()), u64::MAX - key.ts()))
}

/// Whether there are no versions.
pub(crate) fn no_versions(m: &SkipMap<(Vec<u8>, u64), Vec<u8>>) -> (r: bool)
    ensures
        r == (versions(*m) == Map::<VKey, Seq<u8>>::empty()),
{
    let r = skip_is_empty(m);
    proof {
        if r {
            assert(versions(*m) =~= Map::empty());
        } else if versions(*m) == Map::<VKey, Seq<u8>>::empty() {
            assert forall|p: (Seq<u8>, u64)| !stored(*m).contains_key(p) by {
                let k = VKey { key: p.0, ts: (u64::MAX - p.1) as u64 };
                assert(place(k) == p);
                assert(!versions(*m).contains_key(k));
            }
            assert(stored(*m) =~= Map::empty());
        }
    }
    r
}

/// Turns items handed out by a skip list into keys and values.
fn to_entries(items: Vec<((Vec<u8>, u64), Vec<u8>)>) -> (r: Vec<(KeyVec, Vec<u8>)>)
    requires
        items_ascend(items@),
    ensures
        r@.len() == items@.len(),
        forall|i: int|
            0 <= i < r@.len() ==> place((#[trigger] r@[i]).0@) == item_key(items@[i]) && r@[i].1@
                == items@[i].1@,
        key::sorted(entry_views(r@)),
{
    let mut out: Vec<(KeyVec, Vec<u8>)> = Vec::new();
    let mut i: usize = 0;
    while i < items.len()
        invariant
            i <= items@.len(),
            out@.len() == i,
            forall|j: int|
                0 <= j < i ==> place((#[trigger] out@[j]).0@) == item_key(items@[j]) && out@[j].1@
                    == items@[j].1@,
        decreases items@.len() - i,
    {
        let item = &items[i];
        let key = KeyVec::from_bytes_with_ts(copy_slice(item.0.0.as_slice()), u64::MAX - item.0.1);
        out.push((key, copy_slice(item.1.as_slice())));
        i = i + 1;
    }
    proof {
        let es = entry_views(out@);
        assert forall|a: int, b: int| #![trigger es[a], es[b]] 0 <= a < b < es.len() implies key::key_lt(
            es[a].key,
            es[b].key,
        ) by {
            assert(place(out@[a].0@) == item_key(items@[a]));
            assert(place(out@[b].0@) == item_key(items@[b]));
            lemma_place(es[a].key, es[b].key);
        }
    }
    out
}

/// The versions between two ends.
pub open spec fn versions_within(
    m: SkipMap<(Vec<u8>, u64), Vec<u8>>,
    lower: Bound<VKey>,
    upper: Bound<VKey>,
) -> Map<VKey, Seq<u8>> {
    versions(m).restrict(
        Set::new(|k: VKey| versions(m).contains_key(k) && within(lower, upper, k)),
    )
}

/// The end of a range of versions as an end of a range of the skip list.
fn to_place(b: Bound<KeySlice>) -> (r: Bound<(Vec<u8>, u64)>)
    ensures
        match (b, r) {
            (Bound::Included(k), Bound::Included(p)) => place(k@) == (p.0@, p.1),
            (Bound::Excluded(k), Bound::Excluded(p)) => place(k@) == (p.0@, p.1),
            (Bound::Unbounded, Bound::Unbounded) => true,
            _ => false,
        },
{
    match b {
        Bound::Included(k) => Bound::Included((copy_slice(k.key_ref()), u64::MAX - k.ts())),
        Bound::Excluded(k) => Bound::Excluded((copy_slice(k.key_ref()), u64::MAX - k.ts())),
        Bound::Unbounded => Bound::Unbounded,
    }
}

/// The versions between two ends, in key order.
pub(crate) fn range_versions(
    m: &SkipMap<(Vec<u8>, u64), Vec<u8>>,
    lower: Bound<KeySlice>,
    upper: Bound<KeySlice>,
) -> (r: Vec<(KeyVec, Vec<u8>)>)
    ensures
        key::sorted(entry_views(r@)),
        merging::to_map(entry_views(r@)) == versions_within(
            *m,
            lower.keys(),
            upper.keys(),
        ),
{
    let start = to_place(lower);
    let end = to_place(upper);
    let items = skip_range(m, start, end);
    let r = to_entries(items);
    proof {
        let es = entry_views(r@);
        let got = merging::to_map(es);
        let want = versions_within(*m, lower.keys(), upper.keys());
        assert forall|k: VKey| #[trigger] within(lower.keys(), upper.keys(), k) <==> pair_within(
            start,
            end,
            place(k),
        ) by {
            match lower {
                Bound::Included(l) => lemma_place(l@, k),
                Bound::Excluded(l) => lemma_place(l@, k),
                Bound::Unbounded => {},
            }
            match upper {
                Bound::Included(u) => lemma_place(k, u@),
                Bound::Excluded(u) => lemma_place(k, u@),
                Bound::Unbounded => {},
            }
        }
        assert forall|k: VKey| (#[trigger] got.contains_key(k) <==> want.contains_key(k)) && (
        got.contains_key(k) ==> got[k] == want[k]) by {
            merging::lemma_to_map_contains(es, k);
            assert(within(lower.keys(), upper.keys(), k) <==> pair_within(start, end, place(k)));
            if got.contains_key(k) {
                let i = choose|i: int| 0 <= i < es.len() && (#[trigger] es[i]).key == k;
                assert(place(r@[i].0@) == item_key(items@[i]));
            }
            if want.contains_key(k) {
                assert(stored(*m).contains_key(place(k)));
                let i = choose|i: int|
                    0 <= i < items@.len() && item_key(#[trigger] items@[i]) == place(k);
                assert(place(r@[i].0@) == item_key(items@[i]));
                lemma_place(r@[i].0@, k);
                assert(es[i].key == k);
            }
        }
        assert(got =~= want);
    }
    r
}

/// All versions, in key order.
pub(crate) fn all_versions(m: &SkipMap<(Vec<u8>, u64), Vec<u8>>) -> (r: Vec<(KeyVec, Vec<u8>)>)
    ensures
        key::sorted(entry_views(r@)),
        merging::to_map(entry_views(r@)) == versions(*m),
{
    let items = skip_iter(m);
    let r = to_entries(items);
    proof {
        let es = entry_views(r@);
        let got = merging::to_map(es);
        let want = versions(*m);
        assert forall|k: VKey| (#[trigger] got.contains_key(k) <==> want.contains_key(k)) && (
        got.contains_key(k) ==> got[k] == want[k]) by {
            merging::lemma_to_map_contains(es, k);
            if got.contains_key(k) {
                let i = choose|i: int| 0 <= i < es.len() && (#[trigger] es[i]).key == k;
                assert(place(r@[i].0@) == item_key(items@[i]));
            }
            if want.contains_key(k) {
                assert(stored(*m).contains_key(place(k)));
                let i = choose|i: int|
                    0 <= i < items@.len() && item_key(#[trigger] items@[i]) == place(k);
                assert(place(r@[i].0@) == item_key(items@[i]));
                lemma_place(r@[i].0@, k);
                assert(es[i].key == k);
            }
        }
        assert(got =~= want);
    }
    r
}

} // verus!
