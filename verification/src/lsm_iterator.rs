//! Iterating over what a reader can see.
use vstd::prelude::*;

use crate::bound::Bound;
use crate::codec::{copy_slice, same_bytes};
use crate::error::LsmError;
use crate::iterators::concat_iterator::SstConcatIterator;
use crate::iterators::merge_iterator::MergeIterator;
use crate::iterators::merging;
use crate::iterators::two_merge_iterator::TwoMergeIterator;
use crate::iterators::StorageIterator;
use crate::key::{VEntry, VKey, TS_DEFAULT};
use crate::mem_table::MemTableIterator;
use crate::table::SsTableIterator;
use crate::{bound, key};

verus! {

broadcast use crate::key::group_models;

/// Represents the internal type for an LSM iterator.
pub type LsmIteratorInner = TwoMergeIterator<
    TwoMergeIterator<MergeIterator<MemTableIterator>, MergeIterator<SsTableIterator>>,
    MergeIterator<SstConcatIterator>,
>;

/// Walks the user keys that a reader at a timestamp can see, each with its newest visible value.
pub struct LsmIterator {
    pub inner: LsmIteratorInner,
    pub lower: Bound<Vec<u8>>,
    pub upper: Bound<Vec<u8>>,
    pub prev_key: Vec<u8>,
    pub read_ts: u64,
}

/// The lower end leaves out `k` itself.
pub open spec fn excluded(lower: Bound<Seq<u8>>, k: Seq<u8>) -> bool {
    lower matches Bound::Excluded(l) && l == k
}

/// A user key with a value.
pub open spec fn user_entry(e: VEntry) -> VEntry {
    VEntry { key: VKey { key: e.key.key, ts: TS_DEFAULT }, value: e.value }
}

/// What a reader at `read_ts` sees of versions in key order: of each user key within the range the
/// newest version that is not newer than `read_ts`, unless that is a tombstone. The user key
/// `prev` has been dealt with already.
pub open spec fn visible(
    s: Seq<VEntry>,
    lower: Bound<Seq<u8>>,
    upper: Bound<Seq<u8>>,
    read_ts: u64,
    prev: Seq<u8>,
) -> Seq<VEntry>
    decreases s.len(),
{
    if s.len() == 0 || !bound::below(upper, s[0].key.key) {
        Seq::empty()
    } else {
        let e = s[0];
        let rest = s.drop_first();
        if excluded(lower, e.key.key) || e.key.ts > read_ts || e.key.key == prev {
            visible(rest, lower, upper, read_ts, prev)
        } else if e.value.len() == 0 {
            visible(rest, lower, upper, read_ts, e.key.key)
        } else {
            seq![user_entry(e)] + visible(rest, lower, upper, read_ts, e.key.key)
        }
    }
}

/// The newest version of a user key that is not newer than `ts`, among versions in key order.
pub open spec fn first_version(s: Seq<VEntry>, k: Seq<u8>, ts: u64) -> Option<Seq<u8>>
    decreases s.len(),
{
    if s.len() == 0 {
        None
    } else if s[0].key.key == k && s[0].key.ts <= ts {
        Some(s[0].value)
    } else {
        first_version(s.drop_first(), k, ts)
    }
}

/// `t` is the timestamp of the newest version of `k` that is not newer than `ts`.
pub open spec fn is_latest(m: Map<VKey, Seq<u8>>, k: Seq<u8>, ts: u64, t: u64) -> bool {
    &&& t <= ts
    &&& m.contains_key(VKey { key: k, ts: t })
    &&& forall|u: u64| t < u <= ts ==> !(#[trigger] m.contains_key(VKey { key: k, ts: u }))
}

/// The value of the newest version of `k` that is not newer than `ts`.
pub open spec fn lookup(m: Map<VKey, Seq<u8>>, k: Seq<u8>, ts: u64) -> Option<Seq<u8>> {
    if exists|t: u64| is_latest(m, k, ts, t) {
        let t = choose|t: u64| is_latest(m, k, ts, t);
        Some(m[VKey { key: k, ts: t }])
    } else {
        None
    }
}

/// There is at most one newest version.
pub proof fn lemma_latest_unique(m: Map<VKey, Seq<u8>>, k: Seq<u8>, ts: u64, t: u64)
    requires
        is_latest(m, k, ts, t),
    ensures
        lookup(m, k, ts) == Some(m[VKey { key: k, ts: t }]),
{
    let u = choose|u: u64| is_latest(m, k, ts, u);
    assert(is_latest(m, k, ts, u));
    if u < t {
        assert(!m.contains_key(VKey { key: k, ts: t }));
    } else if t < u {
        assert(!m.contains_key(VKey { key: k, ts: u }));
    }
}

/// The first fitting version in key order is the newest one.
pub proof fn lemma_first_version(s: Seq<VEntry>, k: Seq<u8>, ts: u64)
    requires
        key::sorted(s),
    ensures
        first_version(s, k, ts) == lookup(merging::to_map(s), k, ts),
    decreases s.len(),
{
    let m = merging::to_map(s);
    if s.len() > 0 {
        let r = s.drop_first();
        let n = merging::to_map(r);
        merging::lemma_sorted_parts(s);
        lemma_first_version(r, k, ts);
        if s[0].key.key == k && s[0].key.ts <= ts {
            let t = s[0].key.ts;
            assert(VKey { key: k, ts: t } =~= s[0].key);
            assert forall|u: u64| t < u <= ts implies !(#[trigger] m.contains_key(
                VKey { key: k, ts: u },
            )) by {
                let b = VKey { key: k, ts: u };
                merging::lemma_to_map_contains(s, b);
                if m.contains_key(b) {
                    let i = choose|i: int| 0 <= i < s.len() && (#[trigger] s[i]).key == b;
                    if i > 0 {
                        assert(key::key_lt(s[0].key, s[i].key));
                        key::lemma_bytes_lt_irreflexive(k);
                    }
                }
            }
            assert(is_latest(m, k, ts, t));
            lemma_latest_unique(m, k, ts, t);
        } else {
            assert forall|u: u64| u <= ts implies (#[trigger] m.contains_key(VKey { key: k, ts: u })
                <==> n.contains_key(VKey { key: k, ts: u })) by {}
            if exists|t: u64| is_latest(n, k, ts, t) {
                let t = choose|t: u64| is_latest(n, k, ts, t);
                assert(is_latest(m, k, ts, t));
                lemma_latest_unique(m, k, ts, t);
                lemma_latest_unique(n, k, ts, t);
            } else if exists|t: u64| is_latest(m, k, ts, t) {
                let t = choose|t: u64| is_latest(m, k, ts, t);
                assert(n.contains_key(VKey { key: k, ts: t }));
                assert forall|u: u64| t < u <= ts implies !(#[trigger] n.contains_key(
                    VKey { key: k, ts: u },
                )) by {
                    assert(!m.contains_key(VKey { key: k, ts: u }));
                }
                assert(is_latest(n, k, ts, t));
            }
        }
    } else {
        assert(!exists|t: u64| is_latest(m, k, ts, t));
    }
}

/// All user keys are at or behind `k`.
pub open spec fn keys_from(s: Seq<VEntry>, k: Seq<u8>) -> bool {
    forall|i: int| 0 <= i < s.len() ==> key::bytes_le(k, (#[trigger] s[i]).key.key)
}

/// The lower end of the range is not behind any user key.
pub open spec fn lower_ok(s: Seq<VEntry>, lower: Bound<Seq<u8>>) -> bool {
    lower matches Bound::Excluded(l) ==> keys_from(s, l)
}

pub proof fn lemma_keys_from_rest(s: Seq<VEntry>, k: Seq<u8>)
    requires
        keys_from(s, k),
        s.len() > 0,
    ensures
        keys_from(s.drop_first(), k),
{
    let r = s.drop_first();
    assert forall|i: int| 0 <= i < r.len() implies key::bytes_le(k, (#[trigger] r[i]).key.key) by {
        assert(r[i] == s[i + 1]);
    }
}

/// In key order, all user keys are at or behind the first.
pub proof fn lemma_keys_from_head(s: Seq<VEntry>)
    requires
        key::sorted(s),
        s.len() > 0,
    ensures
        keys_from(s, s[0].key.key),
        keys_from(s.drop_first(), s[0].key.key),
{
    assert forall|i: int| 0 <= i < s.len() implies key::bytes_le(
        s[0].key.key,
        (#[trigger] s[i]).key.key,
    ) by {
        if i > 0 {
            assert(key::key_lt(s[0].key, s[i].key));
        }
    }
    lemma_keys_from_rest(s, s[0].key.key);
}

/// What a reader sees is in strictly ascending order of user keys, behind `prev`.
pub proof fn lemma_visible_sorted(
    s: Seq<VEntry>,
    lower: Bound<Seq<u8>>,
    upper: Bound<Seq<u8>>,
    read_ts: u64,
    prev: Seq<u8>,
)
    requires
        key::sorted(s),
        keys_from(s, prev),
    ensures
        key::sorted(visible(s, lower, upper, read_ts, prev)),
        merging::all_after(
            visible(s, lower, upper, read_ts, prev),
            VKey { key: prev, ts: TS_DEFAULT },
        ),
    decreases s.len(),
{
    if s.len() > 0 && bound::below(upper, s[0].key.key) {
        let e = s[0];
        let rest = s.drop_first();
        let k = VKey { key: prev, ts: TS_DEFAULT };
        merging::lemma_sorted_parts(s);
        lemma_keys_from_rest(s, prev);
        lemma_keys_from_head(s);
        lemma_visible_sorted(rest, lower, upper, read_ts, prev);
        lemma_visible_sorted(rest, lower, upper, read_ts, e.key.key);
        if !(excluded(lower, e.key.key) || e.key.ts > read_ts || e.key.key == prev) {
            let later = visible(rest, lower, upper, read_ts, e.key.key);
            let u = user_entry(e);
            assert(key::bytes_le(prev, e.key.key));
            assert(key::key_lt(k, u.key));
            merging::lemma_after_weaken(later, k, u.key);
            if e.value.len() > 0 {
                merging::lemma_sorted_cons(u, later);
                let all = seq![u] + later;
                assert forall|i: int| 0 <= i < all.len() implies key::key_lt(
                    k,
                    (#[trigger] all[i]).key,
                ) by {
                    if i > 0 {
                        assert(all[i] == later[i - 1]);
                    }
                }
            }
        }
    }
}

/// A user key is seen exactly where it lies within the range and its newest version that is not
/// newer than the reader's timestamp is no tombstone; the value seen is that version's.
pub proof fn lemma_visible(
    s: Seq<VEntry>,
    lower: Bound<Seq<u8>>,
    upper: Bound<Seq<u8>>,
    read_ts: u64,
    prev: Seq<u8>,
    k: Seq<u8>,
)
    requires
        key::sorted(s),
        keys_from(s, prev),
    ensures
        ({
            let seen = merging::to_map(visible(s, lower, upper, read_ts, prev));
            let u = VKey { key: k, ts: TS_DEFAULT };
            let v = first_version(s, k, read_ts);
            &&& seen.contains_key(u) <==> {
                &&& k != prev
                &&& !excluded(lower, k)
                &&& bound::below(upper, k)
                &&& v is Some
                &&& v->0.len() > 0
            }
            &&& seen.contains_key(u) ==> seen[u] == v->0
        }),
    decreases s.len(),
{
    let seen = visible(s, lower, upper, read_ts, prev);
    let u = VKey { key: k, ts: TS_DEFAULT };
    if s.len() == 0 {
    } else if !bound::below(upper, s[0].key.key) {
        // Everything from here on is beyond the upper end.
        lemma_keys_from_head(s);
        if bound::below(upper, k) {
            lemma_first_version_beyond(s, k, read_ts, upper);
        }
    } else {
        let e = s[0];
        let rest = s.drop_first();
        merging::lemma_sorted_parts(s);
        lemma_keys_from_rest(s, prev);
        lemma_keys_from_head(s);
        lemma_visible(rest, lower, upper, read_ts, prev, k);
        lemma_visible(rest, lower, upper, read_ts, e.key.key, k);
        if !(excluded(lower, e.key.key) || e.key.ts > read_ts || e.key.key == prev) {
            let later = visible(rest, lower, upper, read_ts, e.key.key);
            if e.key.key != k && k == prev {
                // The user key dealt with already lies before this one.
                assert(key::bytes_lt(prev, e.key.key));
                lemma_first_version_before(rest, k, read_ts, e.key.key);
            }
            if e.value.len() > 0 {
                assert(seen.drop_first() =~= later);
                if k == e.key.key {
                    assert(u =~= user_entry(e).key);
                }
            }
        }
    }
}

/// A user key before all others has no version among them.
proof fn lemma_first_version_before(s: Seq<VEntry>, k: Seq<u8>, ts: u64, from: Seq<u8>)
    requires
        keys_from(s, from),
        key::bytes_lt(k, from),
    ensures
        first_version(s, k, ts) is None,
    decreases s.len(),
{
    if s.len() > 0 {
        lemma_keys_from_rest(s, from);
        lemma_first_version_before(s.drop_first(), k, ts, from);
        key::lemma_bytes_lt_irreflexive(k);
        assert(key::bytes_le(from, s[0].key.key));
        if from != s[0].key.key {
            key::lemma_bytes_lt_transitive(k, from, s[0].key.key);
        }
    }
}

/// A user key within the upper end has no version among keys beyond it.
proof fn lemma_first_version_beyond(s: Seq<VEntry>, k: Seq<u8>, ts: u64, upper: Bound<Seq<u8>>)
    requires
        s.len() > 0,
        keys_from(s, s[0].key.key),
        !bound::below(upper, s[0].key.key),
        bound::below(upper, k),
    ensures
        first_version(s, k, ts) is None,
{
    let f = s[0].key.key;
    key::lemma_bytes_total(k, f);
    if key::bytes_lt(f, k) {
        match upper {
            Bound::Included(b) => {
                if k != b {
                    key::lemma_bytes_lt_transitive(f, k, b);
                }
            },
            Bound::Excluded(b) => {
                key::lemma_bytes_lt_transitive(f, k, b);
            },
            Bound::Unbounded => {},
        }
    }
    assert(key::bytes_lt(k, f));
    lemma_first_version_before(s, k, ts, f);
}

/// Keys beyond the upper end are not seen.
proof fn lemma_beyond_is_unseen(
    s: Seq<VEntry>,
    lower: Bound<Seq<u8>>,
    upper: Bound<Seq<u8>>,
    read_ts: u64,
    prev: Seq<u8>,
    from: Seq<u8>,
)
    requires
        keys_from(s, from),
        !bound::below(upper, from),
    ensures
        visible(s, lower, upper, read_ts, prev).len() == 0,
{
    if s.len() > 0 {
        let f = s[0].key.key;
        assert(key::bytes_le(from, f));
        if from != f && bound::below(upper, f) {
            match upper {
                Bound::Included(b) => {
                    if f != b {
                        key::lemma_bytes_lt_transitive(from, f, b);
                    }
                },
                Bound::Excluded(b) => {
                    key::lemma_bytes_lt_transitive(from, f, b);
                },
                Bound::Unbounded => {},
            }
        }
    }
}

impl LsmIterator {
    pub open spec fn inner_valid(&self) -> bool {
        let s = self.inner.remaining();
        s.len() > 0 && bound::below(self.upper.bytes(), s[0].key.key)
    }

    /// What is still to be seen behind the current entry, or from the inner iterator's position on
    /// where there is no current entry.
    pub open spec fn seen_from(&self, s: Seq<VEntry>) -> Seq<VEntry> {
        visible(s, self.lower.bytes(), self.upper.bytes(), self.read_ts, self.prev_key@)
    }

    pub open spec fn base_inv(&self) -> bool {
        &&& self.inner.wf()
        &&& keys_from(self.inner.remaining(), self.prev_key@)
        &&& lower_ok(self.inner.remaining(), self.lower.bytes())
    }

    pub open spec fn inv(&self) -> bool {
        &&& self.base_inv()
        &&& self.inner_valid() ==> {
            let e = self.inner.remaining()[0];
            &&& e.key.ts <= self.read_ts
            &&& e.value.len() > 0
            &&& e.key.key == self.prev_key@
        }
    }

    /// The entries from the current one on.
    pub open spec fn rest(&self) -> Seq<VEntry> {
        let s = self.inner.remaining();
        if self.inner_valid() {
            seq![user_entry(s[0])] + self.seen_from(s.drop_first())
        } else {
            Seq::empty()
        }
    }

    pub proof fn lemma_rest(&self)
        requires
            self.inv(),
        ensures
            key::sorted(self.rest()),
    {
        self.inner.lemma_wf();
        let s = self.inner.remaining();
        if self.inner_valid() {
            let r = s.drop_first();
            merging::lemma_sorted_parts(s);
            lemma_keys_from_rest(s, self.prev_key@);
            lemma_visible_sorted(
                r,
                self.lower.bytes(),
                self.upper.bytes(),
                self.read_ts,
                self.prev_key@,
            );
            merging::lemma_sorted_cons(user_entry(s[0]), self.seen_from(r));
        }
    }

    /// The part of an entry's history that the iterator's user sees, from versions in key order
    /// on. The versions must not lie before the lower end.
    pub fn new(
        iter: LsmIteratorInner,
        lower: Bound<Vec<u8>>,
        upper: Bound<Vec<u8>>,
        read_ts: u64,
    ) -> (r: Result<Self, LsmError>)
        requires
            iter.wf(),
            lower_ok(iter.remaining(), lower.bytes()),
        ensures
            iter.infallible() ==> r is Ok,
            r matches Ok(it) ==> {
                &&& it.inv()
                &&& iter.infallible() ==> it.inner.infallible()
                &&& it.read_ts == read_ts
                &&& it.lower == lower
                &&& it.upper == upper
                &&& it.rest() == visible(
                    iter.remaining(),
                    lower.bytes(),
                    upper.bytes(),
                    read_ts,
                    Seq::empty(),
                )
            },
    {
        let ghost s = iter.remaining();
        let mut it = Self { inner: iter, lower, upper, prev_key: Vec::new(), read_ts };
        proof {
            assert(it.prev_key@ =~= Seq::empty());
            assert forall|i: int| 0 <= i < s.len() implies key::bytes_le(
                Seq::empty(),
                (#[trigger] s[i]).key.key,
            ) by {
                key::lemma_empty_first(Seq::empty(), s[i].key.key);
            }
        }
        match it.skip_until_valid() {
            Ok(()) => Ok(it),
            Err(e) => Err(e),
        }
    }

    /// Whether the inner iterator stands on a key within the upper end.
    fn in_range(&self) -> (r: bool)
        requires
            self.inner.wf(),
        ensures
            r == self.inner_valid(),
    {
        proof {
            self.inner.lemma_wf();
        }
        if !self.inner.is_valid() {
            return false;
        }
        self.upper.as_slice_bound().admits_from_above(self.inner.key().key_ref())
    }

    /// Seeks to the next valid key if the current key is invalid, otherwise does nothing.
    fn skip_until_valid(&mut self) -> (r: Result<(), LsmError>)
        requires
            old(self).base_inv(),
        ensures
            old(self).inner.infallible() ==> r is Ok && final(self).inner.infallible(),
            r is Ok ==> final(self).inv(),
            r is Ok ==> final(self).rest() == old(self).seen_from(old(self).inner.remaining()),
            final(self).read_ts == old(self).read_ts,
            final(self).lower == old(self).lower,
            final(self).upper == old(self).upper,
    {
        let ghost target = self.seen_from(self.inner.remaining());
        let excluded_key: Option<Vec<u8>> = match &self.lower {
            Bound::Excluded(k) => Some(copy_slice(k.as_slice())),
            _ => None,
        };
        if let Some(k) = &excluded_key {
            let mut done = false;
            while !done
                invariant
                    self.base_inv(),
                    self.lower == old(self).lower,
                    self.upper == old(self).upper,
                    self.read_ts == old(self).read_ts,
                    self.lower.bytes() == Bound::Excluded(k@),
                    self.seen_from(self.inner.remaining()) == target,
                    old(self).inner.infallible() ==> self.inner.infallible(),
                    done ==> (self.inner_valid() ==> self.inner.remaining()[0].key.key != k@),
                decreases self.inner.remaining().len(), (if done {
                        0int
                    } else {
                        1int
                    }),
            {
                proof {
                    self.inner.lemma_wf();
                }
                if self.in_range() && same_bytes(self.inner.key().key_ref(), k.as_slice()) {
                    let ghost s = self.inner.remaining();
                    proof {
                        lemma_keys_from_rest(s, self.prev_key@);
                        lemma_keys_from_rest(s, k@);
                    }
                    match self.inner.next() {
                        Ok(()) => {},
                        Err(e) => {
                            return Err(e);
                        },
                    }
                } else {
                    done = true;
                }
            }
        }
        proof {
            self.inner.lemma_wf();
            lemma_past_excluded(self.inner.remaining(), self.lower.bytes(), self.upper.bytes());
        }
        let mut found = false;
        while !found
            invariant
                self.base_inv(),
                self.lower == old(self).lower,
                self.upper == old(self).upper,
                self.read_ts == old(self).read_ts,
                old(self).inner.infallible() ==> self.inner.infallible(),
                none_excluded(
                    self.inner.remaining(),
                    self.lower.bytes(),
                    self.upper.bytes(),
                ),
                !found ==> self.seen_from(self.inner.remaining()) == target,
                found ==> self.inv(),
                found ==> self.rest() == target,
            decreases self.inner.remaining().len(), (if found {
                    0int
                } else {
                    1int
                }),
        {
            proof {
                self.inner.lemma_wf();
            }
            let ghost s = self.inner.remaining();
            if self.in_range() {
                proof {
                    merging::lemma_sorted_parts(s);
                    lemma_keys_from_rest(s, self.prev_key@);
                    lemma_keys_from_head(s);
                    if self.lower.bytes() is Excluded {
                        lemma_keys_from_rest(s, self.lower.bytes()->Excluded_0);
                    }
                    lemma_none_excluded_rest(s, self.lower.bytes(), self.upper.bytes());
                }
                let too_new = self.inner.key().ts() > self.read_ts;
                let same = same_bytes(self.inner.key().key_ref(), self.prev_key.as_slice());
                if too_new || same {
                    match self.inner.next() {
                        Ok(()) => {},
                        Err(e) => {
                            return Err(e);
                        },
                    }
                } else if self.inner.value().len() == 0 {
                    // All keys older than the tombstone should be skipped.
                    self.prev_key = copy_slice(self.inner.key().key_ref());
                    match self.inner.next() {
                        Ok(()) => {},
                        Err(e) => {
                            return Err(e);
                        },
                    }
                } else {
                    self.prev_key = copy_slice(self.inner.key().key_ref());
                    found = true;
                }
            } else {
                found = true;
            }
        }
        Ok(())
    }
}

/// No user key within the upper end is left out by the lower end.
spec fn none_excluded(s: Seq<VEntry>, lower: Bound<Seq<u8>>, upper: Bound<Seq<u8>>) -> bool {
    forall|i: int|
        0 <= i < s.len() && bound::below(upper, (#[trigger] s[i]).key.key) ==> !excluded(
            lower,
            s[i].key.key,
        )
}

proof fn lemma_none_excluded_rest(s: Seq<VEntry>, lower: Bound<Seq<u8>>, upper: Bound<Seq<u8>>)
    requires
        none_excluded(s, lower, upper),
        s.len() > 0,
    ensures
        none_excluded(s.drop_first(), lower, upper),
{
    let r = s.drop_first();
    assert forall|i: int| 0 <= i < r.len() && bound::below(upper, (#[trigger] r[i]).key.key) implies !excluded(
        lower,
        r[i].key.key,
    ) by {
        assert(r[i] == s[i + 1]);
    }
}

/// Once the first key is not the excluded one, none is.
proof fn lemma_past_excluded(s: Seq<VEntry>, lower: Bound<Seq<u8>>, upper: Bound<Seq<u8>>)
    requires
        key::sorted(s),
        lower_ok(s, lower),
        s.len() > 0 && bound::below(upper, s[0].key.key) ==> !excluded(lower, s[0].key.key),
    ensures
        none_excluded(s, lower, upper),
{
    assert forall|i: int| 0 <= i < s.len() && bound::below(upper, (#[trigger] s[i]).key.key) implies !excluded(
        lower,
        s[i].key.key,
    ) by {
        if excluded(lower, s[i].key.key) {
            let l = s[i].key.key;
            lemma_keys_from_head(s);
            assert(key::bytes_le(l, s[0].key.key));
            assert(key::bytes_le(s[0].key.key, l));
            if l != s[0].key.key {
                key::lemma_bytes_lt_transitive(l, s[0].key.key, l);
                key::lemma_bytes_lt_irreflexive(l);
            }
        }
    }
}

impl StorageIterator for LsmIterator {
    type KeyType<'a> = &'a [u8];

    open spec fn wf(&self) -> bool {
        self.inv()
    }

    open spec fn remaining(&self) -> Seq<VEntry> {
        self.rest()
    }

    open spec fn readable(&self) -> bool {
        self.inner.readable()
    }

    open spec fn infallible(&self) -> bool {
        self.inner.infallible()
    }

    open spec fn stays_exhausted(&self) -> bool {
        true
    }

    open spec fn num_active(&self) -> nat {
        self.inner.num_active()
    }

    proof fn lemma_wf(&self) {
        self.lemma_rest();
        self.inner.lemma_wf();
    }

    fn is_valid(&self) -> (r: bool) {
        self.in_range()
    }

    fn key(&self) -> (r: &[u8]) {
        self.inner.key().key_ref()
    }

    fn value(&self) -> (r: &[u8]) {
        self.inner.value()
    }

    fn next(&mut self) -> (r: Result<(), LsmError>) {
        let ghost s = self.inner.remaining();
        proof {
            self.inner.lemma_wf();
            if s.len() > 0 {
                merging::lemma_sorted_parts(s);
                lemma_keys_from_rest(s, self.prev_key@);
                if self.lower.bytes() is Excluded {
                    lemma_keys_from_rest(s, self.lower.bytes()->Excluded_0);
                }
            }
            if self.inner_valid() {
                assert(self.rest().drop_first() =~= self.seen_from(s.drop_first()));
            } else if s.len() > 0 {
                lemma_keys_from_head(s);
                lemma_beyond_is_unseen(
                    s.drop_first(),
                    self.lower.bytes(),
                    self.upper.bytes(),
                    self.read_ts,
                    self.prev_key@,
                    s[0].key.key,
                );
            }
        }
        match self.inner.next() {
            Ok(()) => {},
            Err(e) => {
                return Err(e);
            },
        }
        self.skip_until_valid()
    }

    fn num_active_iterators(&self) -> (r: usize) {
        self.inner.num_active_iterators()
    }
}

/// A wrapper around existing iterator, will prevent users from calling `next` when the iterator is
/// invalid. If an iterator is already invalid, `next` does not do anything. If `next` returns an error,
/// `is_valid` should return false, and `next` should always return an error.
pub struct FusedIterator<I: StorageIterator> {
    pub iter: I,
    pub has_errored: bool,
}

impl<I: StorageIterator> FusedIterator<I> {
    pub fn new(iter: I) -> (r: Self)
        ensures
            r.iter == iter,
            !r.has_errored,
    {
        Self { iter, has_errored: false }
    }
}

impl<I: 'static + StorageIterator> StorageIterator for FusedIterator<I> {
    type KeyType<'a> = I::KeyType<'a>;

    open spec fn wf(&self) -> bool {
        self.has_errored || self.iter.wf()
    }

    open spec fn remaining(&self) -> Seq<VEntry> {
        if self.has_errored {
            Seq::empty()
        } else {
            self.iter.remaining()
        }
    }

    open spec fn readable(&self) -> bool {
        self.iter.wf() && self.iter.readable()
    }

    open spec fn infallible(&self) -> bool {
        !self.has_errored && self.iter.infallible()
    }

    open spec fn stays_exhausted(&self) -> bool {
        true
    }

    open spec fn num_active(&self) -> nat {
        self.iter.num_active()
    }

    proof fn lemma_wf(&self) {
        if !self.has_errored {
            self.iter.lemma_wf();
        }
    }

    fn is_valid(&self) -> (r: bool) {
        if self.has_errored {
            false
        } else {
            self.iter.is_valid()
        }
    }

    fn key(&self) -> (r: Self::KeyType<'_>) {
        self.iter.key()
    }

    fn value(&self) -> (r: &[u8]) {
        self.iter.value()
    }

    fn next(&mut self) -> (r: Result<(), LsmError>)
        ensures
            final(self).wf(),
            old(self).has_errored ==> r == Err::<(), LsmError>(LsmError::InvalidIterator)
                && *final(self) == *old(self),
            !old(self).has_errored && old(self).remaining().len() == 0 ==> r is Ok && *final(self)
                == *old(self),
            r is Err ==> final(self).has_errored,
    {
        if self.has_errored {
            return Err(LsmError::InvalidIterator);
        }
        if !self.iter.is_valid() {
            return Ok(());
        }
        let result = self.iter.next();
        if result.is_err() {
            self.has_errored = true;
        }
        result
    }

    fn num_active_iterators(&self) -> (r: usize) {
        self.iter.num_active_iterators()
    }
}

} // verus!
