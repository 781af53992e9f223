//! Leaving out tombstones that hide nothing.
use vstd::prelude::*;

use crate::codec::same_bytes;
use crate::error::LsmError;
use crate::iterators::merge_iterator::MergeIterator;
use crate::iterators::merging;
use crate::iterators::two_merge_iterator::TwoMergeIterator;
use crate::iterators::StorageIterator;
use crate::key::{KeySlice, KeyVec, VEntry, VKey};
use crate::table::SsTableIterator;
use crate::{block, key};

verus! {

broadcast use crate::key::group_models;

/// The first entry is a tombstone, and no older version of its user key follows.
pub open spec fn hides_nothing(s: Seq<VEntry>) -> bool {
    s[0].value.len() == 0 && !(s.len() > 1 && s[1].key.key == s[0].key.key)
}

/// The entries without the tombstones that hide nothing.
pub open spec fn pruned(s: Seq<VEntry>) -> Seq<VEntry>
    decreases s.len(),
{
    if s.len() == 0 {
        s
    } else if hides_nothing(s) {
        pruned(s.drop_first())
    } else {
        seq![s[0]] + pruned(s.drop_first())
    }
}

/// What a compaction keeps of the merged entries: on the bottom level, all but the tombstones that
/// hide nothing.
pub open spec fn kept(s: Seq<VEntry>, bottom: bool) -> Seq<VEntry> {
    if bottom {
        pruned(s)
    } else {
        s
    }
}

/// Entries that are kept were there, and they stay in order.
pub proof fn lemma_pruned(s: Seq<VEntry>)
    requires
        key::sorted(s),
    ensures
        key::sorted(pruned(s)),
        forall|k: VKey| merging::all_after(s, k) ==> #[trigger] merging::all_after(pruned(s), k),
        block::entries_fit(s) ==> block::entries_fit(pruned(s)),
    decreases s.len(),
{
    if s.len() > 0 {
        let r = s.drop_first();
        merging::lemma_sorted_parts(s);
        lemma_pruned(r);
        assert(merging::all_after(pruned(r), s[0].key));
        assert forall|k: VKey| merging::all_after(s, k) implies #[trigger] merging::all_after(
            pruned(s),
            k,
        ) by {
            assert(merging::all_after(r, k)) by {
                assert forall|i: int| 0 <= i < r.len() implies key::key_lt(
                    k,
                    (#[trigger] r[i]).key,
                ) by {
                    assert(r[i] == s[i + 1]);
                }
            }
            assert(merging::all_after(pruned(r), k));
            assert(key::key_lt(k, s[0].key));
        }
        if !hides_nothing(s) {
            merging::lemma_sorted_cons(s[0], pruned(r));
        }
        if block::entries_fit(s) {
            assert(block::entry_fits(s[0]));
            assert forall|i: int| 0 <= i < r.len() implies block::entry_fits(#[trigger] r[i]) by {
                assert(r[i] == s[i + 1]);
            }
            assert(block::entries_fit(pruned(r)));
        }
    }
}

/// What is left out is a tombstone of which no older version of the user key is there.
pub proof fn lemma_pruned_out(s: Seq<VEntry>, x: VKey)
    requires
        key::sorted(s),
    ensures
        merging::to_map(pruned(s)).contains_key(x) ==> merging::to_map(s).contains_key(x)
            && merging::to_map(pruned(s))[x] == merging::to_map(s)[x],
        merging::to_map(s).contains_key(x) && !merging::to_map(pruned(s)).contains_key(x) ==> {
            &&& merging::to_map(s)[x].len() == 0
            &&& forall|y: VKey| #[trigger]
                merging::to_map(s).contains_key(y) && y.key == x.key ==> y.ts >= x.ts
        },
    decreases s.len(),
{
    lemma_pruned(s);
    merging::lemma_to_map_contains(s, x);
    merging::lemma_to_map_contains(pruned(s), x);
    if s.len() > 0 {
        let r = s.drop_first();
        merging::lemma_sorted_parts(s);
        lemma_pruned(r);
        lemma_pruned_out(r, x);
        merging::lemma_to_map_contains(r, x);
        merging::lemma_to_map_contains(pruned(r), x);
        let m = merging::to_map(s);
        let n = merging::to_map(pruned(s));
        assert(m.contains_key(x) <==> x == s[0].key || merging::to_map(r).contains_key(x)) by {
            if m.contains_key(x) && x != s[0].key {
                let i = choose|i: int| 0 <= i < s.len() && (#[trigger] s[i]).key == x;
                assert(r[i - 1] == s[i]);
            }
            if merging::to_map(r).contains_key(x) {
                let i = choose|i: int| 0 <= i < r.len() && (#[trigger] r[i]).key == x;
                assert(s[i + 1] == r[i]);
            }
            assert(s[0].key == s[0].key);
        }
        if merging::to_map(r).contains_key(x) {
            let i = choose|i: int| 0 <= i < r.len() && (#[trigger] r[i]).key == x;
            assert(s[i + 1] == r[i]);
            assert(m[x] == merging::to_map(r)[x]);
        }
        let p = pruned(s);
        let q = pruned(r);
        if !hides_nothing(s) {
            if n.contains_key(x) && x != s[0].key {
                let i = choose|i: int| 0 <= i < p.len() && (#[trigger] p[i]).key == x;
                assert(q[i - 1] == p[i]);
            }
            if merging::to_map(q).contains_key(x) {
                let i = choose|i: int| 0 <= i < q.len() && (#[trigger] q[i]).key == x;
                assert(p[i + 1] == q[i]);
            }
            assert(p[0] == s[0]);
        }
        if m.contains_key(x) && !n.contains_key(x) {
            assert forall|y: VKey| #[trigger] m.contains_key(y) && y.key == x.key implies y.ts
                >= x.ts by {
                merging::lemma_to_map_contains(s, y);
                let j = choose|j: int| 0 <= j < s.len() && (#[trigger] s[j]).key == y;
                if x == s[0].key {
                    if j > 0 {
                        lemma_key_gone(s, j);
                    }
                } else if j == 0 {
                    let i = choose|i: int| 0 <= i < s.len() && (#[trigger] s[i]).key == x;
                    assert(key::key_lt(s[0].key, s[i].key));
                    key::lemma_bytes_lt_irreflexive(x.key);
                } else {
                    assert(r[j - 1] == s[j]);
                    merging::lemma_to_map_contains(r, y);
                    assert(merging::to_map(r).contains_key(y));
                }
            }
        }
    }
}

/// On the bottom level an entry is kept exactly where it is no tombstone or hides an older version
/// that is there; on other levels all are kept.
pub proof fn lemma_kept(s: Seq<VEntry>, bottom: bool, e: VEntry)
    requires
        key::sorted(s),
    ensures
        kept(s, bottom).contains(e) <==> s.contains(e) && (!bottom || e.value.len() > 0 || exists|
            f: VEntry,
        | #[trigger]
            s.contains(f) && f.key.key == e.key.key && f.key.ts < e.key.ts),
        !bottom ==> kept(s, bottom) == s,
{
    if bottom {
        lemma_pruned_contains(s, e);
    }
}

proof fn lemma_pruned_contains(s: Seq<VEntry>, e: VEntry)
    requires
        key::sorted(s),
    ensures
        pruned(s).contains(e) <==> s.contains(e) && (e.value.len() > 0 || exists|f: VEntry|
            #[trigger]
            s.contains(f) && f.key.key == e.key.key && f.key.ts < e.key.ts),
    decreases s.len(),
{
    if s.len() > 0 {
        let r = s.drop_first();
        merging::lemma_sorted_parts(s);
        lemma_pruned_contains(r, e);
        assert(s[0] == s[0]);
        assert(s.contains(s[0]));
        assert forall|f: VEntry| #[trigger] s.contains(f) <==> f == s[0] || r.contains(f) by {
            if s.contains(f) && f != s[0] {
                let i = s.index_of(f);
                assert(r[i - 1] == f);
            }
            if r.contains(f) {
                let i = r.index_of(f);
                assert(s[i + 1] == f);
            }
        }
        // All others lie behind the first entry.
        assert forall|f: VEntry| #[trigger] r.contains(f) implies key::key_lt(s[0].key, f.key) && f
            != s[0] && (f.key.key == s[0].key.key ==> f.key.ts < s[0].key.ts && !hides_nothing(
            s,
        )) by {
            let i = r.index_of(f);
            assert(s[i + 1] == f);
            assert(key::key_lt(s[0].key, s[i + 1].key));
            key::lemma_key_lt_irreflexive(f.key);
            key::lemma_bytes_lt_irreflexive(f.key.key);
            if hides_nothing(s) {
                lemma_key_gone(s, i + 1);
            }
        }
        let in_s = exists|f: VEntry| #[trigger]
            s.contains(f) && f.key.key == e.key.key && f.key.ts < e.key.ts;
        let in_r = exists|f: VEntry| #[trigger]
            r.contains(f) && f.key.key == e.key.key && f.key.ts < e.key.ts;
        if in_r {
            let f = choose|f: VEntry| #[trigger]
                r.contains(f) && f.key.key == e.key.key && f.key.ts < e.key.ts;
            assert(s.contains(f));
        }
        if in_s && s.contains(e) {
            let f = choose|f: VEntry| #[trigger]
                s.contains(f) && f.key.key == e.key.key && f.key.ts < e.key.ts;
            assert(r.contains(f)) by {
                if f == s[0] && e != s[0] {
                    assert(r.contains(e));
                    key::lemma_bytes_lt_irreflexive(e.key.key);
                }
            }
        }
        assert(s.contains(e) ==> in_s == in_r);
        let p = pruned(s);
        let q = pruned(r);
        if !hides_nothing(s) {
            if p.contains(e) && e != s[0] {
                let i = p.index_of(e);
                assert(q[i - 1] == e);
            }
            if q.contains(e) {
                let i = q.index_of(e);
                assert(p[i + 1] == e);
            }
            assert(p[0] == s[0]);
            if s[0].value.len() == 0 {
                assert(r[0] == s[1]);
                assert(r.contains(s[1]));
                assert(key::key_lt(s[0].key, s[1].key));
                key::lemma_bytes_lt_irreflexive(s[0].key.key);
                assert(s.contains(s[1]) && s[1].key.key == s[0].key.key && s[1].key.ts
                    < s[0].key.ts);
            }
        }
    }
}

/// Where the second entry has another user key than the first, no later one has that of the first.
proof fn lemma_key_gone(s: Seq<VEntry>, j: int)
    requires
        key::sorted(s),
        0 < j < s.len(),
        s[1].key.key != s[0].key.key,
    ensures
        s[j].key.key != s[0].key.key,
{
    assert(key::key_lt(s[0].key, s[1].key));
    if j > 1 {
        assert(key::key_lt(s[1].key, s[j].key));
        if s[j].key.key == s[0].key.key {
            key::lemma_bytes_lt_transitive(s[0].key.key, s[1].key.key, s[j].key.key);
            key::lemma_bytes_lt_irreflexive(s[0].key.key);
        }
    }
}

/// The merged entries of two groups of tables, as far as a compaction keeps them.
pub struct CompactionIterator {
    pub inner: TwoMergeIterator<MergeIterator<SsTableIterator>, MergeIterator<SsTableIterator>>,
    /// The key of a tombstone that hides the current entry of the merge.
    pub held: Option<KeyVec>,
    /// Whether tombstones that hide nothing are left out.
    pub bottom: bool,
    /// The value of tombstones.
    pub no_value: Vec<u8>,
}

impl CompactionIterator {
    pub open spec fn wf(&self) -> bool {
        let s = self.inner.remaining();
        &&& self.inner.wf()
        &&& self.inner.infallible()
        &&& self.no_value@.len() == 0
        &&& match self.held {
            Some(k) => self.bottom && s.len() > 0 && s[0].key.key == k@.key,
            None => self.bottom && s.len() > 0 ==> s[0].value.len() > 0,
        }
    }

    /// The entries from the current one on.
    pub open spec fn remaining(&self) -> Seq<VEntry> {
        let rest = kept(self.inner.remaining(), self.bottom);
        match self.held {
            Some(k) => seq![VEntry { key: k@, value: Seq::empty() }] + rest,
            None => rest,
        }
    }

    pub fn create(
        inner: TwoMergeIterator<MergeIterator<SsTableIterator>, MergeIterator<SsTableIterator>>,
        bottom: bool,
    ) -> (r: Result<Self, LsmError>)
        requires
            inner.wf(),
            inner.infallible(),
        ensures
            r matches Ok(it) && it.wf() && it.remaining() == kept(inner.remaining(), bottom),
    {
        let mut it = CompactionIterator { inner, held: None, bottom, no_value: Vec::new() };
        if bottom {
            match it.skip_idle() {
                Ok(()) => {},
                Err(e) => {
                    return Err(e);
                },
            }
        }
        Ok(it)
    }

    /// Moves behind the tombstones that hide nothing.
    fn skip_idle(&mut self) -> (r: Result<(), LsmError>)
        requires
            old(self).inner.wf(),
            old(self).inner.infallible(),
            old(self).held is None,
            old(self).bottom,
            old(self).no_value@.len() == 0,
        ensures
            r is Ok,
            final(self).wf(),
            final(self).bottom,
            final(self).remaining() == pruned(old(self).inner.remaining()),
    {
        let ghost all = self.inner.remaining();
        let mut done = false;
        while !done
            invariant
                self.inner.wf(),
                self.inner.infallible(),
                self.bottom,
                self.no_value@.len() == 0,
                !done ==> self.held is None && pruned(self.inner.remaining()) == pruned(all),
                done ==> self.wf() && self.remaining() == pruned(all),
            decreases self.inner.remaining().len(), (if done {
                    0int
                } else {
                    1int
                }),
        {
            let ghost s = self.inner.remaining();
            proof {
                self.inner.lemma_wf();
            }
            if self.inner.is_valid() && self.inner.value().len() == 0 {
                let key: KeyVec = self.inner.key().to_key_vec();
                assert(key@ == s[0].key);
                match self.inner.next() {
                    Ok(()) => {},
                    Err(e) => {
                        return Err(e);
                    },
                }
                proof {
                    self.inner.lemma_wf();
                    assert(s[0].value =~= Seq::empty());
                    assert(s[0] == (VEntry { key: key@, value: Seq::empty() }));
                }
                if self.inner.is_valid() && same_bytes(self.inner.key().key_ref(), key.key_ref()) {
                    assert(s[1] == self.inner.remaining()[0]);
                    self.held = Some(key);
                    done = true;
                } else {
                    assert(hides_nothing(s)) by {
                        if s.len() > 1 {
                            assert(s[1] == self.inner.remaining()[0]);
                        }
                    }
                }
            } else {
                done = true;
            }
        }
        Ok(())
    }

    pub fn is_valid(&self) -> (r: bool)
        requires
            self.wf(),
        ensures
            r == (self.remaining().len() > 0),
    {
        match &self.held {
            Some(_) => true,
            None => self.inner.is_valid(),
        }
    }

    pub fn key(&self) -> (r: KeySlice<'_>)
        requires
            self.wf(),
            self.remaining().len() > 0,
        ensures
            r@ == self.remaining()[0].key,
    {
        proof {
            self.inner.lemma_wf();
        }
        match &self.held {
            Some(key) => key.as_key_slice(),
            None => self.inner.key(),
        }
    }

    pub fn value(&self) -> (r: &[u8])
        requires
            self.wf(),
            self.remaining().len() > 0,
        ensures
            r@ == self.remaining()[0].value,
    {
        proof {
            self.inner.lemma_wf();
            assert(self.no_value@ =~= Seq::empty());
        }
        match &self.held {
            Some(_) => self.no_value.as_slice(),
            None => self.inner.value(),
        }
    }

    pub fn next(&mut self) -> (r: Result<(), LsmError>)
        requires
            old(self).wf(),
            old(self).remaining().len() > 0,
        ensures
            r is Ok,
            final(self).wf(),
            final(self).remaining() == old(self).remaining().drop_first(),
    {
        let ghost s = self.inner.remaining();
        let ghost all = self.remaining();
        if self.held.is_some() {
            self.held = None;
            assert(all.drop_first() =~= pruned(s));
        } else {
            match self.inner.next() {
                Ok(()) => {},
                Err(e) => {
                    return Err(e);
                },
            }
            assert(all.drop_first() =~= kept(s.drop_first(), self.bottom));
        }
        if self.bottom {
            self.skip_idle()
        } else {
            Ok(())
        }
    }
}

} // verus!
