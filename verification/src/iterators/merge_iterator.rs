//! Merging any number of iterators.
use vstd::prelude::*;

use crate::error::LsmError;
use crate::iterators::merging;
use crate::iterators::StorageIterator;
use crate::key;
use crate::key::{KeySlice, Order, StorageKey, VEntry, VKey, TS_DEFAULT};

verus! {

broadcast use crate::key::group_models;

/// Merge multiple iterators of the same type. If the same key occurs multiple times in some
/// iterators, prefer the one with smaller index.
pub struct MergeIterator<I: StorageIterator> {
    /// The iterators that still have entries, in the order of their indices.
    pub iters: Vec<Box<I>>,
    /// The position of the first iterator with the smallest key.
    pub current: Option<usize>,
}

/// What each iterator still has.
pub open spec fn rems<I: StorageIterator>(iters: Seq<Box<I>>) -> Seq<Seq<VEntry>> {
    Seq::new(iters.len(), |i: int| iters[i].remaining())
}

/// All iterators are in a state that their methods accept.
pub open spec fn all_wf<I: StorageIterator>(iters: Seq<Box<I>>) -> bool {
    forall|i: int| 0 <= i < iters.len() ==> (#[trigger] iters[i]).wf()
}

/// No iterator can fail.
pub open spec fn all_infallible<I: StorageIterator>(iters: Seq<Box<I>>) -> bool {
    forall|i: int| 0 <= i < iters.len() ==> (#[trigger] iters[i]).infallible()
}

/// All iterators have entries.
pub open spec fn all_valid<I: StorageIterator>(iters: Seq<Box<I>>) -> bool {
    forall|i: int| 0 <= i < iters.len() ==> (#[trigger] iters[i]).remaining().len() > 0
}

/// `c` is the position of the first sequence with the smallest key.
pub open spec fn is_first_min(seqs: Seq<Seq<VEntry>>, c: int) -> bool {
    &&& 0 <= c < seqs.len()
    &&& seqs[c].len() > 0
    &&& merging::none_before(seqs, seqs[c][0].key)
    &&& forall|i: int|
        0 <= i < c && (#[trigger] seqs[i]).len() > 0 ==> seqs[i][0].key != seqs[c][0].key
}

pub proof fn lemma_rems_sorted<I: StorageIterator>(iters: Seq<Box<I>>)
    requires
        all_wf(iters),
    ensures
        merging::all_sorted(rems(iters)),
        forall|i: int|
            0 <= i < iters.len() && (#[trigger] iters[i]).remaining().len() > 0
                ==> iters[i].readable(),
{
    assert forall|i: int| 0 <= i < iters.len() implies key::sorted(#[trigger] rems(iters)[i]) && (
    iters[i].remaining().len() > 0 ==> iters[i].readable()) by {
        assert(iters[i].wf());
        iters[i].lemma_wf();
    }
    assert forall|i: int|
        0 <= i < iters.len() && (#[trigger] iters[i]).remaining().len() > 0 implies iters[i].readable() by {
        assert(key::sorted(rems(iters)[i]));
    }
}

/// A merge iterator goes through all keys that its iterators still have, each once and in ascending
/// order, with the value of the iterator with the smallest index.
pub proof fn lemma_prefers_smaller_index<I: StorageIterator>(it: &MergeIterator<I>)
    requires
        it.inv(),
        it.current is Some,
    ensures
        merging::prefers_first(it.rest(), rems(it.iters@)),
{
    lemma_rems_sorted(it.iters@);
    merging::lemma_merge_prefers_first(rems(it.iters@));
}

impl<I: StorageIterator> MergeIterator<I> {
    pub open spec fn inv(&self) -> bool {
        &&& all_wf(self.iters@)
        &&& all_valid(self.iters@)
        &&& self.current matches Some(c) ==> is_first_min(rems(self.iters@), c as int)
    }

    /// The entries from the current one on.
    pub open spec fn rest(&self) -> Seq<VEntry> {
        if self.current is Some {
            merging::merge_all(rems(self.iters@))
        } else {
            Seq::empty()
        }
    }

    /// The position of the first iterator with the smallest key.
    fn find_current(iters: &Vec<Box<I>>) -> (r: Option<usize>)
        requires
            all_wf(iters@),
            all_valid(iters@),
        ensures
            iters@.len() == 0 <==> r is None,
            r matches Some(c) ==> is_first_min(rems(iters@), c as int),
    {
        if iters.len() == 0 {
            return None;
        }
        let ghost seqs = rems(iters@);
        proof {
            lemma_rems_sorted(iters@);
            assert(iters@[0].remaining().len() > 0);
        }
        let mut best: usize = 0;
        let mut i: usize = 1;
        while i < iters.len()
            invariant
                all_wf(iters@),
                all_valid(iters@),
                seqs == rems(iters@),
                forall|j: int|
                    0 <= j < iters@.len() && (#[trigger] iters@[j]).remaining().len() > 0
                        ==> iters@[j].readable(),
                best < i <= iters@.len(),
                seqs[best as int].len() > 0,
                forall|j: int|
                    0 <= j < i ==> key::key_le(seqs[best as int][0].key, (#[trigger] seqs[j])[0].key),
                forall|j: int|
                    0 <= j < best ==> (#[trigger] seqs[j])[0].key != seqs[best as int][0].key,
            decreases iters@.len() - i,
        {
            let ghost b = seqs[best as int][0].key;
            let ghost k = seqs[i as int][0].key;
            assert(iters@[i as int].remaining().len() > 0);
            assert(iters@[best as int].remaining().len() > 0);
            assert(iters@[i as int].wf());
            assert(iters@[best as int].wf());
            let less = match iters[i].key().compare_to(&iters[best].key()) {
                Order::Less => true,
                _ => false,
            };
            proof {
                key::lemma_key_total(k, b);
                key::lemma_key_lt_irreflexive(k);
                key::lemma_key_lt_irreflexive(b);
                if less {
                    assert forall|j: int| 0 <= j < i + 1 implies key::key_le(
                        k,
                        (#[trigger] seqs[j])[0].key,
                    ) by {
                        if j < i && seqs[j][0].key != b {
                            key::lemma_key_lt_transitive(k, b, seqs[j][0].key);
                        }
                    }
                    assert forall|j: int| 0 <= j < i implies (#[trigger] seqs[j])[0].key != k by {
                        assert(key::key_le(b, seqs[j][0].key));
                        if seqs[j][0].key == k {
                            key::lemma_key_lt_transitive(k, b, k);
                        }
                    }
                }
            }
            if less {
                best = i;
            }
            i = i + 1;
        }
        assert(is_first_min(seqs, best as int)) by {
            assert forall|j: int| 0 <= j < seqs.len() && (#[trigger] seqs[j]).len() > 0 implies key::key_le(
                seqs[best as int][0].key,
                seqs[j][0].key,
            ) by {}
        }
        Some(best)
    }

    /// Leaves out the iterators that have no more entries.
    fn drop_invalid(iters: &mut Vec<Box<I>>)
        requires
            all_wf(old(iters)@),
        ensures
            all_wf(final(iters)@),
            all_valid(final(iters)@),
            merging::merge_all(rems(final(iters)@)) == merging::merge_all(rems(old(iters)@)),
            all_infallible(old(iters)@) ==> all_infallible(final(iters)@),
            final(iters)@.len() <= old(iters)@.len(),
            final(iters)@ == valid_of(old(iters)@),
    {
        let mut i: usize = 0;
        proof {
            assert(iters@.take(0) + valid_of(iters@.skip(0)) =~= valid_of(iters@)) by {
                assert(iters@.skip(0) =~= iters@);
            }
        }
        while i < iters.len()
            invariant
                all_wf(iters@),
                i <= iters@.len() <= old(iters)@.len(),
                forall|j: int| 0 <= j < i ==> (#[trigger] iters@[j]).remaining().len() > 0,
                merging::merge_all(rems(iters@)) == merging::merge_all(rems(old(iters)@)),
                all_infallible(old(iters)@) ==> all_infallible(iters@),
                iters@.take(i as int) + valid_of(iters@.skip(i as int)) == valid_of(old(iters)@),
            decreases iters@.len() - i,
        {
            let ghost before = iters@;
            let ghost n = i as int;
            assert(before.skip(n).drop_first() =~= before.skip(n + 1));
            assert(iters@[i as int].wf());
            if iters[i].is_valid() {
                i = i + 1;
                assert(before.take(n + 1) =~= before.take(n).push(before[n]));
                assert(before.take(n + 1) + valid_of(before.skip(n + 1)) =~= before.take(n)
                    + valid_of(before.skip(n)));
            } else {
                let _ = iters.remove(i);
                proof {
                    merging::lemma_merge_all_without(rems(before), n);
                    assert(rems(iters@) =~= rems(before).remove(n));
                    assert forall|j: int| 0 <= j < iters@.len() implies (#[trigger] iters@[j]).wf()
                        && (all_infallible(before) ==> iters@[j].infallible()) by {
                        let m = if j < n {
                            j
                        } else {
                            j + 1
                        };
                        assert(iters@[j] == before[m]);
                        assert(before[m].wf());
                    }
                    assert(iters@.take(n) =~= before.take(n));
                    assert(iters@.skip(n) =~= before.skip(n + 1));
                }
            }
        }
        assert(iters@.skip(i as int) =~= Seq::empty());
        assert(iters@.take(i as int) + valid_of(iters@.skip(i as int)) =~= iters@);
    }

    /// Merges the iterators that have entries.
    pub fn create(iters: Vec<Box<I>>) -> (r: Self)
        requires
            all_wf(iters@),
        ensures
            r.inv(),
            r.iters@ == valid_of(iters@),
            r.rest() == merging::merge_all(rems(iters@)),
            merging::prefers_first(r.rest(), rems(iters@)),
            all_infallible(iters@) ==> all_infallible(r.iters@),
    {
        proof {
            lemma_rems_sorted(iters@);
            merging::lemma_merge_prefers_first(rems(iters@));
        }
        let mut heap: Vec<Box<I>> = iters;
        Self::drop_invalid(&mut heap);
        let top = Self::find_current(&heap);
        assert(heap@.len() == 0 ==> merging::merge_all(rems(heap@)) =~= Seq::empty());
        Self { iters: heap, current: top }
    }
}

/// The iterators that have entries.
pub open spec fn valid_of<I: StorageIterator>(iters: Seq<Box<I>>) -> Seq<Box<I>>
    decreases iters.len(),
{
    if iters.len() == 0 {
        Seq::empty()
    } else if iters[0].remaining().len() > 0 {
        seq![iters[0]] + valid_of(iters.drop_first())
    } else {
        valid_of(iters.drop_first())
    }
}

impl<I: 'static + for <'a>StorageIterator<KeyType<'a> = KeySlice<'a>>> StorageIterator for MergeIterator<
    I,
> {
    type KeyType<'a> = KeySlice<'a>;

    open spec fn wf(&self) -> bool {
        self.inv()
    }

    open spec fn remaining(&self) -> Seq<VEntry> {
        self.rest()
    }

    open spec fn readable(&self) -> bool {
        true
    }

    open spec fn infallible(&self) -> bool {
        all_infallible(self.iters@)
    }

    open spec fn stays_exhausted(&self) -> bool {
        true
    }

    open spec fn num_active(&self) -> nat {
        self.iters@.len()
    }

    proof fn lemma_wf(&self) {
        lemma_rems_sorted(self.iters@);
        merging::lemma_merge_all_sorted(rems(self.iters@));
    }

    fn key(&self) -> (r: KeySlice<'_>)
        ensures
            self.remaining().len() == 0 ==> r@ == (VKey { key: Seq::empty(), ts: TS_DEFAULT }),
    {
        proof {
            lemma_rems_sorted(self.iters@);
        }
        match self.current {
            Some(c) => {
                proof {
                    merging::lemma_merge_all_step(rems(self.iters@), c as int);
                    assert(self.iters@[c as int].wf());
                    assert(self.iters@[c as int].remaining().len() > 0);
                }
                self.iters[c].key()
            },
            None => {
                let r = KeySlice::from_slice(&[], TS_DEFAULT);
                assert(r@.key =~= Seq::empty());
                r
            },
        }
    }

    fn value(&self) -> (r: &[u8])
        ensures
            self.remaining().len() == 0 ==> r@.len() == 0,
    {
        proof {
            lemma_rems_sorted(self.iters@);
        }
        match self.current {
            Some(c) => {
                proof {
                    merging::lemma_merge_all_step(rems(self.iters@), c as int);
                    assert(self.iters@[c as int].wf());
                    assert(self.iters@[c as int].remaining().len() > 0);
                }
                self.iters[c].value()
            },
            None => &[],
        }
    }

    fn is_valid(&self) -> (r: bool) {
        match self.current {
            Some(c) => {
                proof {
                    lemma_rems_sorted(self.iters@);
                    merging::lemma_merge_all_step(rems(self.iters@), c as int);
                    assert(self.iters@[c as int].wf());
                    assert(self.iters@[c as int].remaining().len() > 0);
                }
                self.iters[c].is_valid()
            },
            None => false,
        }
    }

    /// In this function we do:
    /// 1. advance current and all iterators have the same key of current
    /// 2. drop all invalid iterators(that don't have more values)
    fn next(&mut self) -> (r: Result<(), LsmError>)
        ensures
            old(self).remaining().len() == 0 ==> r is Ok && *final(self) == *old(self),
    {
        let c: usize = match self.current {
            Some(c) => c,
            None => {
                return Ok(());
            },
        };
        let ghost before = self.iters@;
        let ghost seqs = rems(before);
        let ghost k = seqs[c as int][0].key;
        proof {
            lemma_rems_sorted(before);
            merging::lemma_merge_all_step(seqs, c as int);
            assert(before[c as int].wf());
            assert(before[c as int].remaining().len() > 0);
        }
        let key = self.iters[c].key().to_key_vec();
        let n: usize = self.iters.len();
        let mut i: usize = 0;
        while i < n
            invariant
                i <= n == self.iters@.len(),
                before.len() == n,
                seqs == rems(before),
                c < n,
                k == key@,
                all_wf(before),
                all_valid(before),
                all_wf(self.iters@),
                all_infallible(before) ==> all_infallible(self.iters@),
                forall|j: int|
                    0 <= j < before.len() && (#[trigger] before[j]).remaining().len() > 0
                        ==> before[j].readable(),
                forall|j: int|
                    0 <= j < i && j != c ==> (#[trigger] self.iters@[j]).remaining()
                        == merging::advance(seqs[j], k),
                forall|j: int|
                    0 <= j < n && (j >= i || j == c) ==> #[trigger] self.iters@[j] == before[j],
                all_infallible(before) == old(self).infallible(),
                old(self).remaining().len() > 0,
            decreases n - i,
        {
            if i != c {
                assert(self.iters@[i as int] == before[i as int]);
                assert(before[i as int].wf());
                assert(before[i as int].remaining().len() > 0);
                let ghost now = self.iters@;
                if self.iters[i].key().equals(key.as_key_slice()) {
                    match self.iters[i].next() {
                        Ok(()) => {},
                        Err(e) => {
                            let _ = self.iters.remove(i);
                            self.current = Some(
                                if i < c {
                                    c - 1
                                } else {
                                    c
                                },
                            );
                            return Err(e);
                        },
                    }
                    proof {
                        assert(self.iters@ =~= now.update(i as int, self.iters@[i as int]));
                        assert forall|j: int| 0 <= j < n implies (#[trigger] self.iters@[j]).wf() && (
                        all_infallible(before) ==> self.iters@[j].infallible()) by {
                            if j != i {
                                assert(self.iters@[j] == now[j]);
                                assert(now[j].wf());
                            } else {
                                assert(all_infallible(before) ==> now[i as int].infallible());
                            }
                        }
                    }
                }
            }
            i = i + 1;
        }
        let ghost now = self.iters@;
        assert(self.iters@[c as int] == before[c as int]);
        match self.iters[c].next() {
            Ok(()) => {},
            Err(e) => {
                let _ = self.iters.remove(c);
                self.current = None;
                return Err(e);
            },
        }
        proof {
            assert(self.iters@ =~= now.update(c as int, self.iters@[c as int]));
            assert forall|j: int| 0 <= j < n implies (#[trigger] self.iters@[j]).wf() && (
            all_infallible(before) ==> self.iters@[j].infallible()) by {
                if j != c {
                    assert(self.iters@[j] == now[j]);
                    assert(now[j].wf());
                } else {
                    assert(all_infallible(before) ==> now[c as int].infallible());
                }
            }
            assert(rems(self.iters@) =~= merging::advance_all(seqs, k)) by {
                assert forall|j: int| 0 <= j < n implies rems(self.iters@)[j]
                    == merging::advance_all(seqs, k)[j] by {
                    if j != c {
                        assert(self.iters@[j] == now[j]);
                    }
                }
            }
        }
        Self::drop_invalid(&mut self.iters);
        self.current = Self::find_current(&self.iters);
        proof {
            if self.iters@.len() == 0 {
                assert(merging::merge_all(rems(self.iters@)) =~= Seq::empty());
            }
        }
        Ok(())
    }

    fn num_active_iterators(&self) -> (r: usize) {
        self.iters.len()
    }
}

} // verus!
