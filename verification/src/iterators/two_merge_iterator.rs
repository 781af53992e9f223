//! Merging two iterators.
use vstd::prelude::*;

use crate::error::LsmError;
use crate::iterators::merging;
use crate::iterators::StorageIterator;
use crate::key;
use crate::key::{Order, StorageKey, VEntry};

verus! {

/// Which of two iterators has the next key.
#[derive(Clone, Copy, Debug, PartialEq, Eq, Structural)]
pub enum CompareState {
    ALess,
    BLess,
    Equal,
}

/// Merges two iterators of different types into one. If the two iterators have the same key, only
/// produce the key once and prefer the entry from A.
pub struct TwoMergeIterator<A: StorageIterator, B: StorageIterator> {
    pub a: A,
    pub b: B,
    pub compare_state: CompareState,
}

/// Which of two sequences has the next key.
pub open spec fn state_of(a: Seq<VEntry>, b: Seq<VEntry>) -> CompareState {
    if a.len() == 0 {
        CompareState::BLess
    } else if b.len() == 0 {
        CompareState::ALess
    } else if a[0].key == b[0].key {
        CompareState::Equal
    } else if key::key_lt(a[0].key, b[0].key) {
        CompareState::ALess
    } else {
        CompareState::BLess
    }
}

/// Merging two iterators goes through all keys that they still have, each once and in ascending
/// order. Where both have a key, the entry of the first one counts.
pub proof fn lemma_prefers_first<A: StorageIterator, B: StorageIterator>(a: &A, b: &B)
    requires
        a.wf(),
        b.wf(),
    ensures
        merging::prefers_first(
            merging::merge2(a.remaining(), b.remaining()),
            seq![a.remaining(), b.remaining()],
        ),
{
    a.lemma_wf();
    b.lemma_wf();
    merging::lemma_merge2_prefers_first(a.remaining(), b.remaining());
}

impl<
    A: 'static + StorageIterator,
    B: 'static + for <'a>StorageIterator<KeyType<'a> = A::KeyType<'a>>,
> TwoMergeIterator<A, B> {
    /// Which iterator has the next key.
    pub fn get_compare_state(a: &A, b: &B) -> (r: CompareState)
        requires
            a.wf(),
            b.wf(),
        ensures
            r == state_of(a.remaining(), b.remaining()),
    {
        proof {
            a.lemma_wf();
            b.lemma_wf();
        }
        if !a.is_valid() {
            CompareState::BLess
        } else if !b.is_valid() {
            CompareState::ALess
        } else {
            let key_a = a.key();
            let key_b = b.key();
            proof {
                key::lemma_key_lt_irreflexive(key_a.model());
            }
            match key_a.compare_to(&key_b) {
                Order::Equal => CompareState::Equal,
                Order::Less => CompareState::ALess,
                Order::Greater => {
                    proof {
                        if key::key_lt(key_a.model(), key_b.model()) {
                            key::lemma_key_lt_transitive(
                                key_a.model(),
                                key_b.model(),
                                key_a.model(),
                            );
                        }
                    }
                    CompareState::BLess
                },
            }
        }
    }

    pub fn create(a: A, b: B) -> (r: Result<Self, LsmError>)
        requires
            a.wf(),
            b.wf(),
        ensures
            r matches Ok(m) && m.a == a && m.b == b && m.wf() && m.remaining() == merging::merge2(
                a.remaining(),
                b.remaining(),
            ) && merging::prefers_first(m.remaining(), seq![a.remaining(), b.remaining()]),
    {
        proof {
            lemma_prefers_first(&a, &b);
        }
        let compare_state = Self::get_compare_state(&a, &b);
        Ok(Self { a, b, compare_state })
    }
}

impl<
    A: 'static + StorageIterator,
    B: 'static + for <'a>StorageIterator<KeyType<'a> = A::KeyType<'a>>,
> StorageIterator for TwoMergeIterator<A, B> {
    type KeyType<'a> = A::KeyType<'a>;

    open spec fn wf(&self) -> bool {
        &&& self.a.wf()
        &&& self.b.wf()
        &&& self.compare_state == state_of(self.a.remaining(), self.b.remaining())
    }

    open spec fn remaining(&self) -> Seq<VEntry> {
        merging::merge2(self.a.remaining(), self.b.remaining())
    }

    open spec fn readable(&self) -> bool {
        match self.compare_state {
            CompareState::ALess | CompareState::Equal => self.a.readable(),
            CompareState::BLess => self.b.readable(),
        }
    }

    open spec fn infallible(&self) -> bool {
        self.a.infallible() && self.b.infallible()
    }

    open spec fn stays_exhausted(&self) -> bool {
        self.a.stays_exhausted() && self.b.stays_exhausted()
    }

    open spec fn num_active(&self) -> nat {
        self.a.num_active() + self.b.num_active()
    }

    proof fn lemma_wf(&self) {
        self.a.lemma_wf();
        self.b.lemma_wf();
        merging::lemma_merge2_sorted(self.a.remaining(), self.b.remaining());
    }

    fn key(&self) -> (r: Self::KeyType<'_>) {
        proof {
            lemma_state(self.a.remaining(), self.b.remaining());
        }
        match self.compare_state {
            CompareState::ALess | CompareState::Equal => self.a.key(),
            CompareState::BLess => self.b.key(),
        }
    }

    fn value(&self) -> (r: &[u8]) {
        proof {
            lemma_state(self.a.remaining(), self.b.remaining());
        }
        match self.compare_state {
            CompareState::ALess | CompareState::Equal => self.a.value(),
            CompareState::BLess => self.b.value(),
        }
    }

    fn is_valid(&self) -> (r: bool) {
        self.a.is_valid() || self.b.is_valid()
    }

    fn next(&mut self) -> (r: Result<(), LsmError>) {
        proof {
            lemma_state(self.a.remaining(), self.b.remaining());
        }
        match self.compare_state {
            CompareState::ALess => {
                match self.a.next() {
                    Ok(()) => {},
                    Err(e) => {
                        return Err(e);
                    },
                }
            },
            CompareState::BLess => {
                match self.b.next() {
                    Ok(()) => {},
                    Err(e) => {
                        return Err(e);
                    },
                }
            },
            CompareState::Equal => {
                match self.a.next() {
                    Ok(()) => {},
                    Err(e) => {
                        return Err(e);
                    },
                }
                match self.b.next() {
                    Ok(()) => {},
                    Err(e) => {
                        return Err(e);
                    },
                }
            },
        }
        self.compare_state = Self::get_compare_state(&self.a, &self.b);
        Ok(())
    }

    fn num_active_iterators(&self) -> (r: usize) {
        self.a.num_active_iterators() + self.b.num_active_iterators()
    }
}

/// The state says where the first entry of the merge comes from and what is left behind it.
proof fn lemma_state(a: Seq<VEntry>, b: Seq<VEntry>)
    ensures
        match state_of(a, b) {
            CompareState::ALess => a.len() > 0 && merging::merge2(a, b)[0] == a[0]
                && merging::merge2(a, b).drop_first() == merging::merge2(a.drop_first(), b),
            CompareState::BLess => b.len() > 0 ==> merging::merge2(a, b)[0] == b[0]
                && merging::merge2(a, b).drop_first() == merging::merge2(a, b.drop_first()),
            CompareState::Equal => a.len() > 0 && b.len() > 0 && merging::merge2(a, b)[0] == a[0]
                && merging::merge2(a, b).drop_first() == merging::merge2(
                a.drop_first(),
                b.drop_first(),
            ),
        },
        merging::merge2(a, b).len() > 0 <==> a.len() > 0 || b.len() > 0,
{
    let m = merging::merge2(a, b);
    if a.len() == 0 {
        if b.len() > 0 {
            assert(m.drop_first() =~= merging::merge2(a, b.drop_first()));
        }
    } else if b.len() == 0 {
        merging::lemma_merge2_empty(a.drop_first());
        assert(b =~= Seq::empty());
        assert(m.drop_first() =~= merging::merge2(a.drop_first(), b));
    } else {
        key::lemma_key_total(a[0].key, b[0].key);
        key::lemma_key_lt_irreflexive(a[0].key);
        match state_of(a, b) {
            CompareState::ALess => {
                assert(m.drop_first() =~= merging::merge2(a.drop_first(), b));
            },
            CompareState::BLess => {
                assert(m.drop_first() =~= merging::merge2(a, b.drop_first()));
            },
            CompareState::Equal => {
                assert(m.drop_first() =~= merging::merge2(a.drop_first(), b.drop_first()));
            },
        }
    }
}

} // verus!
