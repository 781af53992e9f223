//! Iterators over sorted key-value pairs.
pub mod concat_iterator;
pub mod merge_iterator;
pub mod merging;
pub mod two_merge_iterator;

use vstd::prelude::*;

use crate::error::LsmError;
use crate::key;
use crate::key::{StorageKey, VEntry};

verus! {

/// A cursor over key-value pairs in strictly ascending key order.
pub trait StorageIterator {
    type KeyType<'a>: StorageKey where Self: 'a;

    /// The iterator is in a state that its methods accept.
    spec fn wf(&self) -> bool;

    /// The entries from the current one on.
    spec fn remaining(&self) -> Seq<VEntry>;

    /// There is something that `key` and `value` can return.
    spec fn readable(&self) -> bool;

    /// Advancing never fails.
    spec fn infallible(&self) -> bool;

    /// Advancing behind the last entry does not bring entries back.
    spec fn stays_exhausted(&self) -> bool;

    /// The number of underlying active iterators.
    spec fn num_active(&self) -> nat;

    /// The remaining entries are sorted, and a current entry can be read.
    proof fn lemma_wf(&self)
        requires
            self.wf(),
        ensures
            key::sorted(self.remaining()),
            self.remaining().len() > 0 ==> self.readable(),
    ;

    /// Get the current value.
    fn value(&self) -> (r: &[u8])
        requires
            self.wf(),
            self.readable(),
        ensures
            self.remaining().len() > 0 ==> r@ == self.remaining()[0].value,
    ;

    /// Get the current key.
    fn key(&self) -> (r: Self::KeyType<'_>)
        requires
            self.wf(),
            self.readable(),
        ensures
            self.remaining().len() > 0 ==> r.model() == self.remaining()[0].key,
    ;

    /// Check if the current iterator is valid.
    fn is_valid(&self) -> (r: bool)
        requires
            self.wf(),
        ensures
            r == (self.remaining().len() > 0),
    ;

    /// Move to the next position.
    fn next(&mut self) -> (r: Result<(), LsmError>)
        requires
            old(self).wf(),
        ensures
            old(self).infallible() ==> r is Ok && final(self).infallible(),
            r is Ok ==> final(self).wf(),
            r is Ok && old(self).stays_exhausted() ==> final(self).stays_exhausted() && (old(
                self,
            ).remaining().len() == 0 ==> final(self).remaining().len() == 0),
            r is Ok && old(self).remaining().len() > 0 ==> final(self).remaining() == old(
                self,
            ).remaining().drop_first(),
    ;

    /// Number of underlying active iterators for this iterator.
    fn num_active_iterators(&self) -> (r: usize)
        requires
            self.num_active() <= usize::MAX,
        ensures
            r == self.num_active(),
    ;
}

} // verus!
