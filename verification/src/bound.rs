//! Ends of key ranges.
use vstd::prelude::*;

use crate::codec::copy_slice;
use crate::key;
use crate::key::{compare_bytes, KeySlice, Order, VKey};

verus! {

/// One end of a range of keys.
#[derive(Debug)]
pub enum Bound<T> {
    Included(T),
    Excluded(T),
    Unbounded,
}

impl<T: Copy> Copy for Bound<T> {

}

impl<T: Copy> Clone for Bound<T> {
    fn clone(&self) -> (r: Self)
        ensures
            r == *self,
    {
        *self
    }
}

/// `k` is on the inner side of the lower end of a range.
pub open spec fn above(lower: Bound<Seq<u8>>, k: Seq<u8>) -> bool {
    match lower {
        Bound::Included(l) => key::bytes_le(l, k),
        Bound::Excluded(l) => key::bytes_lt(l, k),
        Bound::Unbounded => true,
    }
}

/// `k` is on the inner side of the upper end of a range.
pub open spec fn below(upper: Bound<Seq<u8>>, k: Seq<u8>) -> bool {
    match upper {
        Bound::Included(u) => key::bytes_le(k, u),
        Bound::Excluded(u) => key::bytes_lt(k, u),
        Bound::Unbounded => true,
    }
}

/// `k` is on the inner side of the lower end of a range of versioned keys.
pub open spec fn key_above(lower: Bound<VKey>, k: VKey) -> bool {
    match lower {
        Bound::Included(l) => key::key_le(l, k),
        Bound::Excluded(l) => key::key_lt(l, k),
        Bound::Unbounded => true,
    }
}

/// `k` is on the inner side of the upper end of a range of versioned keys.
pub open spec fn key_below(upper: Bound<VKey>, k: VKey) -> bool {
    match upper {
        Bound::Included(u) => key::key_le(k, u),
        Bound::Excluded(u) => key::key_lt(k, u),
        Bound::Unbounded => true,
    }
}

impl<'a> Bound<&'a [u8]> {
    pub open spec fn bytes(&self) -> Bound<Seq<u8>> {
        match *self {
            Bound::Included(k) => Bound::Included(k@),
            Bound::Excluded(k) => Bound::Excluded(k@),
            Bound::Unbounded => Bound::Unbounded,
        }
    }

    /// An owned copy.
    pub fn to_owned_bound(&self) -> (r: Bound<Vec<u8>>)
        ensures
            r.bytes() == self.bytes(),
    {
        match *self {
            Bound::Included(k) => Bound::Included(copy_slice(k)),
            Bound::Excluded(k) => Bound::Excluded(copy_slice(k)),
            Bound::Unbounded => Bound::Unbounded,
        }
    }

    /// The same end for the versions of user keys, at the given timestamp.
    pub fn at_ts(&self, ts: u64) -> (r: Bound<KeySlice<'a>>)
        ensures
            r.keys() == key_bound(self.bytes(), ts),
    {
        match *self {
            Bound::Included(k) => Bound::Included(KeySlice::from_slice(k, ts)),
            Bound::Excluded(k) => Bound::Excluded(KeySlice::from_slice(k, ts)),
            Bound::Unbounded => Bound::Unbounded,
        }
    }

    /// Whether `k` is on the inner side of this lower end.
    pub fn admits_from_below(&self, k: &[u8]) -> (r: bool)
        ensures
            r == above(self.bytes(), k@),
    {
        match *self {
            Bound::Included(l) => {
                proof {
                    lemma_le_or_gt(l@, k@);
                }
                match compare_bytes(l, k) {
                    Order::Greater => false,
                    _ => true,
                }
            },
            Bound::Excluded(l) => match compare_bytes(l, k) {
                Order::Less => true,
                _ => false,
            },
            Bound::Unbounded => true,
        }
    }

    /// Whether `k` is on the inner side of this upper end.
    pub fn admits_from_above(&self, k: &[u8]) -> (r: bool)
        ensures
            r == below(self.bytes(), k@),
    {
        match *self {
            Bound::Included(u) => {
                proof {
                    lemma_le_or_gt(k@, u@);
                }
                match compare_bytes(k, u) {
                    Order::Greater => false,
                    _ => true,
                }
            },
            Bound::Excluded(u) => match compare_bytes(k, u) {
                Order::Less => true,
                _ => false,
            },
            Bound::Unbounded => true,
        }
    }
}

impl Bound<Vec<u8>> {
    pub open spec fn bytes(&self) -> Bound<Seq<u8>> {
        match *self {
            Bound::Included(k) => Bound::Included(k@),
            Bound::Excluded(k) => Bound::Excluded(k@),
            Bound::Unbounded => Bound::Unbounded,
        }
    }

    pub fn as_slice_bound(&self) -> (r: Bound<&[u8]>)
        ensures
            r.bytes() == self.bytes(),
    {
        match self {
            Bound::Included(k) => Bound::Included(k.as_slice()),
            Bound::Excluded(k) => Bound::Excluded(k.as_slice()),
            Bound::Unbounded => Bound::Unbounded,
        }
    }
}

impl<'a> Bound<KeySlice<'a>> {
    pub open spec fn keys(&self) -> Bound<VKey> {
        match *self {
            Bound::Included(k) => Bound::Included(k@),
            Bound::Excluded(k) => Bound::Excluded(k@),
            Bound::Unbounded => Bound::Unbounded,
        }
    }

    /// The end for the user keys alone.
    pub fn key_refs(&self) -> (r: Bound<&'a [u8]>)
        ensures
            r.bytes() == byte_bound(self.keys()),
    {
        match *self {
            Bound::Included(k) => Bound::Included(k.key_ref()),
            Bound::Excluded(k) => Bound::Excluded(k.key_ref()),
            Bound::Unbounded => Bound::Unbounded,
        }
    }
}

/// The end of a range of user keys as an end of a range of versioned keys.
pub open spec fn key_bound(b: Bound<Seq<u8>>, ts: u64) -> Bound<VKey> {
    match b {
        Bound::Included(k) => Bound::Included(VKey { key: k, ts }),
        Bound::Excluded(k) => Bound::Excluded(VKey { key: k, ts }),
        Bound::Unbounded => Bound::Unbounded,
    }
}

/// The end of a range of versioned keys as an end of a range of user keys.
pub open spec fn byte_bound(b: Bound<VKey>) -> Bound<Seq<u8>> {
    match b {
        Bound::Included(k) => Bound::Included(k.key),
        Bound::Excluded(k) => Bound::Excluded(k.key),
        Bound::Unbounded => Bound::Unbounded,
    }
}

proof fn lemma_le_or_gt(a: Seq<u8>, b: Seq<u8>)
    ensures
        key::bytes_le(a, b) == !key::bytes_lt(b, a),
{
    key::lemma_bytes_total(a, b);
    key::lemma_bytes_lt_irreflexive(a);
    if key::bytes_lt(a, b) && key::bytes_lt(b, a) {
        key::lemma_bytes_lt_transitive(a, b, a);
    }
}

} // verus!
