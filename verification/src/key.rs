//! Versioned keys: user key bytes together with a commit timestamp.
//!
//! Keys are ordered by their bytes first. Versions of one user key are ordered from the newest
//! timestamp to the oldest.
use vstd::prelude::*;

use crate::codec;
use crate::codec::{copy_slice, get_u64_be, put_slice, put_u64_be, same_bytes};

verus! {

/// Timestamp of keys that carry no version.
pub const TS_DEFAULT: u64 = 0;

/// The timestamp of the first version of a user key in key order.
pub const TS_RANGE_BEGIN: u64 = u64::MAX;

/// The timestamp of the last version of a user key in key order.
pub const TS_RANGE_END: u64 = 0;

/// Encoded size of a timestamp.
pub const TS_SIZE: usize = 8;

/// The value of a key: its bytes and its timestamp.
#[verifier::ext_equal]
pub struct VKey {
    pub key: Seq<u8>,
    pub ts: u64,
}

/// The value of a key-value pair.
#[verifier::ext_equal]
pub struct VEntry {
    pub key: VKey,
    pub value: Seq<u8>,
}

/// The result of comparing two keys.
#[derive(Clone, Copy, Debug, PartialEq, Eq, Structural)]
pub enum Order {
    Less,
    Equal,
    Greater,
}

/// Lexicographic order on byte strings.
pub open spec fn bytes_lt(a: Seq<u8>, b: Seq<u8>) -> bool
    decreases a.len(),
{
    if b.len() == 0 {
        false
    } else if a.len() == 0 {
        true
    } else if a[0] != b[0] {
        a[0] < b[0]
    } else {
        bytes_lt(a.drop_first(), b.drop_first())
    }
}

/// `a` is `b` or stands before it.
pub open spec fn bytes_le(a: Seq<u8>, b: Seq<u8>) -> bool {
    a == b || bytes_lt(a, b)
}

/// Order on keys: by bytes, then from the newest version to the oldest.
pub open spec fn key_lt(a: VKey, b: VKey) -> bool {
    bytes_lt(a.key, b.key) || (a.key == b.key && a.ts > b.ts)
}

/// `a` is `b` or stands before it.
pub open spec fn key_le(a: VKey, b: VKey) -> bool {
    a == b || key_lt(a, b)
}

pub broadcast proof fn lemma_bytes_lt_irreflexive(a: Seq<u8>)
    ensures
        !(#[trigger] bytes_lt(a, a)),
    decreases a.len(),
{
    if a.len() > 0 {
        lemma_bytes_lt_irreflexive(a.drop_first());
    }
}

pub broadcast proof fn lemma_bytes_lt_transitive(a: Seq<u8>, b: Seq<u8>, c: Seq<u8>)
    requires
        #[trigger] bytes_lt(a, b),
        #[trigger] bytes_lt(b, c),
    ensures
        bytes_lt(a, c),
    decreases a.len(),
{
    if a.len() > 0 && b.len() > 0 && c.len() > 0 && a[0] == b[0] && b[0] == c[0] {
        lemma_bytes_lt_transitive(a.drop_first(), b.drop_first(), c.drop_first());
    }
}

/// Any two byte strings are equal or one stands before the other.
pub proof fn lemma_bytes_total(a: Seq<u8>, b: Seq<u8>)
    ensures
        a == b || bytes_lt(a, b) || bytes_lt(b, a),
    decreases a.len(),
{
    if a.len() > 0 && b.len() > 0 && a[0] == b[0] {
        lemma_bytes_total(a.drop_first(), b.drop_first());
        if a.drop_first() == b.drop_first() {
            assert(a =~= seq![a[0]] + a.drop_first());
            assert(b =~= seq![b[0]] + b.drop_first());
        }
    } else if a.len() == 0 && b.len() == 0 {
        assert(a =~= b);
    }
}

/// One byte string stands before another exactly where, behind what both begin with, it ends and the
/// other goes on, or its next byte is the smaller one.
pub proof fn lemma_bytes_order(a: Seq<u8>, b: Seq<u8>)
    ensures
        bytes_lt(a, b) <==> exists|n: int|
            0 <= n <= a.len() && n < b.len() && #[trigger] a.take(n) == b.take(n) && (n == a.len()
                || a[n] < b[n]),
    decreases a.len(),
{
    if a.len() > 0 && b.len() > 0 && a[0] == b[0] {
        let x = a.drop_first();
        let y = b.drop_first();
        lemma_bytes_order(x, y);
        if bytes_lt(a, b) {
            let n = choose|n: int|
                0 <= n <= x.len() && n < y.len() && #[trigger] x.take(n) == y.take(n) && (n
                    == x.len() || x[n] < y[n]);
            assert forall|i: int| 0 <= i < n + 1 implies #[trigger] a.take(n + 1)[i] == b.take(
                n + 1,
            )[i] by {
                if i > 0 {
                    assert(x.take(n)[i - 1] == y.take(n)[i - 1]);
                }
            }
            assert(a.take(n + 1) =~= b.take(n + 1));
        }
        if exists|n: int|
            0 <= n <= a.len() && n < b.len() && #[trigger] a.take(n) == b.take(n) && (n == a.len()
                || a[n] < b[n]) {
            let n = choose|n: int|
                0 <= n <= a.len() && n < b.len() && #[trigger] a.take(n) == b.take(n) && (n
                    == a.len() || a[n] < b[n]);
            assert forall|i: int| 0 <= i < n - 1 implies #[trigger] x.take(n - 1)[i] == y.take(
                n - 1,
            )[i] by {
                assert(a.take(n)[i + 1] == b.take(n)[i + 1]);
            }
            assert(x.take(n - 1) =~= y.take(n - 1));
        }
    } else if b.len() > 0 {
        if bytes_lt(a, b) {
            assert(a.take(0) =~= b.take(0));
        }
        if exists|n: int|
            0 <= n <= a.len() && n < b.len() && #[trigger] a.take(n) == b.take(n) && (n == a.len()
                || a[n] < b[n]) {
            let n = choose|n: int|
                0 <= n <= a.len() && n < b.len() && #[trigger] a.take(n) == b.take(n) && (n
                    == a.len() || a[n] < b[n]);
            if n > 0 {
                assert(a.take(n)[0] == b.take(n)[0]);
            }
        }
    }
}

/// Versions of one user key stand from the newest to the oldest; those of different ones stand as
/// the user keys do.
pub proof fn lemma_newest_first(a: VKey, b: VKey)
    ensures
        a.key == b.key ==> (key_lt(a, b) <==> a.ts > b.ts),
        a.key != b.key ==> (key_lt(a, b) <==> bytes_lt(a.key, b.key)),
{
    lemma_bytes_lt_irreflexive(a.key);
}

/// The empty byte string stands before every other.
pub proof fn lemma_empty_first(a: Seq<u8>, b: Seq<u8>)
    requires
        a.len() == 0,
    ensures
        bytes_le(a, b),
        !bytes_lt(b, a),
        b.len() > 0 ==> bytes_lt(a, b),
{
    if b.len() == 0 {
        assert(a =~= b);
    }
}

pub broadcast proof fn lemma_key_lt_irreflexive(a: VKey)
    ensures
        !(#[trigger] key_lt(a, a)),
{
    lemma_bytes_lt_irreflexive(a.key);
}

pub broadcast proof fn lemma_key_lt_transitive(a: VKey, b: VKey, c: VKey)
    requires
        #[trigger] key_lt(a, b),
        #[trigger] key_lt(b, c),
    ensures
        key_lt(a, c),
{
    if bytes_lt(a.key, b.key) && bytes_lt(b.key, c.key) {
        lemma_bytes_lt_transitive(a.key, b.key, c.key);
    }
}

/// Any two keys are equal or one stands before the other.
pub proof fn lemma_key_total(a: VKey, b: VKey)
    ensures
        a == b || key_lt(a, b) || key_lt(b, a),
{
    lemma_bytes_total(a.key, b.key);
    if a.key == b.key && a.ts == b.ts {
        assert(a =~= b);
    }
}

/// Order of keys is a strict order.
pub broadcast group group_key_order {
    lemma_bytes_lt_irreflexive,
    lemma_bytes_lt_transitive,
    lemma_key_lt_irreflexive,
    lemma_key_lt_transitive,
}

/// Entries in strictly ascending key order.
pub open spec fn sorted(s: Seq<VEntry>) -> bool {
    forall|i: int, j: int|
        #![trigger s[i], s[j]]
        0 <= i < j < s.len() ==> key_lt(s[i].key, s[j].key)
}

/// Entries of which each is before the next are sorted.
pub proof fn lemma_sorted_by_steps(s: Seq<VEntry>)
    requires
        forall|i: int| 0 <= i < s.len() - 1 ==> key_lt((#[trigger] s[i]).key, s[i + 1].key),
    ensures
        sorted(s),
    decreases s.len(),
{
    if s.len() > 1 {
        let front = s.drop_last();
        assert forall|i: int| 0 <= i < front.len() - 1 implies key_lt(
            (#[trigger] front[i]).key,
            front[i + 1].key,
        ) by {
            assert(front[i] == s[i]);
        }
        lemma_sorted_by_steps(front);
        let n = s.len() as int;
        assert forall|i: int, j: int| #![trigger s[i], s[j]] 0 <= i < j < s.len() implies key_lt(
            s[i].key,
            s[j].key,
        ) by {
            if j < n - 1 {
                assert(key_lt(front[i].key, front[j].key));
            } else {
                assert(key_lt(s[n - 2].key, s[n - 1].key));
                if i < n - 2 {
                    assert(key_lt(front[i].key, front[n - 2].key));
                    lemma_key_lt_transitive(s[i].key, s[n - 2].key, s[n - 1].key);
                }
            }
        }
    }
}

/// The index of the first entry whose key is not before `k`, or the number of entries where all
/// keys are before it.
pub open spec fn seek_index(s: Seq<VEntry>, k: VKey) -> int
    decreases s.len(),
{
    if s.len() == 0 || !key_lt(s[0].key, k) {
        0
    } else {
        1 + seek_index(s.drop_first(), k)
    }
}

/// `s` is what is left of `all` after some number of entries.
pub open spec fn is_suffix(s: Seq<VEntry>, all: Seq<VEntry>) -> bool {
    s.len() <= all.len() && s == all.skip(all.len() - s.len())
}

/// The entries before the index found by a seek are before the key; the entry at it is not.
pub proof fn lemma_seek_index(s: Seq<VEntry>, k: VKey)
    ensures
        0 <= seek_index(s, k) <= s.len(),
        forall|i: int| 0 <= i < seek_index(s, k) ==> key_lt((#[trigger] s[i]).key, k),
        seek_index(s, k) < s.len() ==> !key_lt(s[seek_index(s, k)].key, k),
    decreases s.len(),
{
    if s.len() > 0 && key_lt(s[0].key, k) {
        let rest = s.drop_first();
        lemma_seek_index(rest, k);
        assert forall|i: int| 0 <= i < seek_index(s, k) implies key_lt(
            (#[trigger] s[i]).key,
            k,
        ) by {
            if i > 0 {
                assert(rest[i - 1] == s[i]);
            }
        }
    }
}

/// Compares two byte strings lexicographically.
pub fn compare_bytes(a: &[u8], b: &[u8]) -> (r: Order)
    ensures
        r == Order::Less <==> bytes_lt(a@, b@),
        r == Order::Equal <==> a@ == b@,
        r == Order::Greater <==> bytes_lt(b@, a@),
{
    let mut i: usize = 0;
    let a_len: usize = a.len();
    let b_len: usize = b.len();
    proof {
        assert(a@.skip(0) =~= a@);
        assert(b@.skip(0) =~= b@);
    }
    while i < a_len && i < b_len && a[i] == b[i]
        invariant
            a_len == a@.len(),
            b_len == b@.len(),
            i <= a_len,
            i <= b_len,
            forall|j: int| 0 <= j < i ==> a@[j] == b@[j],
            bytes_lt(a@, b@) == bytes_lt(a@.skip(i as int), b@.skip(i as int)),
            bytes_lt(b@, a@) == bytes_lt(b@.skip(i as int), a@.skip(i as int)),
        decreases a_len - i,
    {
        proof {
            assert(a@.skip(i as int).drop_first() =~= a@.skip(i + 1));
            assert(b@.skip(i as int).drop_first() =~= b@.skip(i + 1));
        }
        i = i + 1;
    }
    proof {
        lemma_bytes_lt_irreflexive(a@);
    }
    if i == a_len && i == b_len {
        assert(a@ =~= b@);
        Order::Equal
    } else if i == a_len {
        Order::Less
    } else if i == b_len {
        Order::Greater
    } else if a[i] < b[i] {
        Order::Less
    } else {
        Order::Greater
    }
}

/// Whether `a` stands before `b`.
pub fn bytes_less(a: &[u8], b: &[u8]) -> (r: bool)
    ensures
        r == bytes_lt(a@, b@),
{
    match compare_bytes(a, b) {
        Order::Less => true,
        _ => false,
    }
}

/// What an iterator hands out as a key: something with a place in the key order.
pub trait StorageKey: Sized {
    /// The key's value.
    spec fn model(&self) -> VKey;

    fn compare_to(&self, other: &Self) -> (r: Order)
        ensures
            r == Order::Less <==> key_lt(self.model(), other.model()),
            r == Order::Equal <==> self.model() == other.model(),
            r == Order::Greater <==> key_lt(other.model(), self.model()),
    ;
}

/// A user key without a version: it counts as the version at the default timestamp.
impl<'a> StorageKey for &'a [u8] {
    open spec fn model(&self) -> VKey {
        VKey { key: (*self)@, ts: TS_DEFAULT }
    }

    fn compare_to(&self, other: &Self) -> (r: Order) {
        proof {
            lemma_key_lt_irreflexive(self.model());
        }
        compare_bytes(*self, *other)
    }
}

/// A borrowed key.
#[derive(Clone, Copy, Debug)]
pub struct KeySlice<'a> {
    pub key: &'a [u8],
    pub ts: u64,
}

impl<'a> View for KeySlice<'a> {
    type V = VKey;

    open spec fn view(&self) -> VKey {
        VKey { key: self.key@, ts: self.ts }
    }
}

impl<'a> StorageKey for KeySlice<'a> {
    open spec fn model(&self) -> VKey {
        self@
    }

    fn compare_to(&self, other: &Self) -> (r: Order) {
        proof {
            lemma_key_lt_irreflexive(self@);
            lemma_bytes_lt_irreflexive(self@.key);
            if bytes_lt(self@.key, other@.key) && bytes_lt(other@.key, self@.key) {
                lemma_bytes_lt_transitive(self@.key, other@.key, self@.key);
            }
        }
        match compare_bytes(self.key, other.key) {
            Order::Less => Order::Less,
            Order::Greater => Order::Greater,
            Order::Equal => {
                if self.ts > other.ts {
                    Order::Less
                } else if self.ts == other.ts {
                    assert(self@ =~= other@);
                    Order::Equal
                } else {
                    Order::Greater
                }
            },
        }
    }
}

impl<'a> KeySlice<'a> {
    pub fn from_slice(key: &'a [u8], ts: u64) -> (r: KeySlice<'a>)
        ensures
            r@ == (VKey { key: key@, ts }),
    {
        KeySlice { key, ts }
    }

    pub fn key_ref(&self) -> (r: &'a [u8])
        ensures
            r@ == self@.key,
    {
        self.key
    }

    /// The bytes of the key, without the timestamp.
    pub fn raw_ref(&self) -> (r: &'a [u8])
        ensures
            r@ == self@.key,
    {
        self.key
    }

    pub fn ts(&self) -> (r: u64)
        ensures
            r == self@.ts,
    {
        self.ts
    }

    pub fn key_len(&self) -> (r: usize)
        ensures
            r == self@.key.len(),
    {
        self.key.len()
    }

    pub fn is_empty(&self) -> (r: bool)
        ensures
            r == (self@.key.len() == 0),
    {
        self.key.len() == 0
    }

    /// Whether `self` stands before `other`.
    pub fn less_than(&self, other: KeySlice) -> (r: bool)
        ensures
            r == key_lt(self@, other@),
    {
        match compare_bytes(self.key, other.key) {
            Order::Less => true,
            Order::Greater => {
                proof {
                    lemma_bytes_lt_irreflexive(self@.key);
                    if bytes_lt(self@.key, other@.key) {
                        lemma_bytes_lt_transitive(self@.key, other@.key, self@.key);
                    }
                }
                false
            },
            Order::Equal => {
                proof {
                    lemma_bytes_lt_irreflexive(self@.key);
                }
                self.ts > other.ts
            },
        }
    }

    /// Whether `self` and `other` are the same key.
    pub fn equals(&self, other: KeySlice) -> (r: bool)
        ensures
            r == (self@ == other@),
    {
        let r = self.ts == other.ts && same_bytes(self.key, other.key);
        assert(r ==> self@ =~= other@);
        r
    }

    /// An owned copy.
    pub fn to_key_vec(&self) -> (r: KeyVec)
        ensures
            r@ == self@,
    {
        KeyVec { key: copy_slice(self.key), ts: self.ts }
    }
}

/// An owned key.
#[derive(Debug)]
pub struct KeyVec {
    pub key: Vec<u8>,
    pub ts: u64,
}

/// An owned key as it stands in table metadata and in mem-tables.
pub type KeyBytes = KeyVec;

impl View for KeyVec {
    type V = VKey;

    open spec fn view(&self) -> VKey {
        VKey { key: self.key@, ts: self.ts }
    }
}

/// The key whose stored form is `raw`: the key bytes followed by the big-endian timestamp.
/// Bytes that are too few for a timestamp are a key with the default one.
pub open spec fn key_of_raw(raw: Seq<u8>) -> VKey {
    if raw.len() < 8 {
        VKey { key: raw, ts: TS_DEFAULT }
    } else {
        VKey {
            key: raw.take(raw.len() - 8),
            ts: codec::from_be(raw.skip(raw.len() - 8)) as u64,
        }
    }
}

/// The stored form of a key: its bytes followed by the big-endian timestamp.
pub open spec fn raw_of_key(k: VKey) -> Seq<u8> {
    k.key + codec::be(k.ts as nat, 8)
}

/// Reading back a stored key gives the key.
pub proof fn lemma_raw_key_round_trip(k: VKey)
    ensures
        key_of_raw(raw_of_key(k)) == k,
        raw_of_key(k).len() == k.key.len() + 8,
{
    codec::lemma_from_be_of_be(k.ts);
    let raw = raw_of_key(k);
    assert(raw.take(raw.len() - 8) =~= k.key);
    assert(raw.skip(raw.len() - 8) =~= codec::be(k.ts as nat, 8));
    assert(key_of_raw(raw) =~= k);
}

impl KeyVec {
    /// The empty key.
    pub fn new() -> (r: KeyVec)
        ensures
            r@ == (VKey { key: Seq::empty(), ts: TS_DEFAULT }),
    {
        let r = KeyVec { key: Vec::new(), ts: TS_DEFAULT };
        assert(r@ =~= VKey { key: Seq::empty(), ts: TS_DEFAULT });
        r
    }

    pub fn from_bytes_with_ts(key: Vec<u8>, ts: u64) -> (r: KeyVec)
        ensures
            r@ == (VKey { key: key@, ts }),
    {
        KeyVec { key, ts }
    }

    /// Reads a key from its stored form. Bytes that are too few for a timestamp are a key with the
    /// default one.
    pub fn from_vec(raw: &[u8]) -> (r: KeyVec)
        ensures
            r@ == key_of_raw(raw@),
    {
        let len: usize = raw.len();
        if len < TS_SIZE {
            let r = KeyVec { key: copy_slice(raw), ts: TS_DEFAULT };
            assert(r@ =~= key_of_raw(raw@));
            return r;
        }
        let ts: u64 = get_u64_be(raw, len - TS_SIZE);
        let key: Vec<u8> = copy_slice(vstd::slice::slice_subrange(raw, 0, len - TS_SIZE));
        proof {
            assert(key@ =~= raw@.take(raw@.len() - 8));
            assert(raw@.subrange(len - 8, len as int) =~= raw@.skip(raw@.len() - 8));
        }
        let r = KeyVec { key, ts };
        assert(r@ =~= key_of_raw(raw@));
        r
    }

    /// Appends the stored form of the key.
    pub fn append_raw(&self, buf: &mut Vec<u8>)
        ensures
            final(buf)@ == old(buf)@ + raw_of_key(self@),
    {
        put_slice(buf, self.key.as_slice());
        put_u64_be(buf, self.ts);
        assert(buf@ =~= old(buf)@ + raw_of_key(self@));
    }

    pub fn as_key_slice(&self) -> (r: KeySlice<'_>)
        ensures
            r@ == self@,
    {
        KeySlice { key: self.key.as_slice(), ts: self.ts }
    }

    pub fn key_ref(&self) -> (r: &[u8])
        ensures
            r@ == self@.key,
    {
        self.key.as_slice()
    }

    /// The bytes of the key, without the timestamp.
    pub fn raw_ref(&self) -> (r: &[u8])
        ensures
            r@ == self@.key,
    {
        self.key.as_slice()
    }

    pub fn ts(&self) -> (r: u64)
        ensures
            r == self@.ts,
    {
        self.ts
    }

    pub fn key_len(&self) -> (r: usize)
        ensures
            r == self@.key.len(),
    {
        self.key.len()
    }

    /// The length of the key's stored form.
    pub fn raw_len(&self) -> (r: usize)
        requires
            self@.key.len() + TS_SIZE <= usize::MAX,
        ensures
            r == self@.key.len() + TS_SIZE,
    {
        self.key.len() + TS_SIZE
    }

    pub fn is_empty(&self) -> (r: bool)
        ensures
            r == (self@.key.len() == 0),
    {
        self.key.len() == 0
    }
}

impl Clone for KeyVec {
    fn clone(&self) -> (r: KeyVec)
        ensures
            r@ == self@,
    {
        let r = KeyVec { key: copy_slice(self.key.as_slice()), ts: self.ts };
        assert(r@ =~= self@);
        r
    }
}

/// The value of a versioned key.
pub broadcast proof fn lemma_slice_model(k: KeySlice)
    ensures
        #[trigger] k.model() == k@,
{
}

/// The value of a user key.
pub broadcast proof fn lemma_bytes_model(k: &[u8])
    ensures
        #[trigger] k.model() == (VKey { key: k@, ts: TS_DEFAULT }),
{
}

/// What keys of either kind stand for.
pub broadcast group group_models {
    lemma_slice_model,
    lemma_bytes_model,
}

} // verus!
