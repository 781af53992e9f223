//! Blocks of sorted key-value pairs: the unit of storage in a table.
//!
//! An entry is stored as
//! `| key_len (u16) | key | value_len (u16) | value |`.
//! While a block is built, the first key is stored whole and every other key only as far as it
//! differs from the first one. Decoding restores every key to its whole form, so that a block can
//! be walked without looking at its first key.
pub mod builder;
pub mod iterator;

use vstd::prelude::*;

use crate::codec::{get_u16_le, put_le, put_slice, put_u64_be};
use crate::key::{KeyVec, VEntry, VKey};
use crate::{codec, key};

verus! {

broadcast use crate::codec::lemma_le_len;

pub const OFFSET_SIZE: usize = 2;

pub const NUM_OF_ELEMENTS_SIZE: usize = 2;

pub const KEY_LEN_SIZE: usize = 2;

pub const VALUE_LEN_SIZE: usize = 2;

/// The largest user key whose every stored form has a length that fits in a u16.
pub const MAX_KEY_LEN: usize = 65523;

/// The largest value whose length fits in a u16.
pub const MAX_VALUE_LEN: usize = 65535;

/// A block of key-value pairs.
pub struct Block {
    /// The entries, one after another.
    pub data: Vec<u8>,
    /// Where each entry starts in `data`.
    pub offsets: Vec<u16>,
}

/// An entry that the stored form can hold: a key that is not empty, and lengths that fit in a u16.
pub open spec fn entry_fits(e: VEntry) -> bool {
    &&& 0 < e.key.key.len() <= MAX_KEY_LEN
    &&& e.value.len() <= MAX_VALUE_LEN
}

pub open spec fn entries_fit(es: Seq<VEntry>) -> bool {
    forall|i: int| 0 <= i < es.len() ==> entry_fits(#[trigger] es[i])
}

/// The lengths of all keys and values fit in a u16, in every stored form.
pub open spec fn lengths_fit(es: Seq<VEntry>) -> bool {
    forall|i: int|
        0 <= i < es.len() ==> (#[trigger] es[i]).key.key.len() <= MAX_KEY_LEN && es[i].value.len()
            <= MAX_VALUE_LEN
}

/// The number of leading bytes that two keys share.
pub open spec fn overlap(a: Seq<u8>, b: Seq<u8>) -> nat
    decreases a.len(),
{
    if a.len() == 0 || b.len() == 0 || a[0] != b[0] {
        0
    } else {
        1 + overlap(a.drop_first(), b.drop_first())
    }
}

pub proof fn lemma_overlap(a: Seq<u8>, b: Seq<u8>)
    ensures
        overlap(a, b) <= a.len(),
        overlap(a, b) <= b.len(),
        a.take(overlap(a, b) as int) == b.take(overlap(a, b) as int),
        overlap(a, b) < a.len() && overlap(a, b) < b.len() ==> a[overlap(a, b) as int]
            != b[overlap(a, b) as int],
    decreases a.len(),
{
    if a.len() == 0 || b.len() == 0 || a[0] != b[0] {
        assert(a.take(0) =~= b.take(0));
    } else {
        lemma_overlap(a.drop_first(), b.drop_first());
        let o = overlap(a.drop_first(), b.drop_first()) as int;
        assert forall|i: int| 0 <= i < o + 1 implies a[i] == b[i] by {
            if i > 0 {
                assert(a.drop_first().take(o)[i - 1] == a[i]);
                assert(b.drop_first().take(o)[i - 1] == b[i]);
            }
        }
        assert(a.take(o + 1) =~= b.take(o + 1));
    }
}

/// A key stored by its difference from the first key of the block:
/// `| overlap (u16) | rest_len (u16) | rest | timestamp (u64) |`.
pub open spec fn packed_key(k: VKey, first_key: Seq<u8>) -> Seq<u8> {
    let o = overlap(k.key, first_key);
    codec::le(o, 2) + codec::le((k.key.len() % 65536 - o) as nat, 2) + k.key.skip(
        o as int,
    ) + codec::le(k.ts as nat, 8)
}

/// Whatever a key begins with that the first key of its block begins with too is not stored again.
pub proof fn lemma_shared_part_left_out(k: VKey, first_key: Seq<u8>, n: int)
    requires
        0 <= n <= k.key.len(),
        n <= first_key.len(),
        k.key.take(n) == first_key.take(n),
    ensures
        packed_key(k, first_key).len() <= 12 + k.key.len() - n,
{
    let o = overlap(k.key, first_key);
    lemma_overlap(k.key, first_key);
    codec::lemma_le_len(o, 2);
    codec::lemma_le_len((k.key.len() % 65536 - o) as nat, 2);
    codec::lemma_le_len(k.ts as nat, 8);
    if o < n {
        assert(k.key.take(n)[o as int] == k.key[o as int]);
        assert(first_key.take(n)[o as int] == first_key[o as int]);
    }
    assert(packed_key(k, first_key).len() == 12 + k.key.len() - o);
}

/// The key that a difference from the first key stands for.
pub open spec fn unpacked_key(packed: Seq<u8>, first_key: Seq<u8>) -> VKey {
    let o = codec::from_le(packed.subrange(0, 2)) as int;
    VKey {
        key: first_key.take(o) + packed.subrange(4, packed.len() - 8),
        ts: codec::from_le(packed.subrange(packed.len() - 8, packed.len() as int)) as u64,
    }
}

/// A packed key long enough for its fixed parts, whose overlap lies within the first key.
pub open spec fn packed_key_ok(packed: Seq<u8>, first_key: Seq<u8>) -> bool {
    packed.len() >= 12 && codec::from_le(packed.subrange(0, 2)) <= first_key.len()
}

/// Unpacking a packed key gives the key back.
pub proof fn lemma_packed_key_round_trip(k: VKey, first_key: Seq<u8>)
    requires
        overlap(k.key, first_key) <= u16::MAX,
    ensures
        packed_key_ok(packed_key(k, first_key), first_key),
        unpacked_key(packed_key(k, first_key), first_key) == k,
        packed_key(k, first_key).len() == 12 + k.key.len() - overlap(k.key, first_key),
{
    let o = overlap(k.key, first_key);
    let p = packed_key(k, first_key);
    lemma_overlap(k.key, first_key);
    codec::lemma_pow256();
    codec::lemma_from_le_of_le(o, 2);
    codec::lemma_from_le_of_le(k.ts as nat, 8);
    assert(p.subrange(0, 2) =~= codec::le(o, 2));
    assert(p.subrange(p.len() - 8, p.len() as int) =~= codec::le(k.ts as nat, 8));
    assert(p.subrange(4, p.len() - 8) =~= k.key.skip(o as int));
    assert(first_key.take(o as int) + k.key.skip(o as int) =~= k.key);
    assert(unpacked_key(p, first_key) =~= k);
}

/// An entry as stored.
pub open spec fn entry_bytes(stored_key: Seq<u8>, value: Seq<u8>) -> Seq<u8> {
    codec::le(stored_key.len(), 2) + stored_key + codec::le(value.len(), 2) + value
}

/// Entry `i` of a block under construction: the first key whole, every other packed.
pub open spec fn packed_entry(es: Seq<VEntry>, i: int) -> Seq<u8> {
    entry_bytes(
        if i == 0 {
            key::raw_of_key(es[0].key)
        } else {
            packed_key(es[i].key, es[0].key.key)
        },
        es[i].value,
    )
}

/// The stored entries of a block under construction.
pub open spec fn packed_entries(es: Seq<VEntry>) -> Seq<Seq<u8>> {
    Seq::new(es.len(), |i: int| packed_entry(es, i))
}

/// Where the stored entries start, each reduced to a u16.
pub open spec fn offsets_of(chunks: Seq<Seq<u8>>) -> Seq<u16> {
    Seq::new(chunks.len(), |i: int| (codec::chunk_start(chunks, i) % 65536) as u16)
}

/// The stored entries of a decoded block: every key whole.
pub open spec fn raw_entries(es: Seq<VEntry>) -> Seq<Seq<u8>> {
    Seq::new(es.len(), |i: int| entry_bytes(key::raw_of_key(es[i].key), es[i].value))
}

/// The start and the end of the key, the start and the end of the value of the entry at `start`.
pub open spec fn kv_range(data: Seq<u8>, start: int) -> (int, int, int, int) {
    let ks = start + 2;
    let ke = ks + codec::from_le(data.subrange(start, start + 2)) as int;
    let vs = ke + 2;
    let ve = vs + codec::from_le(data.subrange(ke, ke + 2)) as int;
    (ks, ke, vs, ve)
}

/// The entry at `start` lies within the data.
pub open spec fn kv_range_ok(data: Seq<u8>, start: int) -> bool {
    let (ks, ke, vs, ve) = kv_range(data, start);
    0 <= start && ks <= data.len() && vs <= data.len() && ve <= data.len()
}

/// The entries from `start` on, where keys are stored whole. `None` where the data is not a
/// sequence of entries with keys that are not empty.
pub open spec fn parse_raw(data: Seq<u8>, start: int) -> Option<Seq<VEntry>>
    decreases data.len() - start,
{
    if start >= data.len() {
        Some(Seq::empty())
    } else if !kv_range_ok(data, start) {
        None
    } else {
        let (ks, ke, vs, ve) = kv_range(data, start);
        if ke - ks < 9 {
            None
        } else {
            let e = VEntry {
                key: key::key_of_raw(data.subrange(ks, ke)),
                value: data.subrange(vs, ve),
            };
            match parse_raw(data, ve) {
                None => None,
                Some(rest) => Some(seq![e] + rest),
            }
        }
    }
}

/// The key stored at one place of a block under construction. `first_key` is `None` for the first
/// entry. `None` where the bytes are no stored key, the key is empty, or it is too long to be
/// stored whole.
pub open spec fn unpack_stored_key(stored: Seq<u8>, first_key: Option<Seq<u8>>) -> Option<VKey> {
    match first_key {
        None => if 9 <= stored.len() {
            Some(key::key_of_raw(stored))
        } else {
            None
        },
        Some(first) => if packed_key_ok(stored, first) && 0 < unpacked_key(stored, first).key.len()
            <= 65527 {
            Some(unpacked_key(stored, first))
        } else {
            None
        },
    }
}

/// The entries from `start` on, where all keys but the first are packed.
pub open spec fn parse_packed(data: Seq<u8>, start: int, first_key: Option<Seq<u8>>) -> Option<
    Seq<VEntry>,
>
    decreases data.len() - start,
{
    if start >= data.len() {
        Some(Seq::empty())
    } else if !kv_range_ok(data, start) {
        None
    } else {
        let (ks, ke, vs, ve) = kv_range(data, start);
        match unpack_stored_key(data.subrange(ks, ke), first_key) {
            None => None,
            Some(key) => {
                let e = VEntry { key, value: data.subrange(vs, ve) };
                let first = match first_key {
                    None => key.key,
                    Some(first) => first,
                };
                match parse_packed(data, ve, Some(first)) {
                    None => None,
                    Some(rest) => Some(seq![e] + rest),
                }
            },
        }
    }
}

/// The offsets as stored, two bytes each.
pub open spec fn offset_chunks(offsets: Seq<u16>) -> Seq<Seq<u8>> {
    Seq::new(offsets.len(), |i: int| codec::le(offsets[i] as nat, 2))
}

/// An encoded block: the entries, the offsets and the number of entries.
pub open spec fn encoded_block(data: Seq<u8>, offsets: Seq<u16>) -> Seq<u8> {
    data + codec::concat(offset_chunks(offsets)) + codec::le(offsets.len(), 2)
}

/// The entries of an encoded block. No bytes at all stand for a block without entries.
pub open spec fn parse_block(raw: Seq<u8>) -> Option<Seq<VEntry>> {
    if raw.len() == 0 {
        Some(Seq::empty())
    } else if raw.len() < 2 {
        None
    } else {
        let n = codec::from_le(raw.skip(raw.len() - 2));
        if 2 + 2 * n > raw.len() {
            None
        } else {
            parse_packed(raw.take(raw.len() - 2 - 2 * n), 0, None)
        }
    }
}

/// Every entry lies where its chunk does.
pub proof fn lemma_entry_parts(data: Seq<u8>, start: int, k: Seq<u8>, v: Seq<u8>)
    requires
        0 <= start,
        start + entry_bytes(k, v).len() <= data.len(),
        data.subrange(start, start + entry_bytes(k, v).len()) == entry_bytes(k, v),
        k.len() <= u16::MAX,
        v.len() <= u16::MAX,
    ensures
        kv_range(data, start) == (
            start + 2,
            start + 2 + k.len(),
            start + 4 + k.len(),
            start + entry_bytes(k, v).len(),
        ),
        entry_bytes(k, v).len() == 4 + k.len() + v.len(),
        data.subrange(start + 2, start + 2 + k.len()) == k,
        data.subrange(start + 4 + k.len(), start + entry_bytes(k, v).len()) == v,
{
    let b = entry_bytes(k, v);
    codec::lemma_pow256();
    codec::lemma_from_le_of_le(k.len(), 2);
    codec::lemma_from_le_of_le(v.len(), 2);
    let n = k.len() as int;
    let whole = data.subrange(start, start + b.len());
    assert(b.subrange(0, 2) =~= codec::le(k.len(), 2));
    assert(b.subrange(2, 2 + n) =~= k);
    assert(b.subrange(2 + n, 4 + n) =~= codec::le(v.len(), 2));
    assert(b.subrange(4 + n, b.len() as int) =~= v);
    assert(data.subrange(start, start + 2) =~= whole.subrange(0, 2));
    assert(data.subrange(start + 2, start + 2 + n) =~= whole.subrange(2, 2 + n));
    assert(data.subrange(start + 2 + n, start + 4 + n) =~= whole.subrange(2 + n, 4 + n));
    assert(data.subrange(start + 4 + n, start + b.len()) =~= whole.subrange(4 + n, b.len() as int));
}

/// Walking the entries of a decoded block gives the entries.
pub proof fn lemma_parse_raw_entries(es: Seq<VEntry>, i: int)
    requires
        0 <= i <= es.len(),
        forall|j: int|
            0 <= j < es.len() ==> 0 < (#[trigger] es[j]).key.key.len() <= 65527
                && es[j].value.len() <= u16::MAX,
    ensures
        parse_raw(
            codec::concat(raw_entries(es)),
            codec::chunk_start(raw_entries(es), i),
        ) == Some(es.skip(i)),
    decreases es.len() - i,
{
    let chunks = raw_entries(es);
    let data = codec::concat(chunks);
    let start = codec::chunk_start(chunks, i);
    codec::lemma_chunk_start_ends(chunks);
    if i == es.len() {
        assert(es.skip(i) =~= Seq::empty());
    } else {
        lemma_parse_raw_entries(es, i + 1);
        codec::lemma_chunk_at(chunks, i);
        key::lemma_raw_key_round_trip(es[i].key);
        lemma_entry_parts(data, start, key::raw_of_key(es[i].key), es[i].value);
        assert(seq![es[i]] + es.skip(i + 1) =~= es.skip(i));
    }
}

/// Walking the entries of a block under construction gives the entries.
pub proof fn lemma_parse_packed_entries(es: Seq<VEntry>, i: int)
    requires
        0 <= i <= es.len(),
        entries_fit(es),
    ensures
        parse_packed(
            codec::concat(packed_entries(es)),
            codec::chunk_start(packed_entries(es), i),
            if i == 0 {
                None
            } else {
                Some(es[0].key.key)
            },
        ) == Some(es.skip(i)),
    decreases es.len() - i,
{
    let chunks = packed_entries(es);
    let data = codec::concat(chunks);
    let start = codec::chunk_start(chunks, i);
    codec::lemma_chunk_start_ends(chunks);
    if i == es.len() {
        assert(es.skip(i) =~= Seq::empty());
    } else {
        assert(entry_fits(es[0]));
        assert(entry_fits(es[i]));
        lemma_parse_packed_entries(es, i + 1);
        codec::lemma_chunk_at(chunks, i);
        key::lemma_raw_key_round_trip(es[i].key);
        lemma_overlap(es[i].key.key, es[0].key.key);
        lemma_packed_key_round_trip(es[i].key, es[0].key.key);
        let stored = if i == 0 {
            key::raw_of_key(es[0].key)
        } else {
            packed_key(es[i].key, es[0].key.key)
        };
        lemma_entry_parts(data, start, stored, es[i].value);
        assert(seq![es[i]] + es.skip(i + 1) =~= es.skip(i));
    }
}

/// Entries that were read have keys that are not empty and values whose length fits in a u16.
pub proof fn lemma_parse_packed_fits(data: Seq<u8>, start: int, first_key: Option<Seq<u8>>)
    requires
        0 <= start,
        parse_packed(data, start, first_key) is Some,
    ensures
        forall|i: int|
            0 <= i < parse_packed(data, start, first_key)->0.len() ==> {
                let e = #[trigger] parse_packed(data, start, first_key)->0[i];
                e.key.key.len() > 0 && e.value.len() <= MAX_VALUE_LEN
            },
    decreases data.len() - start,
{
    let es = parse_packed(data, start, first_key)->0;
    if start < data.len() {
        let (ks, ke, vs, ve) = kv_range(data, start);
        codec::lemma_read_bounds(data.subrange(ke, ke + 2));
        let key = unpack_stored_key(data.subrange(ks, ke), first_key)->0;
        let first = match first_key {
            None => key.key,
            Some(first) => first,
        };
        lemma_parse_packed_fits(data, ve, Some(first));
        let rest = parse_packed(data, ve, Some(first))->0;
        assert forall|i: int| 0 <= i < es.len() implies (#[trigger] es[i]).key.key.len() > 0
            && es[i].value.len() <= MAX_VALUE_LEN by {
            if i > 0 {
                assert(es[i] == rest[i - 1]);
            }
        }
    }
}

pub proof fn lemma_offset_chunks_len(offsets: Seq<u16>)
    ensures
        codec::concat(offset_chunks(offsets)).len() == 2 * offsets.len(),
    decreases offsets.len(),
{
    let chunks = offset_chunks(offsets);
    if offsets.len() > 0 {
        lemma_offset_chunks_len(offsets.drop_last());
        assert(chunks.drop_last() =~= offset_chunks(offsets.drop_last()));
    }
}

/// Decoding an encoded block gives back the entries it was built from.
pub proof fn lemma_block_round_trip(es: Seq<VEntry>)
    requires
        entries_fit(es),
        es.len() <= u16::MAX,
    ensures
        parse_block(
            encoded_block(
                codec::concat(packed_entries(es)),
                offsets_of(packed_entries(es)),
            ),
        ) == Some(es),
{
    let data = codec::concat(packed_entries(es));
    let offsets = offsets_of(packed_entries(es));
    let raw = encoded_block(data, offsets);
    lemma_offset_chunks_len(offsets);
    codec::lemma_pow256();
    codec::lemma_from_le_of_le(offsets.len(), 2);
    assert(raw.skip(raw.len() - 2) =~= codec::le(offsets.len(), 2));
    assert(raw.take(raw.len() - 2 - 2 * offsets.len()) =~= data);
    lemma_parse_packed_entries(es, 0);
    codec::lemma_chunk_start_ends(packed_entries(es));
    assert(es.skip(0) =~= es);
}

/// The entry before `done.len()` entries and the rest of a walk belong together.
spec fn joined(done: Seq<VEntry>, rest: Option<Seq<VEntry>>) -> Option<Seq<VEntry>> {
    match rest {
        None => None,
        Some(rest) => Some(done + rest),
    }
}

spec fn bytes_of(key: Option<KeyVec>) -> Option<Seq<u8>> {
    match key {
        None => None,
        Some(k) => Some(k@.key),
    }
}

impl Block {
    /// The entries of the block, where it is a sequence of entries with whole keys.
    pub open spec fn parsed(&self) -> Option<Seq<VEntry>> {
        parse_raw(self.data@, 0)
    }

    /// The block is a sequence of entries with whole keys.
    pub open spec fn wf(&self) -> bool {
        self.parsed() is Some
    }

    pub open spec fn entries(&self) -> Seq<VEntry> {
        self.parsed()->0
    }

    /// Encodes the block: entries, offsets, number of entries.
    pub fn encode(&self) -> (buf: Vec<u8>)
        ensures
            buf@ == encoded_block(self.data@, self.offsets@),
    {
        let mut buf: Vec<u8> = Vec::new();
        put_slice(&mut buf, self.data.as_slice());
        let ghost chunks = offset_chunks(self.offsets@);
        let mut i: usize = 0;
        assert(buf@ =~= self.data@ + codec::concat(chunks.take(0)));
        while i < self.offsets.len()
            invariant
                i <= self.offsets@.len(),
                chunks == offset_chunks(self.offsets@),
                buf@ == self.data@ + codec::concat(chunks.take(i as int)),
            decreases self.offsets@.len() - i,
        {
            put_le(&mut buf, self.offsets[i] as u64, OFFSET_SIZE);
            proof {
                assert(chunks.take(i + 1) =~= chunks.take(i as int).push(chunks[i as int]));
                codec::lemma_concat_push(chunks.take(i as int), chunks[i as int]);
                assert(buf@ =~= self.data@ + codec::concat(chunks.take(i + 1)));
            }
            i = i + 1;
        }
        put_le(&mut buf, self.offsets.len() as u64, NUM_OF_ELEMENTS_SIZE);
        assert(chunks.take(i as int) =~= chunks);
        buf
    }

    /// Decodes an encoded block, restoring all keys to their whole form. `None` where the bytes
    /// are no encoded block.
    pub fn try_decode(raw: &[u8]) -> (r: Option<Block>)
        ensures
            r is Some <==> parse_block(raw@) is Some,
            r matches Some(b) ==> {
                let es = parse_block(raw@)->0;
                &&& b.data@ == codec::concat(raw_entries(es))
                &&& b.offsets@ == offsets_of(raw_entries(es))
                &&& b.parsed() == Some(es)
            },
    {
        let len: usize = raw.len();
        if len == 0 {
            let b = Block { data: Vec::new(), offsets: Vec::new() };
            assert(b.data@ =~= codec::concat(raw_entries(Seq::empty())));
            assert(b.offsets@ =~= offsets_of(raw_entries(Seq::empty())));
            return Some(b);
        }
        if len < 2 {
            return None;
        }
        let n: usize = get_u16_le(raw, len - 2);
        assert(raw@.subrange(len - 2, len as int) =~= raw@.skip(len - 2));
        if 2 + 2 * n > len {
            return None;
        }
        let data: &[u8] = vstd::slice::slice_subrange(raw, 0, len - 2 - 2 * n);
        assert(data@ =~= raw@.take(raw@.len() - 2 - 2 * n));
        Self::unpack(data)
    }

    /// Restores a key to its whole form.
    fn unpack_key(stored: &[u8], first: &Option<KeyVec>) -> (r: Option<KeyVec>)
        requires
            stored@.len() <= u16::MAX,
        ensures
            match unpack_stored_key(stored@, bytes_of(*first)) {
                Some(k) => r matches Some(key) && key@ == k && 0 < k.key.len() <= 65527,
                None => r is None,
            },
    {
        match first {
            None => {
                if stored.len() < 9 {
                    return None;
                }
                Some(KeyVec::from_vec(stored))
            },
            Some(f) => {
                let stored_len: usize = stored.len();
                if stored_len < 12 || get_u16_le(stored, 0) > f.key_len() {
                    return None;
                }
                let k = builder::BlockBuilder::decode_key(stored, f.key_ref());
                if k.key_len() == 0 || k.key_len() > 65527 {
                    return None;
                }
                Some(k)
            },
        }
    }

    /// Stores an entry with its key in its whole form.
    fn put_raw_entry(out: &mut Vec<u8>, key: &KeyVec, value: &[u8])
        requires
            key@.key.len() <= 65527,
        ensures
            final(out)@ == old(out)@ + entry_bytes(key::raw_of_key(key@), value@),
    {
        put_le(out, (key.key_len() + 8) as u64, 2);
        put_slice(out, key.key_ref());
        put_u64_be(out, key.ts());
        put_le(out, value.len() as u64, 2);
        put_slice(out, value);
        proof {
            key::lemma_raw_key_round_trip(key@);
            assert(out@ =~= old(out)@ + entry_bytes(key::raw_of_key(key@), value@));
        }
    }

    /// Restores all keys of the stored entries to their whole form.
    fn unpack(data: &[u8]) -> (r: Option<Block>)
        ensures
            r is Some <==> parse_packed(data@, 0, None) is Some,
            r matches Some(b) ==> {
                let es = parse_packed(data@, 0, None)->0;
                &&& b.data@ == codec::concat(raw_entries(es))
                &&& b.offsets@ == offsets_of(raw_entries(es))
                &&& b.parsed() == Some(es)
            },
    {
        let len: usize = data.len();
        let mut out: Vec<u8> = Vec::new();
        let mut offsets: Vec<u16> = Vec::new();
        let mut first: Option<KeyVec> = None;
        let mut start: usize = 0;
        let ghost mut done: Seq<VEntry> = Seq::empty();
        proof {
            assert(out@ =~= codec::concat(raw_entries(done)));
            assert(offsets@ =~= offsets_of(raw_entries(done)));
            let p = parse_packed(data@, 0, None);
            assert(joined(done, p) == p) by {
                if p is Some {
                    assert(done + p->0 =~= p->0);
                }
            }
        }
        while start < len
            invariant
                start <= len == data@.len(),
                out@ == codec::concat(raw_entries(done)),
                offsets@ == offsets_of(raw_entries(done)),
                forall|j: int|
                    0 <= j < done.len() ==> 0 < (#[trigger] done[j]).key.key.len() <= 65527
                        && done[j].value.len() <= u16::MAX,
                parse_packed(data@, 0, None) == joined(
                    done,
                    parse_packed(data@, start as int, bytes_of(first)),
                ),
            decreases len - start,
        {
            if len - start < 2 {
                return None;
            }
            let ks: usize = start + 2;
            let key_len: usize = get_u16_le(data, start);
            if len - ks < key_len || len - ks - key_len < 2 {
                return None;
            }
            let ke: usize = ks + key_len;
            let vs: usize = ke + 2;
            let value_len: usize = get_u16_le(data, ke);
            if len - vs < value_len {
                return None;
            }
            let ve: usize = vs + value_len;
            let stored: &[u8] = vstd::slice::slice_subrange(data, ks, ke);
            let value: &[u8] = vstd::slice::slice_subrange(data, vs, ve);
            let ghost first_view = bytes_of(first);
            let key: KeyVec = match Self::unpack_key(stored, &first) {
                Some(key) => key,
                None => {
                    return None;
                },
            };
            let ghost e = VEntry { key: key@, value: value@ };
            let ghost before = raw_entries(done);
            offsets.push((out.len() % 65536) as u16);
            Self::put_raw_entry(&mut out, &key, value);
            proof {
                let chunk = entry_bytes(key::raw_of_key(e.key), e.value);
                assert(raw_entries(done.push(e)) =~= before.push(chunk));
                codec::lemma_concat_push(before, chunk);
                assert(out@ =~= codec::concat(before) + chunk);
                lemma_offsets_push(before, chunk);
                assert(offsets@ =~= offsets_of(before.push(chunk)));
                let rest = parse_packed(
                    data@,
                    ve as int,
                    Some(
                        match first_view {
                            None => key@.key,
                            Some(f) => f,
                        },
                    ),
                );
                if rest is Some {
                    assert(done + (seq![e] + rest->0) =~= done.push(e) + rest->0);
                }
                done = done.push(e);
            }
            if first.is_none() {
                first = Some(key);
            }
            start = ve;
        }
        let b = Block { data: out, offsets };
        proof {
            assert(done + Seq::empty() =~= done);
            lemma_parse_raw_entries(done, 0);
            codec::lemma_chunk_start_ends(raw_entries(done));
            assert(done.skip(0) =~= done);
        }
        Some(b)
    }

    /// Decodes an encoded block, restoring all keys to their whole form.
    pub fn decode(raw: &[u8]) -> (b: Block)
        requires
            parse_block(raw@) is Some,
        ensures
            b.data@ == codec::concat(raw_entries(parse_block(raw@)->0)),
            b.offsets@ == offsets_of(raw_entries(parse_block(raw@)->0)),
            b.parsed() == parse_block(raw@),
    {
        Self::try_decode(raw).unwrap()
    }
}

pub proof fn lemma_offsets_push(chunks: Seq<Seq<u8>>, c: Seq<u8>)
    ensures
        offsets_of(chunks.push(c)) == offsets_of(chunks).push(
            (codec::concat(chunks).len() % 65536) as u16,
        ),
{
    let all = chunks.push(c);
    assert forall|i: int| 0 <= i < chunks.len() implies offsets_of(all)[i] == offsets_of(
        chunks,
    )[i] by {
        assert(all.take(i) =~= chunks.take(i));
    }
    assert(all.take(chunks.len() as int) =~= chunks);
    assert(offsets_of(all) =~= offsets_of(chunks).push(
        (codec::concat(chunks).len() % 65536) as u16,
    ));
}

} // verus!
