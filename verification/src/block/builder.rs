//! Building blocks.
use vstd::prelude::*;

use crate::block::{
    Block, KEY_LEN_SIZE, MAX_KEY_LEN, NUM_OF_ELEMENTS_SIZE, OFFSET_SIZE, VALUE_LEN_SIZE,
};
use crate::codec::{copy_slice, get_u16_le, get_u64_le, put_le, put_slice, put_u64_be};
use crate::key::{KeyBytes, KeySlice, KeyVec, VEntry, VKey, TS_DEFAULT, TS_SIZE};
use crate::{block, codec, key};

verus! {

broadcast use crate::codec::lemma_le_len;

/// Builds a block.
pub struct BlockBuilder {
    /// Offsets of each key-value entries.
    pub offsets: Vec<u16>,
    /// All serialized key-value pairs in the block.
    pub data: Vec<u8>,
    /// The expected block size. Unit: byte
    pub block_size: usize,
    /// The first key in the block
    pub first_key: Vec<u8>,
    /// The entries added so far.
    pub added: Ghost<Seq<VEntry>>,
}

impl BlockBuilder {
    /// The entries added so far.
    pub open spec fn entries(&self) -> Seq<VEntry> {
        self.added@
    }

    pub open spec fn wf(&self) -> bool {
        &&& self.data@ == codec::concat(block::packed_entries(self.entries()))
        &&& self.offsets@ == block::offsets_of(block::packed_entries(self.entries()))
        &&& self.first_key@ == (if self.entries().len() == 0 {
            Seq::empty()
        } else {
            self.entries()[0].key.key
        })
        &&& self.entries().len() > 1 ==> self.encoded_size() <= self.block_size
    }

    /// The size of the encoded block: entries, offsets and the number of entries.
    pub open spec fn encoded_size(&self) -> int {
        self.data@.len() + self.offsets@.len() * OFFSET_SIZE + NUM_OF_ELEMENTS_SIZE
    }

    /// Creates a new block builder.
    pub fn new(block_size: usize) -> (r: Self)
        ensures
            r.wf(),
            r.entries() == Seq::<VEntry>::empty(),
            r.block_size == block_size,
            r.data@.len() == 0,
            r.offsets@.len() == 0,
    {
        let r = Self {
            offsets: Vec::new(),
            data: Vec::new(),
            block_size,
            first_key: Vec::new(),
            added: Ghost(Seq::empty()),
        };
        proof {
            assert(r.data@ =~= codec::concat(block::packed_entries(r.entries())));
            assert(r.offsets@ =~= block::offsets_of(block::packed_entries(r.entries())));
            assert(r.first_key@ =~= Seq::empty());
        }
        r
    }

    /// The size of an entry: each pair needs a u16 for the key length and a u16 for the value
    /// length.
    pub fn get_entry_size(key: &[u8], value: &[u8]) -> (r: usize)
        requires
            4 + key@.len() + value@.len() <= usize::MAX,
        ensures
            r == 4 + key@.len() + value@.len(),
    {
        KEY_LEN_SIZE + VALUE_LEN_SIZE + key.len() + value.len()
    }

    /// Whether an entry of the given size makes the encoded block larger than expected.
    pub fn exceed_block_size(&self, entry_size: usize) -> (r: bool)
        requires
            self.encoded_size() + entry_size + OFFSET_SIZE <= usize::MAX,
        ensures
            r == (self.encoded_size() + entry_size + OFFSET_SIZE > self.block_size),
    {
        let total_size_after_add: usize = self.data.len() + self.offsets.len() * OFFSET_SIZE
            + NUM_OF_ELEMENTS_SIZE + entry_size + OFFSET_SIZE;
        total_size_after_add > self.block_size
    }

    /// For a non-first key, a u16 is used to indicate how many bytes of it are the same
    /// as the first key, a u16 to indicate the rest part.
    pub fn encode_key(key: KeySlice, first_key: &[u8]) -> (r: Vec<u8>)
        requires
            block::overlap(key@.key, first_key@) <= u16::MAX,
            block::overlap(key@.key, first_key@) <= key@.key.len() % 65536,
        ensures
            r@ == block::packed_key(key@, first_key@),
    {
        let bytes: &[u8] = key.key_ref();
        let key_len: usize = bytes.len();
        let first_len: usize = first_key.len();
        let mut overlap_len: usize = 0;
        proof {
            assert(bytes@.skip(0) =~= bytes@);
            assert(first_key@.skip(0) =~= first_key@);
        }
        while overlap_len < key_len && overlap_len < first_len && bytes[overlap_len]
            == first_key[overlap_len]
            invariant
                key_len == bytes@.len(),
                first_len == first_key@.len(),
                overlap_len <= key_len,
                overlap_len <= first_len,
                block::overlap(bytes@, first_key@) == overlap_len + block::overlap(
                    bytes@.skip(overlap_len as int),
                    first_key@.skip(overlap_len as int),
                ),
            decreases key_len - overlap_len,
        {
            proof {
                let n = overlap_len as int;
                assert(bytes@.skip(n).drop_first() =~= bytes@.skip(n + 1));
                assert(first_key@.skip(n).drop_first() =~= first_key@.skip(n + 1));
            }
            overlap_len = overlap_len + 1;
        }
        let rest_len: usize = key_len % 65536 - overlap_len;
        let mut encoded_key: Vec<u8> = Vec::new();
        put_le(&mut encoded_key, overlap_len as u64, 2);
        put_le(&mut encoded_key, rest_len as u64, 2);
        put_slice(&mut encoded_key, vstd::slice::slice_subrange(bytes, overlap_len, key_len));
        put_le(&mut encoded_key, key.ts(), TS_SIZE);
        assert(encoded_key@ =~= block::packed_key(key@, first_key@));
        encoded_key
    }

    /// See also Self::encode_key
    pub fn decode_key(encoded_key: &[u8], first_key: &[u8]) -> (r: KeyBytes)
        requires
            block::packed_key_ok(encoded_key@, first_key@),
        ensures
            r@ == block::unpacked_key(encoded_key@, first_key@),
    {
        let len: usize = encoded_key.len();
        let ts: u64 = get_u64_le(encoded_key, len - TS_SIZE);
        let overlap_len: usize = get_u16_le(encoded_key, 0);
        let mut decoded_key: Vec<u8> = copy_slice(
            vstd::slice::slice_subrange(first_key, 0, overlap_len),
        );
        put_slice(&mut decoded_key, vstd::slice::slice_subrange(encoded_key, 4, len - TS_SIZE));
        let r = KeyVec::from_bytes_with_ts(decoded_key, ts);
        assert(r@ =~= block::unpacked_key(encoded_key@, first_key@));
        r
    }

    /// Adds a key-value pair to the block. Returns false when the block is full.
    /// A block always accepts data if it doesn't have any data already. Even if the
    /// input data is larger than the threshold.
    #[must_use]
    pub fn add(&mut self, key: KeySlice, value: &[u8]) -> (r: bool)
        requires
            old(self).wf(),
            old(self).entries().len() > 0 ==> {
                &&& block::overlap(key@.key, old(self).first_key@) <= u16::MAX
                &&& block::overlap(key@.key, old(self).first_key@) <= key@.key.len() % 65536
            },
            old(self).encoded_size() + key@.key.len() + value@.len() + 20 <= usize::MAX,
        ensures
            final(self).wf(),
            final(self).block_size == old(self).block_size,
            r == (old(self).entries().len() == 0 || old(self).size_with(key@, value@)
                <= old(self).block_size),
            r ==> final(self).entries() == old(self).entries().push(
                VEntry { key: key@, value: value@ },
            ),
            r ==> final(self).encoded_size() == old(self).size_with(key@, value@),
            !r ==> *final(self) == *old(self),
    {
        let ghost before = self.entries();
        let ghost e = VEntry { key: key@, value: value@ };
        let is_first = self.offsets.len() == 0;
        let encoded_key: Vec<u8> = if is_first {
            let mut full_key: Vec<u8> = copy_slice(key.key_ref());
            put_u64_be(&mut full_key, key.ts());
            full_key
        } else {
            proof {
                block::lemma_overlap(key@.key, self.first_key@);
            }
            Self::encode_key(key, self.first_key.as_slice())
        };
        let ghost stored = if before.len() == 0 {
            key::raw_of_key(key@)
        } else {
            block::packed_key(key@, before[0].key.key)
        };
        proof {
            codec::lemma_from_be_of_be(key@.ts);
            assert(encoded_key@ =~= stored);
            if before.len() > 0 {
                block::lemma_overlap(key@.key, before[0].key.key);
            }
        }
        let entry_size: usize = Self::get_entry_size(encoded_key.as_slice(), value);
        if self.offsets.len() != 0 && self.exceed_block_size(entry_size) {
            return false;
        }
        if is_first {
            self.first_key = copy_slice(key.key_ref());
        }
        let offset: u16 = (self.data.len() % 65536) as u16;
        self.offsets.push(offset);

        put_le(&mut self.data, encoded_key.len() as u64, KEY_LEN_SIZE);
        put_slice(&mut self.data, encoded_key.as_slice());
        put_le(&mut self.data, value.len() as u64, VALUE_LEN_SIZE);
        put_slice(&mut self.data, value);
        proof {
            let chunks = block::packed_entries(before);
            let chunk = block::entry_bytes(stored, e.value);
            let after = before.push(e);
            assert(block::packed_entries(after) =~= chunks.push(chunk)) by {
                assert forall|i: int| 0 <= i < after.len() implies #[trigger] block::packed_entries(after)[i]
                    == chunks.push(chunk)[i] by {
                    assert(after[0] == if before.len() == 0 {
                        e
                    } else {
                        before[0]
                    });
                }
            }
            codec::lemma_concat_push(chunks, chunk);
            block::lemma_offsets_push(chunks, chunk);
            assert(self.data@ =~= codec::concat(chunks) + chunk);
            self.added@ = after;
        }
        true
    }

    /// The size of the encoded block once the pair is added.
    pub open spec fn size_with(&self, key: VKey, value: Seq<u8>) -> int {
        self.encoded_size() + OFFSET_SIZE + 4 + value.len() + (if self.entries().len() == 0 {
            key.key.len() + 8
        } else {
            block::packed_key(key, self.first_key@).len()
        })
    }

    /// Check if there is no key-value pair in the block.
    pub fn is_empty(&self) -> (r: bool)
        requires
            self.wf(),
        ensures
            r == (self.entries().len() == 0),
    {
        proof {
            codec::lemma_chunk_start_ends(block::packed_entries(self.entries()));
            if self.entries().len() > 0 {
                codec::lemma_chunk_at(block::packed_entries(self.entries()), 0);
            }
        }
        self.data.len() == 0
    }

    /// Finalize the block.
    pub fn build(self) -> (r: Block)
        ensures
            r.data@ == self.data@,
            r.offsets@ == self.offsets@,
    {
        Block { data: self.data, offsets: self.offsets }
    }

    pub fn get_size(&self) -> (r: usize)
        requires
            self.encoded_size() <= usize::MAX,
        ensures
            r == self.data@.len() + self.offsets@.len() * OFFSET_SIZE,
    {
        self.data.len() + self.offsets.len() * OFFSET_SIZE
    }

    /// The key of entry `index`, or the empty key where there is no such entry.
    pub fn get_key(&self, index: usize) -> (r: KeyBytes)
        requires
            self.wf(),
            block::lengths_fit(self.entries()),
            index < self.entries().len() ==> codec::chunk_start(
                block::packed_entries(self.entries()),
                index as int,
            ) <= u16::MAX,
        ensures
            index < self.entries().len() ==> r@ == self.entries()[index as int].key,
            index >= self.entries().len() ==> r@ == (VKey { key: Seq::empty(), ts: TS_DEFAULT }),
    {
        if index >= self.offsets.len() {
            return KeyVec::new();
        }
        let ghost es = self.entries();
        let ghost chunks = block::packed_entries(es);
        let entry_start: usize = self.offsets[index] as usize;
        proof {
            codec::lemma_chunk_at(chunks, index as int);
            assert(es[0].key.key.len() <= MAX_KEY_LEN);
            assert(es[index as int].key.key.len() <= MAX_KEY_LEN);
            key::lemma_raw_key_round_trip(es[index as int].key);
            block::lemma_overlap(es[index as int].key.key, es[0].key.key);
            block::lemma_packed_key_round_trip(es[index as int].key, es[0].key.key);
            let stored = if index == 0 {
                key::raw_of_key(es[0].key)
            } else {
                block::packed_key(es[index as int].key, es[0].key.key)
            };
            block::lemma_entry_parts(self.data@, entry_start as int, stored, es[index as int].value);
        }
        let key_len: usize = get_u16_le(self.data.as_slice(), entry_start);
        let key_start: usize = entry_start + KEY_LEN_SIZE;
        let key_end: usize = key_start + key_len;
        let encoded_key: &[u8] = vstd::slice::slice_subrange(self.data.as_slice(), key_start, key_end);
        if index == 0 {
            KeyVec::from_vec(encoded_key)
        } else {
            Self::decode_key(encoded_key, self.first_key.as_slice())
        }
    }

    /// The first key, or the empty key where the block is empty.
    pub fn get_first_key(&self) -> (r: KeyBytes)
        requires
            self.wf(),
            block::lengths_fit(self.entries()),
        ensures
            self.entries().len() > 0 ==> r@ == self.entries()[0].key,
            self.entries().len() == 0 ==> r@ == (VKey { key: Seq::empty(), ts: TS_DEFAULT }),
    {
        proof {
            codec::lemma_chunk_start_ends(block::packed_entries(self.entries()));
        }
        self.get_key(0)
    }

    /// The last key, or the empty key where the block is empty.
    pub fn get_last_key(&self) -> (r: KeyBytes)
        requires
            self.wf(),
            block::lengths_fit(self.entries()),
            self.entries().len() <= 1 || self.block_size <= 65536,
        ensures
            self.entries().len() > 0 ==> r@ == self.entries().last().key,
            self.entries().len() == 0 ==> r@ == (VKey { key: Seq::empty(), ts: TS_DEFAULT }),
    {
        if self.offsets.len() == 0 {
            return KeyVec::new();
        }
        proof {
            let chunks = block::packed_entries(self.entries());
            codec::lemma_chunk_start_ends(chunks);
            codec::lemma_chunk_at(chunks, chunks.len() - 1);
        }
        self.get_key(self.offsets.len() - 1)
    }
}

} // verus!
