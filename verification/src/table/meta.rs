//! Metadata of the blocks of a table.
use vstd::prelude::*;

use crate::codec;
use crate::codec::{copy_slice, get_u16_le, get_u32_le, get_u64_le, put_le, put_slice};
use crate::key::{KeyBytes, KeyVec, VKey, TS_SIZE};

verus! {

broadcast use crate::codec::lemma_le_len;

pub const NUM_OF_BLOCKS_SIZE: usize = 4;

pub const META_OFFSET_SIZE: usize = 4;

pub const FIRST_KEY_LEN_SIZE: usize = 2;

#[derive(Debug)]
pub struct BlockMeta {
    /// Offset of this data block.
    pub offset: usize,
    /// The first key of the data block.
    pub first_key: KeyBytes,
    /// The last key of the data block.
    pub last_key: KeyBytes,
}

/// The value of a block's metadata.
#[verifier::ext_equal]
pub struct VMeta {
    pub offset: int,
    pub first_key: VKey,
    pub last_key: VKey,
}

impl View for BlockMeta {
    type V = VMeta;

    open spec fn view(&self) -> VMeta {
        VMeta { offset: self.offset as int, first_key: self.first_key@, last_key: self.last_key@ }
    }
}

pub open spec fn meta_views(metas: Seq<BlockMeta>) -> Seq<VMeta> {
    Seq::new(metas.len(), |i: int| metas[i]@)
}

/// A key with its timestamp in little-endian order.
pub open spec fn meta_key_bytes(k: VKey) -> Seq<u8> {
    k.key + codec::le(k.ts as nat, 8)
}

/// The key whose bytes with a little-endian timestamp are `raw`.
pub open spec fn key_of_meta_bytes(raw: Seq<u8>) -> VKey {
    VKey {
        key: raw.take(raw.len() - 8),
        ts: codec::from_le(raw.skip(raw.len() - 8)) as u64,
    }
}

/// One block's metadata as stored:
/// `| offset (u32) | first_key | last_key | first_key_len (u16) |`.
pub open spec fn meta_chunk(m: VMeta) -> Seq<u8> {
    codec::le(m.offset as nat, 4) + meta_key_bytes(m.first_key) + meta_key_bytes(m.last_key)
        + codec::le(m.first_key.key.len() + 8, 2)
}

pub open spec fn meta_chunks(ms: Seq<VMeta>) -> Seq<Seq<u8>> {
    Seq::new(ms.len(), |i: int| meta_chunk(ms[i]))
}

/// Where each block's metadata starts, for metadata written behind `base` other bytes.
pub open spec fn meta_offset_chunks(base: int, ms: Seq<VMeta>) -> Seq<Seq<u8>> {
    Seq::new(
        ms.len(),
        |i: int| codec::le((base + codec::chunk_start(meta_chunks(ms), i)) as nat, 4),
    )
}

/// The metadata of all blocks, where each starts, and how many there are, written behind `base`
/// other bytes.
pub open spec fn encoded_metas(base: int, ms: Seq<VMeta>) -> Seq<u8> {
    codec::concat(meta_chunks(ms)) + codec::concat(meta_offset_chunks(base, ms)) + codec::le(
        ms.len(),
        4,
    )
}

/// The bytes of one block's metadata.
pub open spec fn raw_meta(offsets: Seq<u32>, i: int, section: Seq<u8>) -> Seq<u8> {
    section.subrange(offsets[i] as int, meta_end(offsets, i, section))
}

pub open spec fn meta_end(offsets: Seq<u32>, i: int, section: Seq<u8>) -> int {
    if i == offsets.len() - 1 {
        section.len() as int
    } else {
        offsets[i + 1] as int
    }
}

/// Block `i`'s metadata lies within the section and has room for all its parts.
pub open spec fn meta_ok(offsets: Seq<u32>, i: int, section: Seq<u8>) -> bool {
    &&& offsets[i] <= meta_end(offsets, i, section) <= section.len()
    &&& ({
        let raw = raw_meta(offsets, i, section);
        let n = raw.len() as int;
        let first_len = codec::from_le(raw.subrange(n - 2, n));
        n >= 6 && first_len >= 8 && 4 + first_len + 8 <= n - 2
    })
}

/// Block `i`'s metadata.
pub open spec fn meta_at(offsets: Seq<u32>, i: int, section: Seq<u8>) -> VMeta {
    let raw = raw_meta(offsets, i, section);
    let n = raw.len() as int;
    let first_len = codec::from_le(raw.subrange(n - 2, n)) as int;
    VMeta {
        offset: codec::from_le(raw.subrange(0, 4)) as int,
        first_key: key_of_meta_bytes(raw.subrange(4, 4 + first_len)),
        last_key: key_of_meta_bytes(raw.subrange(4 + first_len, n - 2)),
    }
}

/// The number of blocks that encoded metadata speaks of.
pub open spec fn num_metas(raw: Seq<u8>) -> int {
    codec::from_le(raw.skip(raw.len() - 4)) as int
}

/// Where the offsets start in encoded metadata.
pub open spec fn offsets_at(raw: Seq<u8>) -> int {
    raw.len() - 4 - 4 * num_metas(raw)
}

pub open spec fn stored_offsets(raw: Seq<u8>) -> Seq<u32> {
    Seq::new(
        num_metas(raw) as nat,
        |i: int|
            codec::from_le(
                raw.subrange(offsets_at(raw) + 4 * i, offsets_at(raw) + 4 * i + 4),
            ) as u32,
    )
}

/// The bytes are encoded metadata.
pub open spec fn metas_ok(raw: Seq<u8>) -> bool {
    &&& raw.len() >= 4
    &&& offsets_at(raw) >= 0
    &&& forall|i: int|
        0 <= i < num_metas(raw) ==> #[trigger] meta_ok(
            stored_offsets(raw),
            i,
            raw.take(offsets_at(raw)),
        )
}

/// The metadata that the bytes hold.
pub open spec fn parse_metas(raw: Seq<u8>) -> Option<Seq<VMeta>> {
    if metas_ok(raw) {
        Some(
            Seq::new(
                num_metas(raw) as nat,
                |i: int| meta_at(stored_offsets(raw), i, raw.take(offsets_at(raw))),
            ),
        )
    } else {
        None
    }
}

/// Metadata that the stored form can hold.
pub open spec fn meta_fits(m: VMeta) -> bool {
    0 <= m.offset <= u32::MAX && m.first_key.key.len() + 8 <= u16::MAX
}

proof fn lemma_meta_key_round_trip(k: VKey)
    ensures
        key_of_meta_bytes(meta_key_bytes(k)) == k,
        meta_key_bytes(k).len() == k.key.len() + 8,
{
    let raw = meta_key_bytes(k);
    codec::lemma_pow256();
    codec::lemma_from_le_of_le(k.ts as nat, 8);
    assert(raw.take(raw.len() - 8) =~= k.key);
    assert(raw.skip(raw.len() - 8) =~= codec::le(k.ts as nat, 8));
    assert(key_of_meta_bytes(raw) =~= k);
}

proof fn lemma_meta_chunk(m: VMeta)
    requires
        meta_fits(m),
    ensures
        ({
            let raw = meta_chunk(m);
            let n = raw.len() as int;
            let first_len = m.first_key.key.len() + 8;
            &&& codec::from_le(raw.subrange(n - 2, n)) == first_len
            &&& codec::from_le(raw.subrange(0, 4)) == m.offset
            &&& n == 4 + first_len + m.last_key.key.len() + 8 + 2
            &&& key_of_meta_bytes(raw.subrange(4, 4 + first_len as int)) == m.first_key
            &&& key_of_meta_bytes(raw.subrange(4 + first_len as int, n - 2)) == m.last_key
        }),
{
    let raw = meta_chunk(m);
    let n = raw.len() as int;
    let first_len = (m.first_key.key.len() + 8) as int;
    lemma_meta_key_round_trip(m.first_key);
    lemma_meta_key_round_trip(m.last_key);
    codec::lemma_pow256();
    codec::lemma_from_le_of_le(m.offset as nat, 4);
    codec::lemma_from_le_of_le(m.first_key.key.len() + 8, 2);
    assert(raw.subrange(0, 4) =~= codec::le(m.offset as nat, 4));
    assert(raw.subrange(n - 2, n) =~= codec::le(m.first_key.key.len() + 8, 2));
    assert(raw.subrange(4, 4 + first_len) =~= meta_key_bytes(m.first_key));
    assert(raw.subrange(4 + first_len, n - 2) =~= meta_key_bytes(m.last_key));
}

proof fn lemma_quads(chunks: Seq<Seq<u8>>, i: int)
    requires
        forall|j: int| 0 <= j < chunks.len() ==> (#[trigger] chunks[j]).len() == 4,
        0 <= i <= chunks.len(),
    ensures
        codec::chunk_start(chunks, i) == 4 * i,
        codec::concat(chunks).len() == 4 * chunks.len(),
    decreases chunks.len(), i,
{
    codec::lemma_chunk_start_ends(chunks);
    if i > 0 {
        lemma_quads(chunks, i - 1);
        codec::lemma_chunk_at(chunks, i - 1);
    } else if chunks.len() > 0 {
        lemma_quads(chunks.drop_last(), 0);
    }
}

/// Decoding the metadata that was encoded behind other bytes gives it back.
pub proof fn lemma_metas_round_trip(front: Seq<u8>, ms: Seq<VMeta>)
    requires
        forall|i: int| 0 <= i < ms.len() ==> meta_fits(#[trigger] ms[i]),
        front.len() + encoded_metas(front.len() as int, ms).len() <= u32::MAX,
    ensures
        parse_metas(front + encoded_metas(front.len() as int, ms)) == Some(ms),
{
    let base = front.len() as int;
    let raw = front + encoded_metas(base, ms);
    let chunks = meta_chunks(ms);
    let quads = meta_offset_chunks(base, ms);
    let metas = codec::concat(chunks);
    let section = front + metas;
    codec::lemma_pow256();
    lemma_quads(quads, 0);
    codec::lemma_from_le_of_le(ms.len(), 4);
    assert(raw.skip(raw.len() - 4) =~= codec::le(ms.len(), 4));
    assert(num_metas(raw) == ms.len());
    assert(offsets_at(raw) == section.len());
    assert(raw.take(offsets_at(raw)) =~= section);
    let offsets = stored_offsets(raw);
    assert forall|i: int| 0 <= i < ms.len() implies #[trigger] offsets[i] == base
        + codec::chunk_start(chunks, i) && codec::chunk_start(chunks, i) <= metas.len() by {
        lemma_quads(quads, i);
        lemma_quads(quads, i + 1);
        codec::lemma_chunk_at(quads, i);
        codec::lemma_chunk_at(chunks, i);
        let at = section.len() + 4 * i;
        assert(raw.subrange(at, at + 4) =~= codec::concat(quads).subrange(4 * i, 4 * i + 4));
        codec::lemma_from_le_of_le((base + codec::chunk_start(chunks, i)) as nat, 4);
    }
    assert forall|i: int| 0 <= i < ms.len() implies #[trigger] meta_ok(offsets, i, section)
        && meta_at(offsets, i, section) == ms[i] by {
        assert(meta_fits(ms[i]));
        lemma_meta_chunk(ms[i]);
        codec::lemma_chunk_at(chunks, i);
        codec::lemma_chunk_start_ends(chunks);
        assert(offsets[i] == base + codec::chunk_start(chunks, i));
        if i + 1 < ms.len() {
            assert(offsets[i + 1] == base + codec::chunk_start(chunks, i + 1));
        }
        assert(raw_meta(offsets, i, section) =~= meta_chunk(ms[i])) by {
            let n = codec::chunk_start(chunks, i + 1);
            assert(metas.subrange(codec::chunk_start(chunks, i), n) =~= chunks[i]);
            assert(section.subrange(base + codec::chunk_start(chunks, i), base + n)
                =~= metas.subrange(codec::chunk_start(chunks, i), n));
        }
        assert(meta_at(offsets, i, section) =~= ms[i]);
    }
    assert(metas_ok(raw));
    let parsed = parse_metas(raw)->0;
    assert forall|i: int| 0 <= i < ms.len() implies #[trigger] parsed[i] == ms[i] by {
        assert(meta_ok(offsets, i, section));
    }
    assert(parsed =~= ms);
}

impl Clone for BlockMeta {
    fn clone(&self) -> (r: BlockMeta)
        ensures
            r@ == self@,
    {
        BlockMeta {
            offset: self.offset,
            first_key: self.first_key.clone(),
            last_key: self.last_key.clone(),
        }
    }
}

impl BlockMeta {
    /// Encode block meta to a buffer.
    pub fn encode_block_meta(block_meta: &[BlockMeta], buf: &mut Vec<u8>)
        requires
            forall|i: int|
                0 <= i < block_meta@.len() ==> (#[trigger] block_meta@[i]).first_key@.key.len() + 8
                    <= usize::MAX,
        ensures
            final(buf)@ == old(buf)@ + encoded_metas(
                old(buf)@.len() as int,
                meta_views(block_meta@),
            ),
    {
        let ghost ms = meta_views(block_meta@);
        let ghost chunks = meta_chunks(ms);
        let ghost base = buf@.len() as int;
        let mut meta_offsets: Vec<u64> = Vec::new();
        let mut i: usize = 0;
        assert(buf@ =~= old(buf)@ + codec::concat(chunks.take(0)));
        // Block meta section
        while i < block_meta.len()
            invariant
                i <= block_meta@.len(),
                forall|j: int|
                    0 <= j < block_meta@.len() ==> (#[trigger] block_meta@[j]).first_key@.key.len() + 8
                        <= usize::MAX,
                ms == meta_views(block_meta@),
                chunks == meta_chunks(ms),
                base == old(buf)@.len(),
                buf@ == old(buf)@ + codec::concat(chunks.take(i as int)),
                meta_offsets@.len() == i,
                forall|j: int|
                    0 <= j < i ==> #[trigger] meta_offsets@[j] == base + codec::chunk_start(chunks, j),
            decreases block_meta@.len() - i,
        {
            let meta = &block_meta[i];
            let ghost before = buf@;
            meta_offsets.push(buf.len() as u64);
            put_le(buf, meta.offset as u64, META_OFFSET_SIZE);
            put_slice(buf, meta.first_key.key_ref());
            put_le(buf, meta.first_key.ts(), TS_SIZE);
            put_slice(buf, meta.last_key.key_ref());
            put_le(buf, meta.last_key.ts(), TS_SIZE);
            put_le(buf, meta.first_key.raw_len() as u64, FIRST_KEY_LEN_SIZE);
            proof {
                assert(ms[i as int] == block_meta@[i as int]@);
                assert(buf@ =~= before + meta_chunk(ms[i as int]));
                assert(chunks.take(i + 1) =~= chunks.take(i as int).push(chunks[i as int]));
                codec::lemma_concat_push(chunks.take(i as int), chunks[i as int]);
                assert(buf@ =~= old(buf)@ + codec::concat(chunks.take(i + 1)));
            }
            i = i + 1;
        }
        assert(chunks.take(i as int) =~= chunks);
        let ghost quads = meta_offset_chunks(base, ms);
        let ghost section = buf@;
        let mut j: usize = 0;
        assert(buf@ =~= section + codec::concat(quads.take(0)));
        // Meta offsets section
        while j < meta_offsets.len()
            invariant
                j <= meta_offsets@.len(),
                meta_offsets@.len() == ms.len(),
                chunks == meta_chunks(ms),
                quads == meta_offset_chunks(base, ms),
                forall|m: int|
                    0 <= m < meta_offsets@.len() ==> #[trigger] meta_offsets@[m] == base
                        + codec::chunk_start(chunks, m),
                buf@ == section + codec::concat(quads.take(j as int)),
            decreases meta_offsets@.len() - j,
        {
            put_le(buf, meta_offsets[j], META_OFFSET_SIZE);
            proof {
                assert(quads.take(j + 1) =~= quads.take(j as int).push(quads[j as int]));
                codec::lemma_concat_push(quads.take(j as int), quads[j as int]);
                assert(buf@ =~= section + codec::concat(quads.take(j + 1)));
            }
            j = j + 1;
        }
        assert(quads.take(j as int) =~= quads);
        // Num of meta
        put_le(buf, meta_offsets.len() as u64, NUM_OF_BLOCKS_SIZE);
        assert(buf@ =~= old(buf)@ + encoded_metas(base, ms));
    }

    /// Reads the metadata of one block.
    pub fn extract_meta(meta_offsets: &[u32], meta_index: usize, meta_section: &[u8]) -> (r: BlockMeta)
        requires
            meta_index < meta_offsets@.len(),
            meta_ok(meta_offsets@, meta_index as int, meta_section@),
        ensures
            r@ == meta_at(meta_offsets@, meta_index as int, meta_section@),
    {
        let meta_start: usize = meta_offsets[meta_index] as usize;
        let meta_end: usize = if meta_index == meta_offsets.len() - 1 {
            meta_section.len()
        } else {
            meta_offsets[meta_index + 1] as usize
        };
        let raw: &[u8] = vstd::slice::slice_subrange(meta_section, meta_start, meta_end);
        let len: usize = raw.len();
        let offset: usize = get_u32_le(raw, 0) as usize;
        let first_key_len: usize = get_u16_le(raw, len - 2);

        let first_key_start: usize = META_OFFSET_SIZE;
        let last_key_start: usize = first_key_start + first_key_len;
        let last_key_end: usize = len - FIRST_KEY_LEN_SIZE;

        let first_key = Self::read_key(
            vstd::slice::slice_subrange(raw, first_key_start, last_key_start),
        );
        let last_key = Self::read_key(
            vstd::slice::slice_subrange(raw, last_key_start, last_key_end),
        );
        BlockMeta { offset, first_key, last_key }
    }

    /// Reads a key followed by its little-endian timestamp.
    fn read_key(raw: &[u8]) -> (r: KeyBytes)
        requires
            raw@.len() >= 8,
        ensures
            r@ == key_of_meta_bytes(raw@),
    {
        let len: usize = raw.len();
        let ts: u64 = get_u64_le(raw, len - TS_SIZE);
        let key: Vec<u8> = copy_slice(vstd::slice::slice_subrange(raw, 0, len - TS_SIZE));
        assert(raw@.subrange(len - 8, len as int) =~= raw@.skip(raw@.len() - 8));
        assert(key@ =~= raw@.take(raw@.len() - 8));
        KeyVec::from_bytes_with_ts(key, ts)
    }

    /// Whether `extract_meta` can read the metadata of one block.
    fn check_meta(meta_offsets: &[u32], meta_index: usize, meta_section: &[u8]) -> (r: bool)
        requires
            meta_index < meta_offsets@.len(),
        ensures
            r == meta_ok(meta_offsets@, meta_index as int, meta_section@),
    {
        let meta_start: usize = meta_offsets[meta_index] as usize;
        let meta_end: usize = if meta_index == meta_offsets.len() - 1 {
            meta_section.len()
        } else {
            meta_offsets[meta_index + 1] as usize
        };
        if meta_start > meta_end || meta_end > meta_section.len() {
            return false;
        }
        let raw: &[u8] = vstd::slice::slice_subrange(meta_section, meta_start, meta_end);
        let len: usize = raw.len();
        if len < 6 {
            return false;
        }
        let first_key_len: usize = get_u16_le(raw, len - 2);
        first_key_len >= TS_SIZE && META_OFFSET_SIZE + first_key_len + TS_SIZE + 2 <= len
    }

    /// Decode block meta from a buffer. `None` where the buffer holds no encoded block meta.
    pub fn try_decode_block_meta(raw: &[u8]) -> (r: Option<Vec<BlockMeta>>)
        ensures
            parse_metas(raw@) == match r {
                Some(metas) => Some(meta_views(metas@)),
                None => None,
            },
    {
        let len: usize = raw.len();
        if len < 4 {
            return None;
        }
        let num_of_blocks: usize = get_u32_le(raw, len - 4) as usize;
        assert(raw@.subrange(len - 4, len as int) =~= raw@.skip(len - 4));
        if num_of_blocks > (len - 4) / 4 {
            return None;
        }
        let first_offset_index: usize = len - NUM_OF_BLOCKS_SIZE - num_of_blocks * META_OFFSET_SIZE;
        let mut meta_offsets: Vec<u32> = Vec::new();
        let mut i: usize = 0;
        while i < num_of_blocks
            invariant
                i <= num_of_blocks == num_metas(raw@),
                num_of_blocks <= (len - 4) / 4,
                len == raw@.len(),
                len >= 4,
                first_offset_index == offsets_at(raw@),
                meta_offsets@ =~= stored_offsets(raw@).take(i as int),
            decreases num_of_blocks - i,
        {
            let offset: u32 = get_u32_le(raw, first_offset_index + 4 * i);
            meta_offsets.push(offset);
            i = i + 1;
        }
        assert(meta_offsets@ =~= stored_offsets(raw@));
        let meta_section: &[u8] = vstd::slice::slice_subrange(raw, 0, first_offset_index);
        assert(meta_section@ =~= raw@.take(offsets_at(raw@)));
        let mut metas: Vec<BlockMeta> = Vec::new();
        let mut m: usize = 0;
        while m < num_of_blocks
            invariant
                m <= num_of_blocks == num_metas(raw@),
                meta_offsets@ == stored_offsets(raw@),
                meta_section@ == raw@.take(offsets_at(raw@)),
                metas@.len() == m,
                forall|j: int|
                    0 <= j < m ==> #[trigger] meta_ok(
                        stored_offsets(raw@),
                        j,
                        raw@.take(offsets_at(raw@)),
                    ),
                forall|j: int|
                    0 <= j < m ==> (#[trigger] metas@[j])@ == meta_at(
                        stored_offsets(raw@),
                        j,
                        raw@.take(offsets_at(raw@)),
                    ),
            decreases num_of_blocks - m,
        {
            if !Self::check_meta(meta_offsets.as_slice(), m, meta_section) {
                return None;
            }
            let meta = Self::extract_meta(meta_offsets.as_slice(), m, meta_section);
            metas.push(meta);
            m = m + 1;
        }
        assert(meta_views(metas@) =~= parse_metas(raw@)->0);
        Some(metas)
    }

    /// Decode block meta from a buffer.
    pub fn decode_block_meta(raw: &[u8]) -> (r: Vec<BlockMeta>)
        requires
            metas_ok(raw@),
        ensures
            parse_metas(raw@) == Some(meta_views(r@)),
    {
        Self::try_decode_block_meta(raw).unwrap()
    }
}

} // verus!
