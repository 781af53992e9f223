//! Building tables.
use std::collections::HashSet;

use vstd::prelude::*;

use crate::block::builder::BlockBuilder;
use crate::codec::{copy_slice, put_le, put_slice};
use crate::key::{KeyBytes, KeySlice, KeyVec, VEntry, VKey, TS_DEFAULT};
use crate::outside::{checksum, try_fingerprint};
use crate::table::bloom::Bloom;
use crate::table::meta::{BlockMeta, VMeta};
use crate::table::{FileObject, SsTable};
use crate::{block, codec, key, outside, table};

verus! {

broadcast use crate::codec::lemma_le_len;

/// The largest block size for which every entry starts at an offset that fits in a u16.
pub const MAX_BLOCK_SIZE: usize = 65535;

/// Bits of the bloom filter for each key.
pub const BITS_PER_KEY: usize = 10;

/// Builds an SSTable from key-value pairs.
pub struct SsTableBuilder {
    pub builder: BlockBuilder,
    pub first_key: Vec<u8>,
    pub last_key: Vec<u8>,
    pub data: Vec<u8>,
    pub meta: Vec<BlockMeta>,
    pub block_size: usize,
    pub key_hash_values: HashSet<u32>,
    /// The largest timestamp added so far.
    pub max_ts: u64,
    /// The entries of the blocks that are finished.
    pub frozen: Ghost<Seq<Seq<VEntry>>>,
}

/// A finished block.
pub open spec fn block_bytes(es: Seq<VEntry>) -> Seq<u8> {
    block::encoded_block(
        codec::concat(block::packed_entries(es)),
        block::offsets_of(block::packed_entries(es)),
    )
}

/// A finished block with its checksum.
pub open spec fn block_chunk(es: Seq<VEntry>) -> Seq<u8> {
    block_bytes(es) + codec::le(outside::crc32(block_bytes(es)) as nat, 4)
}

pub open spec fn block_chunks(blocks: Seq<Seq<VEntry>>) -> Seq<Seq<u8>> {
    Seq::new(blocks.len(), |i: int| block_chunk(blocks[i]))
}

/// The entries of all blocks.
pub open spec fn flat(blocks: Seq<Seq<VEntry>>) -> Seq<VEntry>
    decreases blocks.len(),
{
    if blocks.len() == 0 {
        Seq::empty()
    } else {
        blocks[0] + flat(blocks.drop_first())
    }
}

/// The size of a block: the stored entries, their offsets and their number.
pub open spec fn block_size_of(es: Seq<VEntry>) -> int {
    codec::concat(block::packed_entries(es)).len() + es.len() * 2 + 2int
}

/// A block that is not to become larger than `block_size` has room for one more entry. The first
/// entry always has room.
pub open spec fn has_room(es: Seq<VEntry>, e: VEntry, block_size: int) -> bool {
    es.len() == 0 || block_size_of(es) + 6 + e.value.len() + block::packed_key(
        e.key,
        es[0].key.key,
    ).len() <= block_size
}

/// How entries are spread over blocks: the blocks that are finished, and the current one.
pub open spec fn spread(es: Seq<VEntry>, block_size: int) -> (Seq<Seq<VEntry>>, Seq<VEntry>)
    decreases es.len(),
{
    if es.len() == 0 {
        (Seq::empty(), Seq::empty())
    } else {
        let (finished, current) = spread(es.drop_last(), block_size);
        if has_room(current, es.last(), block_size) {
            (finished, current.push(es.last()))
        } else {
            (finished.push(current), seq![es.last()])
        }
    }
}

/// The estimated size of a table with the given entries: that of its finished blocks with their
/// checksums, and that of the entries and offsets of the current block.
pub open spec fn size_of(es: Seq<VEntry>, block_size: int) -> int {
    let (finished, current) = spread(es, block_size);
    codec::concat(block_chunks(finished)).len() + block_size_of(current) - 2
}

/// The estimated size is 0 exactly while nothing has been added.
pub proof fn lemma_size_starts(es: Seq<VEntry>, block_size: int)
    ensures
        size_of(es, block_size) == 0 <==> es.len() == 0,
        size_of(es, block_size) >= 0,
{
    if es.len() == 0 {
        assert(block_chunks(Seq::empty()) =~= Seq::empty());
        assert(block::packed_entries(Seq::empty()) =~= Seq::empty());
    } else {
        assert(spread(es, block_size).1.len() > 0);
    }
}

/// An entry makes a table grow by the value at least, the lengths of key and value, and an offset.
pub proof fn lemma_size_grows(es: Seq<VEntry>, e: VEntry, block_size: int)
    ensures
        size_of(es.push(e), block_size) >= size_of(es, block_size) + e.value.len() + 6,
{
    let (finished, current) = spread(es, block_size);
    assert(es.push(e).drop_last() =~= es);
    if has_room(current, e, block_size) {
        lemma_block_grows(current, e);
    } else {
        assert(block_chunks(finished.push(current)) =~= block_chunks(finished).push(
            block_chunk(current),
        ));
        codec::lemma_concat_push(block_chunks(finished), block_chunk(current));
        block::lemma_offset_chunks_len(block::offsets_of(block::packed_entries(current)));
        codec::lemma_le_len(current.len(), 2);
        lemma_block_grows(Seq::empty(), e);
        assert(Seq::empty().push(e) =~= seq![e]);
        assert(block::packed_entries(Seq::empty()) =~= Seq::empty());
    }
}

/// The bytes of a finished block.
proof fn lemma_block_len(es: Seq<VEntry>)
    ensures
        block_bytes(es).len() == block_size_of(es),
{
    block::lemma_offset_chunks_len(block::offsets_of(block::packed_entries(es)));
    codec::lemma_le_len(es.len(), 2);
}

proof fn lemma_block_with_one_more(es: Seq<VEntry>, e: VEntry)
    requires
        es.len() > 0,
    ensures
        block_size_of(es.push(e)) == block_size_of(es) + 6 + e.value.len() + block::packed_key(
            e.key,
            es[0].key.key,
        ).len(),
{
    let all = es.push(e);
    let n = es.len() as int;
    assert(block::packed_entries(all) =~= block::packed_entries(es).push(
        block::packed_entry(all, n),
    )) by {
        assert forall|i: int| 0 <= i < n implies block::packed_entry(all, i)
            == block::packed_entry(es, i) by {
            assert(all[i] == es[i] && all[0] == es[0]);
        }
    }
    codec::lemma_concat_push(block::packed_entries(es), block::packed_entry(all, n));
    codec::lemma_le_len(block::packed_key(all[n].key, all[0].key.key).len(), 2);
    codec::lemma_le_len(e.value.len(), 2);
}

/// How entries lie in blocks: they are all there, in their order. A block of more than one entry has
/// no more bytes than the block size. A block is finished only where it would have more with the next
/// entry.
pub proof fn lemma_blocks_filled(es: Seq<VEntry>, block_size: int)
    ensures
        ({
            let (finished, current) = spread(es, block_size);
            let blocks = finished.push(current);
            &&& flat(blocks) == es
            &&& es.len() > 0 ==> forall|i: int| 0 <= i < blocks.len() ==> (#[trigger] blocks[i]).len() > 0
            &&& forall|i: int|
                0 <= i < blocks.len() && (#[trigger] blocks[i]).len() > 1 ==> block_bytes(
                    blocks[i],
                ).len() <= block_size
            &&& forall|i: int|
                0 <= i < finished.len() ==> block_bytes(
                    (#[trigger] blocks[i]).push(blocks[i + 1][0]),
                ).len() > block_size
        }),
    decreases es.len(),
{
    let (finished, current) = spread(es, block_size);
    let blocks = finished.push(current);
    lemma_flat_push(finished, current);
    if es.len() == 0 {
        assert(flat(finished) =~= Seq::empty());
        assert(flat(blocks) =~= es);
    } else {
        let front = es.drop_last();
        let e = es.last();
        let (f, c) = spread(front, block_size);
        let before = f.push(c);
        lemma_blocks_filled(front, block_size);
        lemma_flat_push(f, c);
        assert(front.push(e) =~= es);
        if has_room(c, e, block_size) {
            assert(blocks == f.push(c.push(e)));
            assert(flat(blocks) =~= es);
            lemma_block_len(c.push(e));
            if c.len() > 0 {
                lemma_block_with_one_more(c, e);
            } else {
                assert(front.len() == 0) by {
                    if front.len() > 0 {
                        assert(before[f.len() as int].len() > 0);
                    }
                }
                assert(f =~= Seq::empty());
            }
            assert forall|i: int| 0 <= i < finished.len() implies block_bytes(
                (#[trigger] blocks[i]).push(blocks[i + 1][0]),
            ).len() > block_size by {
                assert(blocks[i] == before[i]);
                assert(blocks[i + 1][0] == before[i + 1][0]);
            }
            assert forall|i: int| 0 <= i < blocks.len() implies (#[trigger] blocks[i]).len() > 0
                && (blocks[i].len() > 1 ==> block_bytes(blocks[i]).len() <= block_size) by {
                if i < f.len() {
                    assert(blocks[i] == before[i]);
                }
            }
        } else {
            assert(blocks == f.push(c).push(seq![e]));
            lemma_flat_push(f.push(c), seq![e]);
            assert(flat(blocks) =~= es);
            lemma_block_with_one_more(c, e);
            lemma_block_len(c.push(e));
            assert forall|i: int| 0 <= i < finished.len() implies block_bytes(
                (#[trigger] blocks[i]).push(blocks[i + 1][0]),
            ).len() > block_size by {
                if i < f.len() {
                    assert(blocks[i] == before[i]);
                    assert(blocks[i + 1] == before[i + 1]);
                }
            }
            assert forall|i: int| 0 <= i < blocks.len() implies (#[trigger] blocks[i]).len() > 0
                && (blocks[i].len() > 1 ==> block_bytes(blocks[i]).len() <= block_size) by {
                if i < finished.len() {
                    assert(blocks[i] == before[i]);
                }
            }
        }
    }
}

/// Finishing the current block adds the number of its entries and its checksum to the estimated size.
proof fn lemma_size_of_blocks(es: Seq<VEntry>, block_size: int)
    requires
        es.len() > 0,
    ensures
        ({
            let (finished, current) = spread(es, block_size);
            &&& current.len() > 0
            &&& codec::concat(block_chunks(finished.push(current))).len() == size_of(es, block_size)
                + 6
        }),
{
    let (finished, current) = spread(es, block_size);
    assert(block_chunks(finished.push(current)) =~= block_chunks(finished).push(
        block_chunk(current),
    ));
    codec::lemma_concat_push(block_chunks(finished), block_chunk(current));
    block::lemma_offset_chunks_len(block::offsets_of(block::packed_entries(current)));
    codec::lemma_le_len(current.len(), 2);
}

/// An entry makes a table grow by no more than its key and its value, and 28 bytes: its timestamp,
/// the lengths of key and value, an offset, and what may have to be added to finish a block.
pub proof fn lemma_size_grows_little(es: Seq<VEntry>, e: VEntry, block_size: int)
    ensures
        size_of(es.push(e), block_size) <= size_of(es, block_size) + e.key.key.len() + e.value.len()
            + 28,
{
    let (finished, current) = spread(es, block_size);
    assert(es.push(e).drop_last() =~= es);
    if has_room(current, e, block_size) {
        lemma_block_grows_little(current, e);
    } else {
        assert(block_chunks(finished.push(current)) =~= block_chunks(finished).push(
            block_chunk(current),
        ));
        codec::lemma_concat_push(block_chunks(finished), block_chunk(current));
        block::lemma_offset_chunks_len(block::offsets_of(block::packed_entries(current)));
        codec::lemma_le_len(current.len(), 2);
        lemma_block_grows_little(Seq::empty(), e);
        assert(Seq::empty().push(e) =~= seq![e]);
        assert(block::packed_entries(Seq::empty()) =~= Seq::empty());
    }
}

proof fn lemma_block_grows_little(es: Seq<VEntry>, e: VEntry)
    ensures
        block_size_of(es.push(e)) <= block_size_of(es) + e.key.key.len() + e.value.len() + (
        if es.len() == 0 {
            14int
        } else {
            18int
        }),
{
    let all = es.push(e);
    let n = es.len() as int;
    assert(block::packed_entries(all) =~= block::packed_entries(es).push(
        block::packed_entry(all, n),
    )) by {
        assert forall|i: int| 0 <= i < n implies block::packed_entry(all, i)
            == block::packed_entry(es, i) by {
            assert(all[i] == es[i] && all[0] == es[0]);
        }
    }
    codec::lemma_concat_push(block::packed_entries(es), block::packed_entry(all, n));
    let stored = if n == 0 {
        key::raw_of_key(all[0].key)
    } else {
        block::packed_key(all[n].key, all[0].key.key)
    };
    codec::lemma_le_len(stored.len(), 2);
    codec::lemma_le_len(e.value.len(), 2);
    block::lemma_overlap(all[n].key.key, all[0].key.key);
    codec::lemma_from_be_of_be(all[0].key.ts);
}

proof fn lemma_block_grows(es: Seq<VEntry>, e: VEntry)
    ensures
        block_size_of(es.push(e)) >= block_size_of(es) + e.value.len() + 6,
{
    let all = es.push(e);
    let n = es.len() as int;
    assert(block::packed_entries(all) =~= block::packed_entries(es).push(
        block::packed_entry(all, n),
    )) by {
        assert forall|i: int| 0 <= i < n implies block::packed_entry(all, i)
            == block::packed_entry(es, i) by {
            assert(all[i] == es[i] && all[0] == es[0]);
        }
    }
    codec::lemma_concat_push(block::packed_entries(es), block::packed_entry(all, n));
    let stored = if n == 0 {
        key::raw_of_key(all[0].key)
    } else {
        block::packed_key(all[n].key, all[0].key.key)
    };
    codec::lemma_le_len(stored.len(), 2);
    codec::lemma_le_len(e.value.len(), 2);
}

pub open spec fn empty_key() -> VKey {
    VKey { key: Seq::empty(), ts: TS_DEFAULT }
}

/// The metadata of finished block `i`.
pub open spec fn built_meta(blocks: Seq<Seq<VEntry>>, i: int) -> VMeta {
    VMeta {
        offset: codec::chunk_start(block_chunks(blocks), i),
        first_key: blocks[i][0].key,
        last_key: blocks[i].last().key,
    }
}

/// The metadata of a table: that of its blocks, or that of one empty block where it has none.
pub open spec fn built_metas(blocks: Seq<Seq<VEntry>>) -> Seq<VMeta> {
    if blocks.len() == 0 {
        seq![VMeta { offset: 0, first_key: empty_key(), last_key: empty_key() }]
    } else {
        Seq::new(blocks.len(), |i: int| built_meta(blocks, i))
    }
}

/// The file of a table.
pub open spec fn built_file(data: Seq<u8>, ms: Seq<VMeta>, bloom: Seq<u8>) -> Seq<u8> {
    let metas = table::meta::encoded_metas(0, ms);
    let head = data + codec::le(ms.len(), 4) + metas + codec::le(outside::crc32(metas) as nat, 4)
        + codec::le(data.len(), 4);
    head + bloom + codec::le(head.len(), 4)
}

pub proof fn lemma_flat_push(blocks: Seq<Seq<VEntry>>, b: Seq<VEntry>)
    ensures
        flat(blocks.push(b)) == flat(blocks) + b,
    decreases blocks.len(),
{
    if blocks.len() == 0 {
        assert(flat(blocks) =~= Seq::empty());
        assert(flat(blocks.push(b).drop_first()) =~= Seq::empty());
        assert(flat(blocks.push(b)) =~= flat(blocks) + b);
    } else {
        lemma_flat_push(blocks.drop_first(), b);
        assert(blocks.push(b).drop_first() =~= blocks.drop_first().push(b));
        assert(flat(blocks.push(b)) =~= flat(blocks) + b);
    }
}

/// The entries of all blocks are those of the first few and those of the others.
pub proof fn lemma_flat_split(blocks: Seq<Seq<VEntry>>, i: int)
    requires
        0 <= i <= blocks.len(),
    ensures
        flat(blocks) == flat(blocks.take(i)) + flat(blocks.skip(i)),
    decreases i,
{
    if i == 0 {
        assert(blocks.skip(0) =~= blocks);
        assert(flat(blocks.take(0)) =~= Seq::empty());
        assert(flat(blocks) =~= flat(blocks.take(0)) + flat(blocks.skip(0)));
    } else {
        lemma_flat_split(blocks, i - 1);
        let front = blocks.take(i - 1);
        assert(blocks.take(i) =~= front.push(blocks[i - 1]));
        lemma_flat_push(front, blocks[i - 1]);
        assert(blocks.skip(i - 1).drop_first() =~= blocks.skip(i));
        assert(flat(blocks.skip(i - 1)) == blocks[i - 1] + flat(blocks.skip(i)));
        assert(flat(front) + (blocks[i - 1] + flat(blocks.skip(i))) =~= (flat(front) + blocks[i - 1])
            + flat(blocks.skip(i)));
    }
}

proof fn lemma_chunks_push(blocks: Seq<Seq<VEntry>>, b: Seq<VEntry>)
    ensures
        block_chunks(blocks.push(b)) == block_chunks(blocks).push(block_chunk(b)),
        forall|i: int|
            0 <= i < blocks.len() ==> #[trigger] built_meta(blocks.push(b), i) == built_meta(blocks, i),
{
    let all = blocks.push(b);
    assert(block_chunks(all) =~= block_chunks(blocks).push(block_chunk(b)));
    assert forall|i: int| 0 <= i < blocks.len() implies #[trigger] built_meta(all, i) == built_meta(
        blocks,
        i,
    ) by {
        assert(block_chunks(all).take(i) =~= block_chunks(blocks).take(i));
    }
}

/// Every stored entry takes at least 13 bytes.
proof fn lemma_entries_take_room(es: Seq<VEntry>)
    requires
        forall|i: int| 0 <= i < es.len() ==> (#[trigger] es[i]).key.key.len() > 0,
    ensures
        13 * es.len() <= codec::concat(block::packed_entries(es)).len(),
    decreases es.len(),
{
    if es.len() > 0 {
        let front = es.drop_last();
        lemma_entries_take_room(front);
        assert(block::packed_entries(es).drop_last() =~= block::packed_entries(front)) by {
            assert forall|i: int| 0 <= i < front.len() implies block::packed_entries(es)[i]
                == block::packed_entries(front)[i] by {
                assert(front[i] == es[i]);
                assert(front[0] == es[0]);
            }
        }
        let n = es.len() - 1;
        block::lemma_overlap(es[n].key.key, es[0].key.key);
        codec::lemma_from_be_of_be(es[0].key.ts);
    }
}

/// A block under construction stays small.
proof fn lemma_builder_is_small(b: BlockBuilder)
    requires
        b.wf(),
        block::entries_fit(b.entries()),
        b.block_size <= MAX_BLOCK_SIZE,
    ensures
        b.encoded_size() <= 140000,
        b.entries().len() <= u16::MAX,
        13 * b.entries().len() <= b.data@.len(),
{
    lemma_entries_take_room(b.entries());
    let es = b.entries();
    if es.len() == 1 {
        assert(block::entry_fits(es[0]));
        let chunks = block::packed_entries(es);
        codec::lemma_chunk_at(chunks, 0);
        codec::lemma_chunk_start_ends(chunks);
        codec::lemma_from_be_of_be(es[0].key.ts);
    } else if es.len() == 0 {
        assert(block::packed_entries(es) =~= Seq::empty());
    }
}

/// Blocks as a builder finishes them: none is empty, and the stored form can hold their entries.
pub open spec fn blocks_fit(blocks: Seq<Seq<VEntry>>) -> bool {
    forall|i: int|
        0 <= i < blocks.len() ==> (#[trigger] blocks[i]).len() > 0 && blocks[i].len() <= u16::MAX
            && block::entries_fit(blocks[i])
}

/// A file that begins with chunks holds each of them at its place.
proof fn lemma_chunk_in_file(
    bytes: Seq<u8>,
    chunks: Seq<Seq<u8>>,
    i: int,
    body: Seq<u8>,
    sum: Seq<u8>,
)
    requires
        0 <= i < chunks.len(),
        chunks[i] == body + sum,
        codec::concat(chunks).len() <= bytes.len(),
        bytes.take(codec::concat(chunks).len() as int) == codec::concat(chunks),
    ensures
        0 <= codec::chunk_start(chunks, i),
        codec::chunk_start(chunks, i + 1) == codec::chunk_start(chunks, i) + body.len() + sum.len(),
        codec::chunk_start(chunks, i + 1) <= bytes.len(),
        bytes.subrange(
            codec::chunk_start(chunks, i),
            codec::chunk_start(chunks, i + 1) - sum.len(),
        ) == body,
{
    let data = codec::concat(chunks);
    let start = codec::chunk_start(chunks, i);
    let end = codec::chunk_start(chunks, i + 1);
    codec::lemma_chunk_at(chunks, i);
    assert(bytes.subrange(start, end) =~= bytes.take(data.len() as int).subrange(start, end));
    assert(chunks[i].take(body.len() as int) =~= body);
    assert(bytes.subrange(start, end - sum.len()) =~= bytes.subrange(start, end).take(
        body.len() as int,
    ));
}

/// A file that begins with finished blocks gives back the entries of each of them.
#[verifier::spinoff_prover]
proof fn lemma_parsed_blocks(bytes: Seq<u8>, blocks: Seq<Seq<VEntry>>, i: int)
    requires
        blocks_fit(blocks),
        codec::concat(block_chunks(blocks)).len() <= bytes.len(),
        bytes.take(codec::concat(block_chunks(blocks)).len() as int) == codec::concat(
            block_chunks(blocks),
        ),
        0 <= i < blocks.len(),
    ensures
        ({
            let ms = built_metas(blocks);
            let end = codec::concat(block_chunks(blocks)).len() as int;
            &&& table::parsed_block(bytes, ms[i].offset, table::block_end(ms, end, i)) == Ok::<
                Seq<VEntry>,
                crate::error::LsmError,
            >(blocks[i])
            &&& table::block_entries(bytes, ms, end, i) == blocks[i]
        }),
{
    let ms = built_metas(blocks);
    let chunks = block_chunks(blocks);
    let data = codec::concat(chunks);
    let start = codec::chunk_start(chunks, i);
    let end = codec::chunk_start(chunks, i + 1);
    codec::lemma_chunk_start_ends(chunks);
    assert(table::block_end(ms, data.len() as int, i) == end);
    let b = block_bytes(blocks[i]);
    lemma_chunk_in_file(bytes, chunks, i, b, codec::le(outside::crc32(b) as nat, 4));
    assert(ms[i].offset == start);
    assert(table::raw_block(bytes, start, end) == Ok::<Seq<u8>, crate::error::LsmError>(b));
    block::lemma_block_round_trip(blocks[i]);
}

/// A file that begins with finished blocks gives back all their entries.
proof fn lemma_entries_of_blocks(bytes: Seq<u8>, blocks: Seq<Seq<VEntry>>, i: int)
    requires
        blocks_fit(blocks),
        codec::concat(block_chunks(blocks)).len() <= bytes.len(),
        bytes.take(codec::concat(block_chunks(blocks)).len() as int) == codec::concat(
            block_chunks(blocks),
        ),
        0 <= i <= blocks.len(),
    ensures
        table::entries_from(
            bytes,
            built_metas(blocks),
            codec::concat(block_chunks(blocks)).len() as int,
            i,
        ) == flat(blocks.skip(i)),
    decreases blocks.len() - i,
{
    let ms = built_metas(blocks);
    let end = codec::concat(block_chunks(blocks)).len() as int;
    if blocks.len() == 0 {
        assert(block_chunks(blocks) =~= Seq::empty());
        assert(table::block_entries(bytes, ms, end, 0) =~= Seq::empty());
        assert(table::entries_from(bytes, ms, end, 1) =~= Seq::empty());
        assert(table::entries_from(bytes, ms, end, 0) =~= flat(blocks.skip(0)));
    } else if i < blocks.len() {
        lemma_entries_of_blocks(bytes, blocks, i + 1);
        lemma_parsed_blocks(bytes, blocks, i);
        assert(blocks.skip(i).drop_first() =~= blocks.skip(i + 1));
    }
}

/// The set holds the fingerprints of the entries' keys, as far as they have one, and nothing else.
#[verifier::opaque]
pub open spec fn hashes_ok(hashes: Set<u32>, es: Seq<VEntry>) -> bool {
    &&& hashes.finite()
    &&& hashes.len() <= es.len()
    &&& forall|i: int|
        0 <= i < es.len() && outside::hashable((#[trigger] es[i]).key.key) ==> hashes.contains(
            outside::fingerprint(es[i].key.key),
        )
    &&& forall|h: u32| #[trigger]
        hashes.contains(h) ==> exists|i: int|
            0 <= i < es.len() && outside::hashable((#[trigger] es[i]).key.key)
                && outside::fingerprint(es[i].key.key) == h
}

/// The fingerprints with that of one more key, if it has one.
pub open spec fn with_hash(hashes: Set<u32>, key: Seq<u8>) -> Set<u32> {
    if outside::hashable(key) {
        hashes.insert(outside::fingerprint(key))
    } else {
        hashes
    }
}

proof fn lemma_hashes_push(hashes: Set<u32>, es: Seq<VEntry>, e: VEntry)
    requires
        hashes_ok(hashes, es),
    ensures
        hashes_ok(with_hash(hashes, e.key.key), es.push(e)),
{
    reveal(hashes_ok);
    let hash = outside::fingerprint(e.key.key);
    let more = with_hash(hashes, e.key.key);
    let all = es.push(e);
    assert forall|i: int|
        0 <= i < all.len() && outside::hashable((#[trigger] all[i]).key.key) implies more.contains(
        outside::fingerprint(all[i].key.key),
    ) by {
        if i < es.len() {
            assert(hashes.contains(outside::fingerprint(es[i].key.key)));
        }
    }
    assert forall|h: u32| #[trigger] more.contains(h) implies exists|i: int|
        0 <= i < all.len() && outside::hashable((#[trigger] all[i]).key.key)
            && outside::fingerprint(all[i].key.key) == h by {
        if outside::hashable(e.key.key) && h == hash {
            assert(all[es.len() as int] == e);
        } else {
            assert(hashes.contains(h));
            let i = choose|i: int|
                0 <= i < es.len() && outside::hashable((#[trigger] es[i]).key.key)
                    && outside::fingerprint(es[i].key.key) == h;
            assert(all[i] == es[i]);
        }
    }
}

pub proof fn lemma_max_ts_push(es: Seq<VEntry>, e: VEntry)
    ensures
        table::max_ts_of(es.push(e)) == (if e.key.ts > table::max_ts_of(es) {
            e.key.ts
        } else {
            table::max_ts_of(es)
        }),
{
    assert(es.push(e).drop_last() =~= es);
}

proof fn lemma_first_key_fits(b: SsTableBuilder)
    requires
        b.wf(),
    ensures
        b.entries().len() > 0 ==> b.first_key@.len() > 0,
{
    let f = b.frozen@;
    if f.len() > 0 {
        assert(f[0].len() > 0 && block::entries_fit(f[0]));
        assert(b.entries()[0] == f[0][0]);
        assert(block::entry_fits(f[0][0]));
    } else if b.entries().len() > 0 {
        assert(flat(f) =~= Seq::empty());
        assert(b.entries()[0] == b.builder.entries()[0]);
        assert(block::entry_fits(b.builder.entries()[0]));
    }
}

impl SsTableBuilder {
    /// The entries added so far.
    pub open spec fn entries(&self) -> Seq<VEntry> {
        flat(self.frozen@) + self.builder.entries()
    }

    /// The blocks that are finished have been written, and their metadata is right.
    pub open spec fn frozen_ok(&self) -> bool {
        &&& forall|i: int|
            0 <= i < self.frozen@.len() ==> (#[trigger] self.frozen@[i]).len() > 0
                && self.frozen@[i].len() <= u16::MAX && block::entries_fit(self.frozen@[i])
        &&& self.data@ == codec::concat(block_chunks(self.frozen@))
        &&& 13 * flat(self.frozen@).len() <= self.data@.len()
        &&& self.meta@.len() == self.frozen@.len() + 1
        &&& forall|i: int|
            0 <= i < self.frozen@.len() ==> (#[trigger] self.meta@[i])@ == built_meta(self.frozen@, i)
        &&& self.meta@.last()@.offset == self.data@.len()
        &&& self.meta@.last()@.first_key == empty_key()
        &&& self.meta@.last()@.last_key == empty_key()
    }

    pub open spec fn wf(&self) -> bool {
        &&& self.builder.wf()
        &&& self.builder.block_size == self.block_size
        &&& self.block_size <= MAX_BLOCK_SIZE
        &&& block::entries_fit(self.builder.entries())
        &&& self.frozen_ok()
        &&& hashes_ok(self.key_hash_values@, self.entries())
        &&& self.first_key@ == (if self.entries().len() > 0 {
            self.entries()[0].key.key
        } else {
            Seq::empty()
        })
        &&& self.max_ts == table::max_ts_of(self.entries())
    }

    /// The entries are spread over blocks as adding them one after another spreads them.
    pub open spec fn spread_ok(&self) -> bool {
        (self.frozen@, self.builder.entries()) == spread(self.entries(), self.block_size as int)
    }

    /// Create a builder based on target block size.
    pub fn new(block_size: usize) -> (r: Self)
        requires
            block_size <= MAX_BLOCK_SIZE,
        ensures
            r.wf(),
            r.frozen@ == Seq::<Seq<VEntry>>::empty(),
            r.builder.entries() == Seq::<VEntry>::empty(),
            r.entries() == Seq::<VEntry>::empty(),
            r.block_size == block_size,
            r.spread_ok(),
            r.data@.len() == 0,
    {
        broadcast use vstd::std_specs::hash::group_hash_axioms;

        let mut meta: Vec<BlockMeta> = Vec::new();
        meta.push(BlockMeta { offset: 0, first_key: KeyVec::new(), last_key: KeyVec::new() });
        let r = Self {
            builder: BlockBuilder::new(block_size),
            first_key: Vec::new(),
            last_key: Vec::new(),
            data: Vec::new(),
            meta,
            block_size,
            key_hash_values: HashSet::new(),
            max_ts: 0,
            frozen: Ghost(Seq::empty()),
        };
        proof {
            assert(r.entries() =~= Seq::empty());
            assert(block_chunks(r.frozen@) =~= Seq::empty());
            assert(r.data@ =~= codec::concat(block_chunks(r.frozen@)));
            assert(r.first_key@ =~= Seq::empty());
            reveal(hashes_ok);
        }
        r
    }

    /// Fill first_key and last_key of the current block meta.
    pub fn fill_block_meta_keys(&mut self)
        requires
            old(self).wf(),
            old(self).builder.entries().len() > 0,
        ensures
            final(self).meta@.len() == old(self).meta@.len(),
            forall|i: int|
                0 <= i < old(self).meta@.len() - 1 ==> #[trigger] final(self).meta@[i]
                    == old(self).meta@[i],
            final(self).meta@.last()@ == (VMeta {
                offset: old(self).meta@.last()@.offset,
                first_key: old(self).builder.entries()[0].key,
                last_key: old(self).builder.entries().last().key,
            }),
            final(self).builder == old(self).builder,
            final(self).first_key == old(self).first_key,
            final(self).last_key == old(self).last_key,
            final(self).data == old(self).data,
            final(self).block_size == old(self).block_size,
            final(self).key_hash_values == old(self).key_hash_values,
            final(self).max_ts == old(self).max_ts,
            final(self).frozen == old(self).frozen,
    {
        let last: usize = self.meta.len() - 1;
        let current_block_meta = BlockMeta {
            offset: self.meta[last].offset,
            first_key: self.builder.get_first_key(),
            last_key: self.builder.get_last_key(),
        };
        self.meta.set(last, current_block_meta);
    }

    /// Encode the current block into Vec<u8> and add it into self.data. Then create a new BlockBuilder.
    pub fn freeze_block(&mut self)
        requires
            old(self).wf(),
            old(self).builder.entries().len() > 0,
        ensures
            final(self).wf(),
            final(self).frozen@ == old(self).frozen@.push(old(self).builder.entries()),
            final(self).builder.entries() == Seq::<VEntry>::empty(),
            final(self).entries() == old(self).entries(),
            final(self).block_size == old(self).block_size,
            final(self).key_hash_values == old(self).key_hash_values,
            final(self).max_ts == old(self).max_ts,
            final(self).data@.len() == old(self).data@.len() + old(self).builder.encoded_size() + 4,
    {
        let ghost es = self.builder.entries();
        let ghost before = self.frozen@;
        let ghost all = before.push(es);
        proof {
            lemma_builder_is_small(self.builder);
            lemma_flat_push(before, es);
            lemma_chunks_push(before, es);
            codec::lemma_concat_push(block_chunks(before), block_chunk(es));
        }
        self.fill_block_meta_keys();

        // Freeze the current block and create a new block.
        let mut current_builder = BlockBuilder::new(self.block_size);
        std::mem::swap(&mut self.builder, &mut current_builder);
        let current_block_data: Vec<u8> = current_builder.build().encode();

        put_slice(&mut self.data, current_block_data.as_slice());

        // Fill checksum
        let sum: u32 = checksum(current_block_data.as_slice());
        put_le(&mut self.data, sum as u64, 4);

        // Create a new meta for the newly created block.
        self.meta.push(
            BlockMeta {
                offset: self.data.len(),
                first_key: KeyVec::new(),
                last_key: KeyVec::new(),
            },
        );
        proof {
            assert(self.data@ =~= codec::concat(block_chunks(before)) + block_chunk(es));
            block::lemma_offset_chunks_len(block::offsets_of(block::packed_entries(es)));
            self.frozen@ = all;
            assert(self.entries() =~= old(self).entries());
            codec::lemma_chunk_start_ends(block_chunks(before));
            assert(block_chunks(all).take(before.len() as int) =~= block_chunks(before));
            assert(built_meta(all, before.len() as int) =~= self.meta@[before.len() as int]@);
            assert forall|i: int| 0 <= i < all.len() implies (#[trigger] self.meta@[i])@ == built_meta(
                all,
                i,
            ) by {
                if i < before.len() {
                    assert(self.meta@[i] == old(self).meta@[i]);
                    assert(built_meta(all, i) == built_meta(before, i));
                }
            }
        }
    }

    /// The current block accepts the pair.
    pub open spec fn block_accepts(&self, key: VKey, value: Seq<u8>) -> bool {
        self.builder.entries().len() == 0 || self.builder.size_with(key, value) <= self.block_size
    }

    /// Adds a key-value pair to SSTable.
    ///
    /// A new block is begun when the current one is full.
    pub fn add(&mut self, key: KeySlice, value: &[u8])
        requires
            old(self).wf(),
            block::entry_fits(VEntry { key: key@, value: value@ }),
        ensures
            final(self).wf(),
            final(self).block_size == old(self).block_size,
            final(self).entries() == old(self).entries().push(VEntry { key: key@, value: value@ }),
            old(self).block_accepts(key@, value@) ==> {
                &&& final(self).frozen@ == old(self).frozen@
                &&& final(self).builder.entries() == old(self).builder.entries().push(
                    VEntry { key: key@, value: value@ },
                )
            },
            !old(self).block_accepts(key@, value@) ==> {
                &&& final(self).frozen@ == old(self).frozen@.push(old(self).builder.entries())
                &&& final(self).builder.entries() == seq![VEntry { key: key@, value: value@ }]
            },
            old(self).spread_ok() ==> final(self).spread_ok(),
            size_of(final(self).entries(), old(self).block_size as int) >= size_of(
                old(self).entries(),
                old(self).block_size as int,
            ) + value@.len() + 6,
            final(self).data@.len() <= old(self).data@.len() + 140004,
            final(self).builder.encoded_size() <= 140000,
    {
        broadcast use vstd::std_specs::hash::group_hash_axioms;

        let ghost e = VEntry { key: key@, value: value@ };
        let ghost es = self.entries();
        proof {
            lemma_builder_is_small(self.builder);
            if self.builder.entries().len() > 0 {
                block::lemma_overlap(key@.key, self.builder.first_key@);
            }
        }
        if !self.builder.add(key, value) {
            self.freeze_block();
            let ghost middle = *self;
            let _ = self.builder.add(key, value);
            assert(self.builder.entries() =~= seq![e]);
        }
        match try_fingerprint(key.key_ref()) {
            Some(hash) => {
                self.key_hash_values.insert(hash);
            },
            None => {},
        }
        assert(self.key_hash_values@ =~= with_hash(old(self).key_hash_values@, key@.key));
        if self.first_key.len() == 0 {
            self.first_key = copy_slice(key.key_ref());
        }
        if key.ts() > self.max_ts {
            self.max_ts = key.ts();
        }
        proof {
            assert(self.entries() =~= es.push(e));
            lemma_size_grows(es, e, self.block_size as int);
            lemma_max_ts_push(es, e);
            lemma_hashes_push(old(self).key_hash_values@, es, e);
            lemma_first_key_fits(*old(self));
            assert(self.first_key@ =~= self.entries()[0].key.key);
            lemma_builder_is_small(self.builder);
            assert(self.entries().drop_last() =~= es);
        }
    }

    /// Get the estimated size of the SSTable.
    ///
    /// Since the data blocks contain much more data than meta blocks, just return the size of data
    /// blocks here.
    pub fn estimated_size(&self) -> (r: usize)
        requires
            self.builder.encoded_size() + self.data@.len() <= usize::MAX,
        ensures
            r == self.builder.data@.len() + self.builder.offsets@.len() * 2 + self.data@.len(),
            self.wf() && self.spread_ok() ==> r == size_of(self.entries(), self.block_size as int)
                && (r == 0 <==> self.entries().len() == 0),
    {
        proof {
            lemma_size_starts(self.entries(), self.block_size as int);
        }
        self.builder.get_size() + self.data.len()
    }

    /// Takes the first and the last key from the block metadata.
    pub fn fill_keys(&mut self)
        requires
            old(self).meta@.len() > 0,
        ensures
            final(self).first_key@ == old(self).meta@[0]@.first_key.key,
            final(self).last_key@ == old(self).meta@.last()@.last_key.key,
            final(self).builder == old(self).builder,
            final(self).data == old(self).data,
            final(self).meta == old(self).meta,
            final(self).block_size == old(self).block_size,
            final(self).key_hash_values == old(self).key_hash_values,
            final(self).max_ts == old(self).max_ts,
            final(self).frozen == old(self).frozen,
    {
        self.first_key = copy_slice(self.meta[0].first_key.key_ref());
        self.last_key = copy_slice(self.meta[self.meta.len() - 1].last_key.key_ref());
    }

    /// A bloom filter for the keys added so far.
    pub fn create_bloom(&self) -> (r: Bloom)
        requires
            self.key_hash_values@.len() * BITS_PER_KEY + 7 <= usize::MAX,
        ensures
            r.wf(),
            r.k == table::bloom::num_probes(BITS_PER_KEY as int),
            r.filter@.len() == table::bloom::num_bytes(
                self.key_hash_values@.len() as int,
                BITS_PER_KEY as int,
            ),
            forall|p: int|
                0 <= p < r.filter@.len() * 8 ==> (#[trigger] table::bloom::bit_at(r.filter@, p)
                    <==> exists|h: u32, j: nat|
                    self.key_hash_values@.contains(h) && j < r.k && #[trigger] table::bloom::probe(
                        h,
                        j,
                    ) as int % (r.filter@.len() * 8) as int == p),
            forall|h: u32| #[trigger] self.key_hash_values@.contains(h) ==> r.contains(h),
            r.filter@.len() * 8 >= 10 * self.key_hash_values@.len(),
            r.filter@.len() * 8 < 10 * self.key_hash_values@.len() + 72,
            r.k == 6,
    {
        broadcast use vstd::std_specs::hash::group_hash_axioms;

        let mut hashes: Vec<u32> = Vec::new();
        for h in it: self.key_hash_values.iter()
            invariant
                hashes@.len() == it.index(),
                forall|i: int| 0 <= i < hashes@.len() ==> hashes@[i] == *it.seq()[i],
        {
            hashes.push(*h);
        }
        let ghost all = self.key_hash_values@;
        assert(hashes@.to_set() =~= all && hashes@.len() == all.len()) by {
            let seq = vstd::std_specs::iter::IteratorSpec::remaining(
                &vstd::std_specs::hash::spec_hash_keys_iter(&self.key_hash_values),
            );
            assert(hashes@ =~= seq.unref());
        }
        let r = Bloom::build_from_key_hashes(hashes.as_slice(), BITS_PER_KEY);
        proof {
            let nbits = (r.filter@.len() * 8) as int;
            assert forall|p: int| 0 <= p < nbits implies (#[trigger] table::bloom::bit_at(r.filter@, p)
                <==> exists|h: u32, j: nat|
                all.contains(h) && j < r.k && #[trigger] table::bloom::probe(h, j) as int % nbits
                    == p) by {
                if table::bloom::bit_at(r.filter@, p) {
                    let (i, j) = choose|i: int, j: nat|
                        0 <= i < hashes@.len() && j < r.k && #[trigger] table::bloom::probe(
                            hashes@[i],
                            j,
                        ) as int % nbits == p;
                    assert(hashes@.to_set().contains(hashes@[i]));
                }
                if exists|h: u32, j: nat|
                    all.contains(h) && j < r.k && #[trigger] table::bloom::probe(h, j) as int % nbits
                        == p {
                    let (h, j) = choose|h: u32, j: nat|
                        all.contains(h) && j < r.k && #[trigger] table::bloom::probe(h, j) as int
                            % nbits == p;
                    assert(hashes@.to_set().contains(h));
                    let i = hashes@.index_of(h);
                    assert(table::bloom::probe(hashes@[i], j) as int % nbits == p);
                }
            }
            assert forall|h: u32| #[trigger] all.contains(h) implies r.contains(h) by {
                assert(hashes@.to_set().contains(h));
                let i = hashes@.index_of(h);
                assert(hashes@[i] == h);
            }
        }
        r
    }

    /// The blocks of the table that would be built now.
    pub open spec fn blocks(&self) -> Seq<Seq<VEntry>> {
        if self.builder.entries().len() > 0 {
            self.frozen@.push(self.builder.entries())
        } else {
            self.frozen@
        }
    }

    /// Builds the SSTable.
    #[verifier::rlimit(30)]
    #[verifier::spinoff_prover]
    pub fn build(self, id: usize) -> (r: SsTable)
        requires
            self.wf(),
        ensures
            r.id == id,
            r.metas() == built_metas(self.blocks()),
            r.meta_section_offset == codec::concat(block_chunks(self.blocks())).len(),
            self.spread_ok() && self.entries().len() > 0 ==> r.meta_section_offset == size_of(
                self.entries(),
                self.block_size as int,
            ) + 6,
            r.bloom matches Some(b) && b.wf() && b.k == table::bloom::num_probes(
                BITS_PER_KEY as int,
            ) && b.filter@.len() == table::bloom::num_bytes(
                self.key_hash_values@.len() as int,
                BITS_PER_KEY as int,
            ),
            forall|p: int|
                0 <= p < r.bloom->0.filter@.len() * 8 ==> (#[trigger] table::bloom::bit_at(
                    r.bloom->0.filter@,
                    p,
                ) <==> exists|h: u32, j: nat|
                    self.key_hash_values@.contains(h) && j < r.bloom->0.k
                        && #[trigger] table::bloom::probe(h, j) as int % (r.bloom->0.filter@.len()
                        * 8) as int == p),
            r.bloom->0.k == 6,
            r.bloom->0.filter@.len() * 8 >= 10 * self.key_hash_values@.len(),
            r.bloom->0.filter@.len() * 8 < 10 * self.key_hash_values@.len() + 72,
            r.file.wf(),
            r.file.bytes() == built_file(
                codec::concat(block_chunks(self.blocks())),
                built_metas(self.blocks()),
                r.bloom->0.encoded(),
            ),
            r.entries() == self.entries(),
            r.first_key@ == (VKey {
                key: (if self.entries().len() > 0 {
                    self.entries()[0].key.key
                } else {
                    Seq::empty()
                }),
                ts: TS_DEFAULT,
            }),
            r.last_key@ == (VKey {
                key: (if self.entries().len() > 0 {
                    self.entries().last().key.key
                } else {
                    Seq::empty()
                }),
                ts: TS_DEFAULT,
            }),
            r.max_ts == table::max_ts_of(self.entries()),
            key::sorted(self.entries()) ==> r.wf(),
            is_built(r),
    {
        let ghost blocks = self.blocks();
        let ghost es = self.entries();
        proof {
            if self.spread_ok() && es.len() > 0 {
                lemma_size_of_blocks(es, self.block_size as int);
            }
        }
        let mut this = self;
        // Freeze the current block if it has data. Otherwise drop the empty block.
        if !this.builder.is_empty() {
            this.freeze_block();
        }
        assert(this.frozen@ == blocks);
        assert(this.entries() =~= flat(blocks));
        proof {
            lemma_builder_is_small(this.builder);
            assert(this.key_hash_values@.len() <= es.len()) by {
                reveal(hashes_ok);
            }
        }
        // Each time self.freeze_block() is called, a new builder and a new meta
        // is created, so there is always an empty meta, we need to remove it.
        if this.meta.len() > 1 {
            let _ = this.meta.pop();
        }
        proof {
            assert(block_chunks(Seq::<Seq<VEntry>>::empty()) =~= Seq::empty());
            assert(table::meta::meta_views(this.meta@) =~= built_metas(blocks)) by {
                let ms = table::meta::meta_views(this.meta@);
                assert forall|i: int| 0 <= i < ms.len() implies ms[i] =~= built_metas(blocks)[i] by {
                    if blocks.len() > 0 {
                        assert(this.meta@[i]@ == built_meta(blocks, i));
                    }
                }
            }
            assert forall|i: int| 0 <= i < this.meta@.len() implies (
            #[trigger] this.meta@[i]).first_key@.key.len() + 8 <= usize::MAX by {
                assert(table::meta::meta_views(this.meta@)[i] == this.meta@[i]@);
                if blocks.len() > 0 {
                    assert(blocks[i].len() > 0 && block::entries_fit(blocks[i]));
                    assert(block::entry_fits(blocks[i][0]));
                }
            }
        }
        // Fill first_key and last_key
        this.fill_keys();

        // Encode meta
        let mut meta_buf: Vec<u8> = Vec::new();
        BlockMeta::encode_block_meta(this.meta.as_slice(), &mut meta_buf);
        let ghost ms = built_metas(blocks);
        assert(meta_buf@ =~= table::meta::encoded_metas(0, ms));

        // Encode bloom(bloom checksum is handled in Bloom::encode)
        let mut bloom_buf: Vec<u8> = Vec::new();
        let bloom = this.create_bloom();
        bloom.encode(&mut bloom_buf);
        assert(bloom_buf@ =~= bloom.encoded());

        // Write blocks
        let mut file: Vec<u8> = copy_slice(this.data.as_slice());
        let meta_section_offset: usize = file.len();
        // Write num of blocks.
        put_le(&mut file, this.meta.len() as u64, 4);
        // Write meta
        put_slice(&mut file, meta_buf.as_slice());
        // Write checksum
        let sum: u32 = checksum(meta_buf.as_slice());
        put_le(&mut file, sum as u64, 4);
        // Write meta offset
        put_le(&mut file, meta_section_offset as u64, 4);

        // Write bloom section
        let bloom_offset: usize = file.len();
        put_slice(&mut file, bloom_buf.as_slice());
        put_le(&mut file, bloom_offset as u64, 4);
        let ghost data = codec::concat(block_chunks(blocks));
        assert(file@ =~= built_file(data, ms, bloom.encoded()));
        assert(file@.take(data.len() as int) =~= data);

        let r = SsTable {
            file: FileObject::create(file),
            block_meta: this.meta,
            meta_section_offset,
            id,
            first_key: KeyVec::from_bytes_with_ts(this.first_key, TS_DEFAULT),
            last_key: KeyVec::from_bytes_with_ts(this.last_key, TS_DEFAULT),
            bloom: Some(bloom),
            max_ts: this.max_ts,
        };
        proof {
            lemma_entries_of_blocks(r.file.bytes(), blocks, 0);
            assert(blocks.skip(0) =~= blocks);
            assert(r.entries() =~= es);
            lemma_flat_ends(blocks);
            assert(r.first_key@.key =~= (if es.len() > 0 {
                es[0].key.key
            } else {
                Seq::empty()
            }));
            assert(r.last_key@.key =~= (if es.len() > 0 {
                es.last().key.key
            } else {
                Seq::empty()
            }));
            lemma_built_table_wf(r, blocks);
            assert forall|i: int| 0 <= i < r.entries().len() implies bloom.covers(
                (#[trigger] r.entries()[i]).key.key,
            ) by {
                reveal(hashes_ok);
                if outside::hashable(es[i].key.key) {
                    assert(self.key_hash_values@.contains(outside::fingerprint(es[i].key.key)));
                }
            }
            assert(is_built(r)) by {
                reveal(is_built);
                assert(built_from(r, blocks));
            }
        }
        r
    }
}

/// The first entry of all is the first of the first block, the last of all is the last of the last.
proof fn lemma_flat_ends(blocks: Seq<Seq<VEntry>>)
    requires
        forall|i: int| 0 <= i < blocks.len() ==> (#[trigger] blocks[i]).len() > 0,
    ensures
        blocks.len() == 0 <==> flat(blocks).len() == 0,
        blocks.len() > 0 ==> flat(blocks)[0] == blocks[0][0],
        blocks.len() > 0 ==> flat(blocks).last() == blocks.last().last(),
    decreases blocks.len(),
{
    if blocks.len() > 0 {
        let rest = blocks.drop_first();
        assert(blocks[0].len() > 0);
        assert forall|i: int| 0 <= i < rest.len() implies (#[trigger] rest[i]).len() > 0 by {
            assert(rest[i] == blocks[i + 1]);
        }
        lemma_flat_ends(rest);
        if rest.len() > 0 {
            assert(rest.last() == blocks.last());
        } else {
            assert(flat(rest) =~= Seq::empty());
        }
    }
}

/// All entries of fitting blocks fit.
proof fn lemma_flat_fits(blocks: Seq<Seq<VEntry>>)
    requires
        blocks_fit(blocks),
    ensures
        block::entries_fit(flat(blocks)),
    decreases blocks.len(),
{
    if blocks.len() > 0 {
        let rest = blocks.drop_first();
        assert forall|i: int| 0 <= i < rest.len() implies (#[trigger] rest[i]).len() > 0
            && rest[i].len() <= u16::MAX && block::entries_fit(rest[i]) by {
            assert(rest[i] == blocks[i + 1]);
        }
        lemma_flat_fits(rest);
        assert(block::entries_fit(blocks[0]));
        assert forall|i: int| 0 <= i < flat(blocks).len() implies block::entry_fits(
            #[trigger] flat(blocks)[i],
        ) by {
            if i < blocks[0].len() {
                assert(flat(blocks)[i] == blocks[0][i]);
            } else {
                assert(flat(blocks)[i] == flat(rest)[i - blocks[0].len()]);
            }
        }
    }
}

/// The blocks of a built table can be read, and its metadata is right.
proof fn lemma_built_table_wf(t: SsTable, blocks: Seq<Seq<VEntry>>)
    requires
        blocks_fit(blocks),
        t.file.wf(),
        t.metas() == built_metas(blocks),
        t.meta_section_offset == codec::concat(block_chunks(blocks)).len(),
        codec::concat(block_chunks(blocks)).len() <= t.file.bytes().len(),
        t.file.bytes().take(codec::concat(block_chunks(blocks)).len() as int) == codec::concat(
            block_chunks(blocks),
        ),
    ensures
        t.block_meta@.len() >= 1,
        forall|i: int| 0 <= i < t.metas().len() ==> #[trigger] t.parsed(i) is Ok,
        forall|i: int|
            0 <= i < t.metas().len() && t.metas().len() > 1 ==> #[trigger] t.block(i).len() > 0,
        forall|i: int| 0 <= i < t.metas().len() ==> #[trigger] t.meta_keys_ok(i),
        t.entries() == flat(blocks),
        block::entries_fit(t.entries()),
{
    let bytes = t.file.bytes();
    lemma_entries_of_blocks(bytes, blocks, 0);
    assert(blocks.skip(0) =~= blocks);
    lemma_flat_fits(blocks);
    if blocks.len() == 0 {
        assert(block_chunks(blocks) =~= Seq::empty());
    } else {
        assert forall|i: int| 0 <= i < t.metas().len() implies #[trigger] t.parsed(i) == Ok::<
            Seq<VEntry>,
            crate::error::LsmError,
        >(blocks[i]) && t.block(i) == blocks[i] by {
            lemma_parsed_blocks(bytes, blocks, i);
        }
        assert forall|i: int| 0 <= i < t.metas().len() implies #[trigger] t.block(i).len() > 0 by {
            assert(t.parsed(i) is Ok);
            assert(blocks[i].len() > 0);
        }
        assert forall|i: int| 0 <= i < t.metas().len() implies #[trigger] t.meta_keys_ok(i) by {
            assert(t.parsed(i) is Ok);
            assert(t.metas()[i] == built_meta(blocks, i));
        }
    }
}

/// The metadata, the place of the blocks and the bloom filter can be read back from the file of a
/// table, as long as its offsets fit in a u32.
proof fn lemma_built_file_parts(data: Seq<u8>, ms: Seq<VMeta>, b: Bloom)
    requires
        b.wf(),
        forall|i: int| 0 <= i < ms.len() ==> table::meta::meta_fits(#[trigger] ms[i]),
        built_file(data, ms, b.encoded()).len() <= u32::MAX,
    ensures
        ({
            let bytes = built_file(data, ms, b.encoded());
            &&& table::open_error(bytes) is None
            &&& table::file_metas(bytes) == Ok::<Seq<VMeta>, crate::error::LsmError>(ms)
            &&& table::meta_offset_of(bytes) == data.len()
            &&& table::file_bloom(bytes) == Ok::<(Seq<u8>, u8), crate::error::LsmError>(
                (b.filter@, b.k),
            )
            &&& bytes.take(data.len() as int) == data
        }),
{
    let metas = table::meta::encoded_metas(0, ms);
    let sum = outside::crc32(metas);
    let head = data + codec::le(ms.len(), 4) + metas + codec::le(sum as nat, 4) + codec::le(
        data.len(),
        4,
    );
    let bytes = built_file(data, ms, b.encoded());
    let n = bytes.len() as int;
    let m = data.len() as int;
    let h = head.len() as int;
    codec::lemma_pow256();
    codec::lemma_from_le_of_le(head.len(), 4);
    codec::lemma_from_le_of_le(data.len(), 4);
    codec::lemma_from_le_of_le(sum as nat, 4);
    assert(bytes.subrange(n - 4, n) =~= codec::le(head.len(), 4));
    assert(table::bloom_offset_of(bytes) == h);
    assert(bytes.subrange(h - 4, h) =~= codec::le(data.len(), 4));
    assert(table::meta_offset_of(bytes) == m);
    assert(bytes.subrange(m + 4, h - 8) =~= metas);
    assert(bytes.subrange(h - 8, h - 4) =~= codec::le(sum as nat, 4));
    assert(bytes.subrange(h, n - 4) =~= b.encoded());
    assert(bytes.take(m) =~= data);
    let none = Seq::<u8>::empty();
    table::meta::lemma_metas_round_trip(none, ms);
    assert(none + table::meta::encoded_metas(0, ms) =~= table::meta::encoded_metas(0, ms));
    table::bloom::lemma_bloom_round_trip(b);
}

/// Opening the file of a table gives the table back: its metadata, its entries and its bloom
/// filter. Where the entries are sorted and the filter covers their keys, the opened table is well
/// formed. The file must be small enough for its offsets to fit in a u32.
pub proof fn lemma_reopen(
    blocks: Seq<Seq<VEntry>>,
    b: Bloom,
    id: usize,
    file: FileObject,
    t: SsTable,
)
    requires
        blocks_fit(blocks),
        b.wf(),
        file.wf(),
        file.bytes() == built_file(
            codec::concat(block_chunks(blocks)),
            built_metas(blocks),
            b.encoded(),
        ),
        file.bytes().len() <= u32::MAX,
    ensures
        table::open_error(file.bytes()) is None,
        t.opened_from(id, file) ==> {
            &&& t.metas() == built_metas(blocks)
            &&& t.meta_section_offset == codec::concat(block_chunks(blocks)).len()
            &&& t.entries() == flat(blocks)
            &&& t.bloom->0.filter@ == b.filter@
            &&& t.bloom->0.k == b.k
            &&& (key::sorted(flat(blocks)) && forall|i: int|
                0 <= i < flat(blocks).len() ==> b.covers(
                    (#[trigger] flat(blocks)[i]).key.key,
                )) ==> t.wf()
        },
{
    let data = codec::concat(block_chunks(blocks));
    let ms = built_metas(blocks);
    assert forall|i: int| 0 <= i < ms.len() implies table::meta::meta_fits(#[trigger] ms[i]) by {
        if blocks.len() > 0 {
            assert(blocks[i].len() > 0 && block::entries_fit(blocks[i]));
            assert(block::entry_fits(blocks[i][0]));
            codec::lemma_chunk_at(block_chunks(blocks), i);
        }
    }
    lemma_built_file_parts(data, ms, b);
    if t.opened_from(id, file) {
        lemma_built_table_wf(t, blocks);
        lemma_flat_ends(blocks);
        assert forall|i: int|
            0 <= i < flat(blocks).len() && b.covers(
                (#[trigger] flat(blocks)[i]).key.key,
            ) implies t.bloom->0.covers(t.entries()[i].key.key) by {
            let hash = outside::fingerprint(flat(blocks)[i].key.key);
            assert(b.contains(hash) == t.bloom->0.contains(hash));
        }
    }
}

/// The table's file is laid out from these blocks.
pub open spec fn built_from(t: SsTable, blocks: Seq<Seq<VEntry>>) -> bool {
    &&& blocks_fit(blocks)
    &&& flat(blocks) == t.entries()
    &&& t.bloom matches Some(b) && b.wf() && t.file.bytes() == built_file(
        codec::concat(block_chunks(blocks)),
        built_metas(blocks),
        b.encoded(),
    )
}

/// The table's file is laid out as a builder lays it out.
#[verifier::opaque]
pub open spec fn is_built(t: SsTable) -> bool {
    exists|blocks: Seq<Seq<VEntry>>| #[trigger] built_from(t, blocks)
}

/// A table that was built and written can be opened again, and is then a well-formed table with the
/// same entries. Offsets in the file take 32 bits.
pub proof fn lemma_built_table_reopens(t: &SsTable, file: &FileObject, u: &SsTable)
    requires
        is_built(*t),
        t.wf(),
        file.wf(),
        file.bytes() == t.file.bytes(),
        file.bytes().len() <= u32::MAX,
    ensures
        table::open_error(file.bytes()) is None,
        u.opened_from(t.id, *file) ==> u.wf() && u.entries() == t.entries() && u.max_ts == t.max_ts,
{
    reveal(is_built);
    let blocks = choose|blocks: Seq<Seq<VEntry>>| #[trigger] built_from(*t, blocks);
    lemma_reopen(blocks, t.bloom->0, t.id, *file, *u);
}

} // verus!
