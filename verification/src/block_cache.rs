//! A cache of decoded blocks.
use std::sync::Arc;

use moka::sync::Cache;
use vstd::prelude::*;

use crate::block::Block;
use crate::error::LsmError;
use crate::table::SsTable;

verus! {

pub const BLOCK_CACHE_SIZE: u64 = 1024;

/// The concurrent cache of crate `moka`.
#[verifier::external_type_specification]
#[verifier::external_body]
#[verifier::reject_recursive_types(K)]
#[verifier::reject_recursive_types(V)]
#[verifier::reject_recursive_types(S)]
pub struct ExCache<K, V, S>(Cache<K, V, S>);

/// Decoded blocks by the id of their table and their index in it.
pub type BlockCache = Cache<(usize, usize), Arc<Block>>;

/// What a cache can hand out for each key: the data and the offsets of the block that was put in
/// last. The cache may have dropped it.
pub uninterp spec fn held(c: Cache<(usize, usize), Arc<Block>>) -> Map<
    (usize, usize),
    (Seq<u8>, Seq<u16>),
>;

/// Nothing is held.
pub open spec fn nothing_held() -> Map<(usize, usize), (Seq<u8>, Seq<u16>)> {
    Map::empty()
}

/// The bytes of a block.
pub open spec fn block_parts(b: &Block) -> (Seq<u8>, Seq<u16>) {
    (b.data@, b.offsets@)
}

/// The block was handed out from what is held.
pub open spec fn handed_out(
    m: Map<(usize, usize), (Seq<u8>, Seq<u16>)>,
    key: (usize, usize),
    b: &Block,
) -> bool {
    m.contains_key(key) && m[key] == block_parts(b)
}

/// What is held after the result of a read has been put in.
pub open spec fn held_after(
    m: Map<(usize, usize), (Seq<u8>, Seq<u16>)>,
    key: (usize, usize),
    r: Result<Arc<Block>, Arc<LsmError>>,
) -> Map<(usize, usize), (Seq<u8>, Seq<u16>)> {
    match r {
        Ok(b) => m.insert(key, block_parts(&*b)),
        Err(_) => m,
    }
}

/// Calls `Cache::new`, which gives a cache without entries that stores up to the given number.
#[verifier::external_body]
pub(crate) fn cache_new(max_capacity: u64) -> (c: Cache<(usize, usize), Arc<Block>>)
    ensures
        held(c) == nothing_held(),
{
    Cache::new(max_capacity)
}

/// Calls `Cache::try_get_with` with `SsTable::read_block` as the closure. It gives a clone of the
/// value that the cache has for the key. Where it has none, it evaluates the closure, and puts the
/// value in, or gives the error without putting anything in. Whether the cache still has what was
/// put in is left open: it may drop entries at any time. No one else is using the cache meanwhile.
#[verifier::external_body]
pub(crate) fn cache_try_get_with(
    cache: &mut Cache<(usize, usize), Arc<Block>>,
    key: (usize, usize),
    table: &SsTable,
) -> (r: Result<Arc<Block>, Arc<LsmError>>)
    requires
        key.1 < table.block_meta@.len() ==> table.file.0 is Some,
    ensures
        r matches Ok(b) ==> handed_out(held(*old(cache)), key, &*b) || table.reads(
            key.1 as int,
            Ok(b),
        ),
        r matches Err(e) ==> table.reads(key.1 as int, Err(*e)),
        held(*final(cache)) == held_after(held(*old(cache)), key, r),
{
    cache.try_get_with(key, || table.read_block(key.1))
}

/// What is held for a table is what its blocks hold.
pub open spec fn agrees_with(
    m: Map<(usize, usize), (Seq<u8>, Seq<u16>)>,
    table: SsTable,
) -> bool {
    forall|i: usize, b: Block|
        #![trigger m.contains_key((table.id, i)), block_parts(&b)]
        handed_out(m, (table.id, i), &b) ==> i < table.block_meta@.len() && b.wf()
            && table.parsed(i as int) == Ok::<_, LsmError>(b.entries())
}

/// A cache of the usual size.
pub fn create_block_cache() -> (c: BlockCache)
    ensures
        held(c) == nothing_held(),
{
    cache_new(BLOCK_CACHE_SIZE)
}

impl SsTable {
    /// Read a block from disk, with block cache.
    pub fn read_block_cached(&self, block_cache: &mut BlockCache, block_idx: usize) -> (r: Result<
        Arc<Block>,
        LsmError,
    >)
        requires
            block_idx < self.block_meta@.len() ==> self.file.0 is Some,
            agrees_with(held(*old(block_cache)), *self),
        ensures
            self.reads(block_idx as int, r),
            agrees_with(held(*final(block_cache)), *self),
            match r {
                Ok(b) => held(*final(block_cache)) == held(*old(block_cache)).insert(
                    (self.id, block_idx),
                    block_parts(&*b),
                ),
                Err(_) => held(*final(block_cache)) == held(*old(block_cache)),
            },
    {
        let ghost before = held(*block_cache);
        let result = cache_try_get_with(block_cache, (self.id, block_idx), self);
        match result {
            Ok(b) => {
                proof {
                    if handed_out(before, (self.id, block_idx), &*b) {
                        assert(before.contains_key((self.id, block_idx)));
                        assert(before[(self.id, block_idx)] == block_parts(&*b));
                    }
                    let after = held(*block_cache);
                    assert forall|i: usize, c: Block|
                        #![trigger after.contains_key((self.id, i)), block_parts(&c)]
                        handed_out(after, (self.id, i), &c) implies i < self.block_meta@.len()
                        && c.wf() && self.parsed(i as int) == Ok::<_, LsmError>(c.entries()) by {
                        if i == block_idx {
                            assert(block_parts(&c) == block_parts(&*b));
                        } else {
                            assert(before.contains_key((self.id, i)));
                            assert(handed_out(before, (self.id, i), &c));
                        }
                    }
                }
                Ok(b)
            },
            Err(e) => Err(*e),
        }
    }
}

} // verus!
