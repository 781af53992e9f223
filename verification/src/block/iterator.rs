//! Walking blocks.
use std::sync::Arc;

use vstd::prelude::*;

use crate::block::Block;
use crate::codec::get_u16_le;
use crate::key::{KeySlice, KeyVec, VEntry, VKey};
use crate::{block, codec, key};

verus! {

pub const KEY_LEN_BYTES: usize = 2;

pub const VAL_LEN_BYTES: usize = 2;

/// Iterates on a block.
pub struct BlockIterator {
    /// The internal `Block`, wrapped by an `Arc`
    pub block: Arc<Block>,
    /// The current key, empty represents the iterator is invalid
    pub key: KeyVec,
    /// the current value range in the block.data, corresponds to the current key
    pub value_range: (usize, usize),
    /// Current index of the key-value pair, should be in range of [0, num_of_elements)
    pub idx: usize,
    /// The first key in the block
    pub first_key: KeyVec,
}

/// Where entry `i` starts.
pub open spec fn entry_start(data: Seq<u8>, i: nat) -> int
    decreases i,
{
    if i == 0 {
        0
    } else {
        block::kv_range(data, entry_start(data, (i - 1) as nat)).3
    }
}

/// The bytes at `start` suffice for the two lengths of an entry.
pub open spec fn lengths_ok(data: Seq<u8>, start: int) -> bool {
    let (ks, ke, vs, ve) = block::kv_range(data, start);
    ks <= data.len() && vs <= data.len() && ve <= usize::MAX
}

/// The lengths of all entries from `start` on can be read. Where the last value ends does not
/// matter.
pub open spec fn walkable(data: Seq<u8>, start: int) -> bool
    decreases
        if start < data.len() {
            data.len() - start
        } else {
            0
        },
{
    if start >= data.len() {
        true
    } else if !lengths_ok(data, start) {
        false
    } else {
        let (ks, ke, vs, ve) = block::kv_range(data, start);
        walkable(data, ve)
    }
}

/// The keys of the entries from `start` on.
pub open spec fn stored_keys(data: Seq<u8>, start: int) -> Seq<VKey>
    decreases
        if start < data.len() {
            data.len() - start
        } else {
            0
        },
{
    if start >= data.len() {
        Seq::empty()
    } else {
        let (ks, ke, vs, ve) = block::kv_range(data, start);
        seq![key::key_of_raw(data.subrange(ks, ke))] + stored_keys(data, ve)
    }
}

/// A sequence of entries can be walked, and has their keys.
proof fn lemma_parsed_walk(data: Seq<u8>, start: int)
    requires
        0 <= start,
        data.len() <= usize::MAX,
        block::parse_raw(data, start) is Some,
    ensures
        walkable(data, start),
        stored_keys(data, start).len() == block::parse_raw(data, start)->0.len(),
        forall|i: int|
            0 <= i < stored_keys(data, start).len() ==> #[trigger] stored_keys(data, start)[i]
                == block::parse_raw(data, start)->0[i].key,
    decreases data.len() - start,
{
    if start < data.len() {
        lemma_parse_step(data, start);
        let ve = block::kv_range(data, start).3;
        let es = block::parse_raw(data, start)->0;
        let keys = stored_keys(data, start);
        lemma_parsed_walk(data, ve);
        assert forall|i: int| 0 <= i < keys.len() implies #[trigger] keys[i] == es[i].key by {
            if i > 0 {
                assert(keys[i] == stored_keys(data, ve)[i - 1]);
                assert(es[i] == es.drop_first()[i - 1]);
            }
        }
    }
}

/// Where entry `i` of a sequence of entries starts, the walk finds the rest of the entries.
proof fn lemma_entry_at(data: Seq<u8>, i: nat)
    requires
        block::parse_raw(data, 0) is Some,
        i <= block::parse_raw(data, 0)->0.len(),
    ensures
        i <= entry_start(data, i) <= data.len(),
        block::parse_raw(data, entry_start(data, i)) == Some(
            block::parse_raw(data, 0)->0.skip(i as int),
        ),
        i < block::parse_raw(data, 0)->0.len() ==> entry_start(data, i) < data.len(),
    decreases i,
{
    let es = block::parse_raw(data, 0)->0;
    if i == 0 {
        assert(es.skip(0) =~= es);
    } else {
        let n = (i - 1) as nat;
        lemma_entry_at(data, n);
        lemma_parse_step(data, entry_start(data, n));
        assert(es.skip(n as int).drop_first() =~= es.skip(i as int));
    }
}

/// The first key of the entries, or the empty key where there are none.
pub open spec fn first_key_of(es: Seq<VEntry>) -> VKey {
    if es.len() == 0 {
        VKey { key: Seq::empty(), ts: key::TS_DEFAULT }
    } else {
        es[0].key
    }
}

/// Where the walk from `start` finds entries, the first of them lies at `start`.
proof fn lemma_parse_step(data: Seq<u8>, start: int)
    requires
        0 <= start < data.len(),
        block::parse_raw(data, start) is Some,
    ensures
        ({
            let (ks, ke, vs, ve) = block::kv_range(data, start);
            let es = block::parse_raw(data, start)->0;
            let e = VEntry {
                key: key::key_of_raw(data.subrange(ks, ke)),
                value: data.subrange(vs, ve),
            };
            &&& block::kv_range_ok(data, start)
            &&& start + 2 == ks && ks + 9 <= ke && ke + 2 == vs && vs <= ve <= data.len()
            &&& block::parse_raw(data, ve) is Some
            &&& es == seq![e] + block::parse_raw(data, ve)->0
            &&& es.len() > 0
            &&& es[0] == e
            &&& es.drop_first() == block::parse_raw(data, ve)->0
            &&& e.key.key.len() > 0
        }),
{
    let (ks, ke, vs, ve) = block::kv_range(data, start);
    let es = block::parse_raw(data, start)->0;
    assert(es.drop_first() =~= block::parse_raw(data, ve)->0);
}

impl BlockIterator {
    /// The entries from the current one on.
    pub open spec fn remaining(&self) -> Seq<VEntry> {
        if self.key@.key.len() == 0 {
            Seq::empty()
        } else {
            seq![
                VEntry {
                    key: self.key@,
                    value: self.block.data@.subrange(
                        self.value_range.0 as int,
                        self.value_range.1 as int,
                    ),
                },
            ] + self.after()
        }
    }

    /// The entries behind the position of the iterator.
    pub open spec fn after(&self) -> Seq<VEntry> {
        block::parse_raw(self.block.data@, self.value_range.1 as int)->0
    }

    pub open spec fn wf(&self) -> bool {
        &&& self.block.wf()
        &&& self.value_range.0 <= self.value_range.1 <= self.block.data@.len()
        &&& self.idx <= self.value_range.1
        &&& block::parse_raw(self.block.data@, self.value_range.1 as int) is Some
        &&& key::is_suffix(self.after(), self.block.entries())
        &&& key::is_suffix(self.remaining(), self.block.entries())
        &&& self.first_key@ == first_key_of(self.block.entries())
        &&& self.key@.key.len() == 0 ==> self.key@ == (VKey {
            key: Seq::empty(),
            ts: key::TS_DEFAULT,
        })
    }

    /// An iterator on a block that stands before the first entry.
    pub fn new(block: Arc<Block>) -> (r: Self)
        requires
            block.wf(),
        ensures
            r.wf(),
            r.block == block,
            r.key@.key.len() == 0,
            r.remaining() == Seq::<VEntry>::empty(),
            r.value_range == (0usize, 0usize),
            r.idx == 0,
    {
        let (key_start, key_end, _, value_end) = Self::get_kv_range(
            block.data.as_slice(),
            0,
        ).unwrap();
        proof {
            if block.data@.len() > 0 {
                lemma_parse_step(block.data@, 0);
            }
        }
        let first_key: KeyVec = if value_end > 0 {
            Self::get_key(block.data.as_slice(), key_start, key_end)
        } else {
            KeyVec::new()
        };
        let r = Self { block, key: KeyVec::new(), value_range: (0, 0), idx: 0, first_key };
        proof {
            if r.block.data@.len() > 0 {
                lemma_parse_step(r.block.data@, 0);
            }
            assert(r.after() =~= r.block.entries().skip(0));
            assert(r.remaining() =~= r.block.entries().skip(r.block.entries().len() as int));
        }
        r
    }

    /// An entry: |2 bytes length of key | key bytes | 2 bytes of length of value | value bytes |
    /// Returns a tuple of 4 numbers for the start(inclusive) and the end index(exclusive) of the key and value
    /// Returns four zeros if the data has no entry from entry_start on. An entry never ends at 0.
    pub fn get_kv_range(data: &[u8], entry_start: usize) -> (r: Option<(usize, usize, usize, usize)>)
        requires
            entry_start < data@.len() ==> (lengths_ok(data@, entry_start as int)
                || block::parse_raw(data@, entry_start as int) is Some),
        ensures
            r is Some,
            entry_start >= data@.len() ==> r == Some((0usize, 0usize, 0usize, 0usize)),
            entry_start < data@.len() ==> (r matches Some((ks, ke, vs, ve)) && (
                ks as int,
                ke as int,
                vs as int,
                ve as int,
            ) == block::kv_range(data@, entry_start as int)),
    {
        let len: usize = data.len();
        if entry_start >= len {
            return Some((0, 0, 0, 0));
        }
        proof {
            if block::parse_raw(data@, entry_start as int) is Some {
                lemma_parse_step(data@, entry_start as int);
            }
        }
        let key_len: usize = get_u16_le(data, entry_start);
        let key_start: usize = entry_start + KEY_LEN_BYTES;
        let key_end: usize = key_start + key_len;

        let value_len: usize = get_u16_le(data, key_end);
        let value_start: usize = key_end + VAL_LEN_BYTES;
        let value_end: usize = value_start + value_len;

        Some((key_start, key_end, value_start, value_end))
    }

    /// Returns key_start, key_end, value_start, value_end, index of the first key >= the given key
    pub fn find_kv_range(data: &[u8], key: KeySlice) -> (r: Option<
        (usize, usize, usize, usize, usize),
    >)
        requires
            walkable(data@, 0),
        ensures
            ({
                let keys = stored_keys(data@, 0);
                &&& r is None <==> forall|i: int|
                    0 <= i < keys.len() ==> key::key_lt(#[trigger] keys[i], key@)
                &&& r matches Some((ks, ke, vs, ve, index)) ==> {
                    &&& index < keys.len()
                    &&& !key::key_lt(keys[index as int], key@)
                    &&& forall|i: int|
                        0 <= i < index ==> key::key_lt(#[trigger] keys[i], key@)
                    &&& (ks as int, ke as int, vs as int, ve as int) == block::kv_range(
                        data@,
                        entry_start(data@, index as nat),
                    )
                }
            }),
    {
        let mut index: usize = 0;
        let mut start: usize = 0;
        let ghost keys = stored_keys(data@, 0);
        assert(keys.skip(0) =~= keys);
        loop
            invariant
                index <= start,
                index <= keys.len(),
                start == entry_start(data@, index as nat),
                walkable(data@, start as int),
                keys == stored_keys(data@, 0),
                stored_keys(data@, start as int) == keys.skip(index as int),
                forall|i: int| 0 <= i < index ==> key::key_lt(#[trigger] keys[i], key@),
            decreases keys.len() - index,
        {
            let (key_start, key_end, value_start, value_end) = Self::get_kv_range(
                data,
                start,
            ).unwrap();
            if value_end == 0 {
                assert(keys.skip(index as int).len() == 0);
                return None;
            }
            proof {
                assert(stored_keys(data@, start as int).len() > 0);
                assert(index < keys.len());
                assert(keys.skip(index as int)[0] == keys[index as int]);
                assert(keys.skip(index as int).drop_first() =~= keys.skip(index + 1));
                assert(stored_keys(data@, start as int).drop_first() =~= stored_keys(
                    data@,
                    value_end as int,
                ));
            }
            let cur_key = Self::get_key(data, key_start, key_end);
            if !cur_key.as_key_slice().less_than(key) {
                return Some((key_start, key_end, value_start, value_end, index));
            }
            start = value_end;
            index = index + 1;
        }
    }

    /// The key stored between the two positions.
    pub fn get_key(data: &[u8], key_start: usize, key_end: usize) -> (r: KeyVec)
        requires
            key_start <= key_end <= data@.len(),
        ensures
            r@ == key::key_of_raw(data@.subrange(key_start as int, key_end as int)),
    {
        KeyVec::from_vec(vstd::slice::slice_subrange(data, key_start, key_end))
    }

    /// Creates a block iterator and seek to the first entry.
    pub fn create_and_seek_to_first(block: Arc<Block>) -> (r: Self)
        requires
            block.wf(),
        ensures
            r.wf(),
            r.block == block,
            r.remaining() == block.entries(),
            r.idx == 0,
    {
        let mut r = Self::new(block);
        let (key_start, key_end, value_start, value_end) = Self::get_kv_range(
            r.block.data.as_slice(),
            0,
        ).unwrap();
        if value_end > 0 {
            let ghost es = r.block.entries();
            proof {
                lemma_parse_step(r.block.data@, 0);
            }
            r.key = Self::get_key(r.block.data.as_slice(), key_start, key_end);
            r.value_range = (value_start, value_end);
            proof {
                assert(r.after() =~= es.skip(1));
                assert(r.remaining() =~= es.skip(0));
                assert(r.remaining() =~= es);
            }
        }
        r
    }

    /// Creates a block iterator and seek to the first key that >= `key`.
    pub fn create_and_seek_to_key(block: Arc<Block>, key: KeySlice) -> (r: Self)
        requires
            block.wf(),
        ensures
            r.wf(),
            r.block == block,
            r.remaining() == block.entries().skip(key::seek_index(block.entries(), key@)),
            r.remaining().len() > 0 ==> r.idx == key::seek_index(block.entries(), key@),
    {
        let mut r = Self::new(block);
        r.seek_to_key(key);
        r
    }

    /// Returns the key of the current entry.
    pub fn key(&self) -> (r: KeySlice<'_>)
        ensures
            r@ == self.key@,
            self.remaining().len() > 0 ==> r@ == self.remaining()[0].key,
            self.wf() && self.remaining().len() == 0 ==> r@ == (VKey {
                key: Seq::empty(),
                ts: key::TS_DEFAULT,
            }),
    {
        self.key.as_key_slice()
    }

    /// Returns the value of the current entry.
    pub fn value(&self) -> (r: &[u8])
        requires
            self.wf(),
        ensures
            self.remaining().len() > 0 ==> r@ == self.remaining()[0].value,
            self.remaining().len() == 0 ==> r@.len() == 0,
    {
        let (start, end) = self.value_range;
        if self.key.is_empty() {
            vstd::slice::slice_subrange(self.block.data.as_slice(), start, start)
        } else {
            vstd::slice::slice_subrange(self.block.data.as_slice(), start, end)
        }
    }

    /// Returns true if the iterator is valid.
    pub fn is_valid(&self) -> (r: bool)
        ensures
            r == (self.remaining().len() > 0),
    {
        !self.key.is_empty()
    }

    /// Seeks to the first key in the block.
    pub fn seek_to_first(&mut self)
        requires
            old(self).wf(),
            old(self).block.entries().len() > 0,
        ensures
            final(self).wf(),
            final(self).block == old(self).block,
            final(self).remaining() == old(self).block.entries(),
            final(self).idx == 0,
    {
        let (_, _, value_start, value_end) = Self::get_kv_range(
            self.block.data.as_slice(),
            0,
        ).unwrap();
        proof {
            lemma_parse_step(self.block.data@, 0);
        }
        if value_end > 0 {
            let ghost es = self.block.entries();
            self.key = self.first_key.clone();
            self.value_range = (value_start, value_end);
            self.idx = 0;
            proof {
                assert(self.after() =~= es.skip(1));
                assert(self.remaining() =~= es.skip(0));
                assert(self.remaining() =~= es);
            }
        }
    }

    /// Move to the next key in the block.
    pub fn next(&mut self)
        requires
            old(self).wf(),
        ensures
            final(self).wf(),
            final(self).block == old(self).block,
            final(self).remaining() == old(self).after(),
            old(self).remaining().len() > 0 ==> final(self).remaining()
                == old(self).remaining().drop_first(),
            final(self).idx == old(self).idx + if old(self).after().len() > 0 {
                1int
            } else {
                0
            },
            old(self).after().len() == 0 ==> final(self).value_range == old(self).value_range,
    {
        let ghost es = self.block.entries();
        let ghost rest = self.after();
        proof {
            if self.remaining().len() > 0 {
                assert(self.remaining().drop_first() =~= rest);
            }
            if self.value_range.1 < self.block.data@.len() {
                lemma_parse_step(self.block.data@, self.value_range.1 as int);
            }
        }
        let (key_start, key_end, value_start, value_end) = Self::get_kv_range(
            self.block.data.as_slice(),
            self.value_range.1,
        ).unwrap();
        if value_end > 0 {
            let next_key = Self::get_key(self.block.data.as_slice(), key_start, key_end);
            self.key = next_key;
            self.value_range = (value_start, value_end);
            self.idx = self.idx + 1;
            proof {
                assert(self.after() =~= rest.drop_first());
                assert(self.after() =~= es.skip(es.len() - rest.len() + 1));
                assert(self.remaining() =~= rest);
            }
        } else {
            self.key = KeyVec::new();
            assert(self.remaining() =~= rest);
        }
    }

    /// Seek to the first key that >= `key`.
    pub fn seek_to_key(&mut self, key: KeySlice)
        requires
            old(self).wf(),
        ensures
            final(self).wf(),
            final(self).block == old(self).block,
            final(self).remaining() == old(self).block.entries().skip(
                key::seek_index(old(self).block.entries(), key@),
            ),
            final(self).remaining().len() > 0 ==> final(self).idx == key::seek_index(
                old(self).block.entries(),
                key@,
            ),
            final(self).remaining().len() == 0 ==> final(self).value_range == old(self).value_range
                && final(self).idx == old(self).idx,
    {
        let ghost es = self.block.entries();
        proof {
            key::lemma_seek_index(es, key@);
        }
        proof {
            assert(self.block.data.len() == self.block.data@.len());
            lemma_parsed_walk(self.block.data@, 0);
        }
        let ghost keys = stored_keys(self.block.data@, 0);
        let ghost i = key::seek_index(es, key@);
        if let Some((key_start, key_end, value_start, value_end, index)) = Self::find_kv_range(
            self.block.data.as_slice(),
            key,
        ) {
            proof {
                if i < index {
                    assert(keys[i] == es[i].key);
                }
                assert(keys[index as int] == es[index as int].key);
                assert(index == i);
                lemma_entry_at(self.block.data@, index as nat);
                lemma_parse_step(self.block.data@, entry_start(self.block.data@, index as nat));
            }
            let found = Self::get_key(self.block.data.as_slice(), key_start, key_end);
            self.key = found;
            self.value_range = (value_start, value_end);
            self.idx = index;
            proof {
                assert(self.after() =~= es.skip(index + 1));
                assert(self.remaining() =~= es.skip(index as int));
            }
        } else {
            self.key = KeyVec::new();
            proof {
                if i < es.len() {
                    assert(keys[i] == es[i].key);
                }
                assert(self.remaining() =~= es.skip(es.len() as int));
            }
        }
    }
}

} // verus!
