//! Checking that a table is what a table should be.
use vstd::prelude::*;

use crate::block::MAX_KEY_LEN;
use crate::codec::same_bytes;
use crate::key::{KeyVec, VEntry};
use crate::table::bloom::Bloom;
use crate::table::SsTable;
use crate::{block, key, outside, table};

verus! {

/// Every entry of block `i` and behind has a value whose length fits in a u16 and a key that is
/// not empty.
proof fn lemma_entries_from_fit(t: SsTable, i: int)
    requires
        0 <= i,
    ensures
        forall|j: int|
            0 <= j < t.from_block(i).len() ==> {
                let e = #[trigger] t.from_block(i)[j];
                e.key.key.len() > 0 && e.value.len() <= block::MAX_VALUE_LEN
            },
    decreases t.metas().len() - i,
{
    if i < t.metas().len() {
        lemma_entries_from_fit(t, i + 1);
        let es = t.block(i);
        if t.parsed(i) is Ok && es.len() > 0 {
            let raw = table::raw_block(
                t.file.bytes(),
                t.metas()[i].offset,
                table::block_end(t.metas(), t.meta_section_offset as int, i),
            )->Ok_0;
            let n = crate::codec::from_le(raw.skip(raw.len() - 2));
            block::lemma_parse_packed_fits(raw.take(raw.len() - 2 - 2 * n), 0, None);
        }
        let rest = t.from_block(i + 1);
        assert forall|j: int| 0 <= j < t.from_block(i).len() implies ({
            let e = #[trigger] t.from_block(i)[j];
            e.key.key.len() > 0 && e.value.len() <= block::MAX_VALUE_LEN
        }) by {
            if j >= es.len() {
                assert(t.from_block(i)[j] == rest[j - es.len()]);
            } else {
                assert(t.from_block(i)[j] == es[j]);
            }
        }
    }
}

impl SsTable {
    /// Whether all blocks can be read, none is empty beside others, and the metadata gives their
    /// first and last keys.
    fn blocks_sound(&self) -> (r: bool)
        requires
            self.file.wf(),
        ensures
            r == {
                &&& forall|i: int| 0 <= i < self.metas().len() ==> #[trigger] self.parsed(i) is Ok
                &&& forall|i: int|
                    0 <= i < self.metas().len() && self.metas().len() > 1
                        ==> #[trigger] self.block(i).len() > 0
                &&& forall|i: int|
                    0 <= i < self.metas().len() ==> #[trigger] self.meta_keys_ok(i)
            },
    {
        let n: usize = self.block_meta.len();
        let mut i: usize = 0;
        while i < n
            invariant
                i <= n == self.block_meta@.len(),
                self.file.wf(),
                forall|j: int| 0 <= j < i ==> #[trigger] self.parsed(j) is Ok,
                forall|j: int| 0 <= j < i && n > 1 ==> #[trigger] self.block(j).len() > 0,
                forall|j: int| 0 <= j < i ==> #[trigger] self.meta_keys_ok(j),
            decreases n - i,
        {
            let ghost es = self.block(i as int);
            match self.read_block(i) {
                Ok(b) => {
                    let keys = SsTable::block_keys(b);
                    if keys.len() == 0 {
                        if n > 1 {
                            assert(self.block(i as int).len() == 0);
                            return false;
                        }
                    } else {
                        let meta = &self.block_meta[i];
                        assert(self.metas()[i as int] == meta@);
                        let first_ok = meta.first_key.as_key_slice().equals(
                            keys[0].as_key_slice(),
                        );
                        let last_ok = meta.last_key.as_key_slice().equals(
                            keys[keys.len() - 1].as_key_slice(),
                        );
                        if !first_ok || !last_ok {
                            assert(!self.meta_keys_ok(i as int));
                            return false;
                        }
                    }
                },
                Err(_) => {
                    assert(self.parsed(i as int) is Err);
                    return false;
                },
            }
            assert(self.meta_keys_ok(i as int));
            i = i + 1;
        }
        true
    }

    /// Whether the keys are sorted and not too long.
    fn keys_sound(keys: &Vec<KeyVec>, Ghost(es): Ghost<Seq<VEntry>>) -> (r: bool)
        requires
            table::keys_match(keys@, es),
            forall|j: int|
                0 <= j < es.len() ==> (#[trigger] es[j]).key.key.len() > 0 && es[j].value.len()
                    <= block::MAX_VALUE_LEN,
        ensures
            r == (key::sorted(es) && block::entries_fit(es)),
    {
        let mut i: usize = 0;
        while i < keys.len()
            invariant
                i <= keys@.len(),
                table::keys_match(keys@, es),
                forall|j: int|
                    0 <= j < es.len() ==> (#[trigger] es[j]).key.key.len() > 0 && es[j].value.len()
                        <= block::MAX_VALUE_LEN,
                forall|j: int| 0 <= j < i ==> block::entry_fits(#[trigger] es[j]),
                forall|j: int| 0 <= j < i - 1 ==> key::key_lt((#[trigger] es[j]).key, es[j + 1].key),
            decreases keys@.len() - i,
        {
            if keys[i].key_len() > MAX_KEY_LEN {
                assert(!block::entry_fits(es[i as int]));
                return false;
            }
            if i > 0 && !keys[i - 1].as_key_slice().less_than(keys[i].as_key_slice()) {
                assert(!key::key_lt(es[i - 1].key, es[i as int].key));
                return false;
            }
            i = i + 1;
        }
        proof {
            key::lemma_sorted_by_steps(es);
        }
        true
    }

    /// Whether the filter answers yes to all keys.
    fn filter_sound(b: &Bloom, keys: &Vec<KeyVec>, Ghost(es): Ghost<Seq<VEntry>>) -> (r: bool)
        requires
            b.wf(),
            table::keys_match(keys@, es),
        ensures
            r == forall|i: int|
                0 <= i < es.len() ==> b.covers((#[trigger] es[i]).key.key),
    {
        let mut i: usize = 0;
        while i < keys.len()
            invariant
                i <= keys@.len(),
                b.wf(),
                table::keys_match(keys@, es),
                forall|j: int|
                    0 <= j < i ==> b.covers((#[trigger] es[j]).key.key),
            decreases keys@.len() - i,
        {
            if !b.may_cover(keys[i].key_ref()) {
                assert(!b.covers(es[i as int].key.key));
                return false;
            }
            i = i + 1;
        }
        true
    }

    /// Whether the table is well formed.
    pub fn is_sound(&self) -> (r: bool)
        ensures
            r == self.wf(),
    {
        let size: u64 = match &self.file.0 {
            Some(data) => data.len() as u64,
            None => {
                return false;
            },
        };
        if self.file.1 != size || self.block_meta.len() == 0 || !self.blocks_sound() {
            return false;
        }
        let ghost es = self.entries();
        let keys = self.collect_keys();
        proof {
            lemma_entries_from_fit(*self, 0);
        }
        if !Self::keys_sound(&keys, Ghost(es)) {
            return false;
        }
        match &self.bloom {
            Some(b) => {
                if b.filter.len() == 0 || b.filter.len() > usize::MAX / 8 {
                    assert(!b.wf());
                    return false;
                }
                if !Self::filter_sound(b, &keys, Ghost(es)) {
                    return false;
                }
            },
            None => {},
        }
        let keys_ok = if keys.len() == 0 {
            assert(self.first_key@.key.len() == 0 ==> self.first_key@.key =~= Seq::empty());
            assert(self.last_key@.key.len() == 0 ==> self.last_key@.key =~= Seq::empty());
            self.first_key.is_empty() && self.last_key.is_empty()
        } else {
            same_bytes(self.first_key.key_ref(), keys[0].key_ref()) && same_bytes(
                self.last_key.key_ref(),
                keys[keys.len() - 1].key_ref(),
            )
        };
        keys_ok && self.max_ts == Self::max_ts_of_keys(&keys, Ghost(es))
    }
}

/// A range that holds a key of the table overlaps with the table.
pub proof fn lemma_overlap_is_complete(
    t: SsTable,
    lower: crate::bound::Bound<Seq<u8>>,
    upper: crate::bound::Bound<Seq<u8>>,
    i: int,
)
    requires
        t.wf(),
        0 <= i < t.entries().len(),
        crate::bound::above(lower, t.entries()[i].key.key),
        crate::bound::below(upper, t.entries()[i].key.key),
    ensures
        t.reached_by(lower, upper),
        crate::bound::above(lower, t.last_key@.key),
        crate::bound::below(upper, t.first_key@.key),
{
    broadcast use crate::key::group_key_order;

    let es = t.entries();
    assert(i < es.len() - 1 ==> key::key_lt(es[i].key, es.last().key));
    assert(i > 0 ==> key::key_lt(es[0].key, es[i].key));
}

/// A table all of whose keys lie before the lower end of a range is not reached by it, nor is one all
/// of whose keys lie behind the upper end.
pub proof fn lemma_overlap_is_exact(
    t: SsTable,
    lower: crate::bound::Bound<Seq<u8>>,
    upper: crate::bound::Bound<Seq<u8>>,
)
    requires
        t.wf(),
        t.entries().len() > 0,
    ensures
        t.reached_by(lower, upper) <==> (exists|i: int|
            0 <= i < t.entries().len() && crate::bound::above(
                lower,
                (#[trigger] t.entries()[i]).key.key,
            )) && (exists|i: int|
            0 <= i < t.entries().len() && crate::bound::below(
                upper,
                (#[trigger] t.entries()[i]).key.key,
            )),
{
    broadcast use crate::key::group_key_order;

    let es = t.entries();
    let n = es.len() - 1;
    if t.reached_by(lower, upper) {
        assert(crate::bound::above(lower, es[n].key.key));
        assert(crate::bound::below(upper, es[0].key.key));
    }
    assert forall|i: int| 0 <= i < es.len() && crate::bound::above(
        lower,
        (#[trigger] es[i]).key.key,
    ) implies crate::bound::above(lower, es[n].key.key) by {
        assert(i < n ==> key::key_lt(es[i].key, es[n].key));
    }
    assert forall|i: int| 0 <= i < es.len() && crate::bound::below(
        upper,
        (#[trigger] es[i]).key.key,
    ) implies crate::bound::below(upper, es[0].key.key) by {
        assert(i > 0 ==> key::key_lt(es[0].key, es[i].key));
    }
}

/// The last entry of block `i` and behind is that of the last block.
proof fn lemma_last_entry(t: SsTable, i: int)
    requires
        t.wf(),
        t.entries().len() > 0,
        0 <= i < t.metas().len(),
    ensures
        t.from_block(i).len() > 0,
        t.from_block(i).last() == t.block(t.metas().len() - 1).last(),
        t.block(i).len() > 0,
    decreases t.metas().len() - i,
{
    let n = t.metas().len() as int;
    if n == 1 {
        assert(t.from_block(1).len() == 0);
        assert(t.from_block(0) =~= t.block(0));
    } else {
        assert(t.block(i).len() > 0);
        if i + 1 < n {
            lemma_last_entry(t, i + 1);
        } else {
            assert(t.from_block(i + 1).len() == 0);
            assert(t.from_block(i) =~= t.block(i));
        }
    }
}

/// The block metadata of a table begins with its first key and ends with its last key.
pub proof fn lemma_end_keys(t: &SsTable)
    requires
        t.wf(),
        t.entries().len() > 0,
    ensures
        t.metas()[0].first_key == t.entries()[0].key,
        t.metas().last().last_key == t.entries().last().key,
{
    lemma_last_entry(*t, 0);
    lemma_last_entry(*t, t.metas().len() - 1);
    assert(t.meta_keys_ok(0));
    assert(t.meta_keys_ok(t.metas().len() - 1));
    assert(t.entries()[0] == t.block(0)[0]);
}

} // verus!
