//! How large the tables are that a compaction writes.
use std::sync::Arc;

use vstd::prelude::*;

use crate::compact::executor;
use crate::iterators::concat_iterator;
use crate::key::VEntry;
use crate::lsm_storage::{LsmStorageInner, LsmStorageOptions};
use crate::table;
use crate::table::SsTable;

verus! {

/// Every table but the last has blocks of more than the target size. None is larger by more than its
/// last entry. The estimated size leaves out 6 bytes of the blocks: the number of entries of the last
/// block and its checksum.
pub open spec fn within_target(v: Seq<Arc<SsTable>>, options: LsmStorageOptions) -> bool {
    forall|i: int|
        0 <= i < v.len() ==> {
            let last = (#[trigger] v[i]).entries().last();
            &&& v[i].entries().len() > 0
            &&& i + 1 < v.len() ==> v[i].meta_section_offset > options.target_sst_size + 6
            &&& v[i].meta_section_offset <= options.target_sst_size + 6 + last.key.key.len()
                + last.value.len() + 28
        }
}

/// How entries are cut: every part but the last is above the target size, no part is above it without
/// its last entry, and what is within the target size is not cut.
proof fn lemma_cut_sizes(es: Seq<VEntry>, options: LsmStorageOptions)
    ensures
        ({
            let c = executor::cut(es, options);
            let b = options.block_size as int;
            &&& table::builder::flat(c) == es
            &&& forall|i: int|
                0 <= i < c.len() ==> (#[trigger] c[i]).len() > 0 && table::builder::size_of(
                    c[i].drop_last(),
                    b,
                ) <= options.target_sst_size
            &&& forall|i: int|
                0 <= i < c.len() - 1 ==> table::builder::size_of(#[trigger] c[i], b)
                    > options.target_sst_size
            &&& table::builder::size_of(es, b) <= options.target_sst_size ==> c.len() <= 1
        }),
    decreases es.len(),
{
    let c = executor::cut(es, options);
    let b = options.block_size as int;
    if es.len() == 0 {
        assert(table::builder::flat(c) =~= es);
    } else {
        let front = es.drop_last();
        let e = es.last();
        let done = executor::cut(front, options);
        lemma_cut_sizes(front, options);
        assert(front.push(e) =~= es);
        table::builder::lemma_size_grows(front, e, b);
        if done.len() == 0 {
            assert(table::builder::flat(done) =~= Seq::empty());
        } else {
            assert(done.drop_last().push(done.last()) =~= done);
            table::builder::lemma_flat_push(done.drop_last(), done.last());
        }
        if done.len() == 1 {
            assert(done.drop_last() =~= Seq::empty());
            assert(table::builder::flat(done.drop_last()) =~= Seq::empty());
            assert(done.last() =~= front);
        }
        if c.len() > done.len() {
            assert(c == done.push(seq![e]));
            table::builder::lemma_flat_push(done, seq![e]);
            assert(table::builder::flat(c) =~= es);
            assert(seq![e].drop_last() =~= Seq::empty());
            table::builder::lemma_size_starts(Seq::empty(), b);
        } else {
            table::builder::lemma_flat_push(done.drop_last(), done.last().push(e));
            assert(table::builder::flat(c) =~= es);
            assert(done.last().push(e).drop_last() =~= done.last());
        }
    }
}

/// Every table that a compaction writes but the last has an estimated size above the target size,
/// and none has one without its last entry. Entries that one table can take within the target size
/// come out as one table.
pub proof fn lemma_compacted_sizes(
    before: LsmStorageInner,
    upper: Seq<usize>,
    lower: Seq<usize>,
    bottom: bool,
    v: Seq<Arc<SsTable>>,
)
    requires
        executor::compacted(before, upper, lower, bottom, v),
    ensures
        ({
            let b = before.options.block_size as int;
            let target = before.options.target_sst_size;
            &&& forall|i: int|
                0 <= i < v.len() ==> (#[trigger] v[i]).entries().len() > 0
                    && table::builder::size_of(v[i].entries().drop_last(), b) <= target
            &&& forall|i: int|
                0 <= i < v.len() - 1 ==> table::builder::size_of((#[trigger] v[i]).entries(), b)
                    > target
            &&& table::builder::size_of(concat_iterator::joined(v), b) <= target ==> v.len() <= 1
        }),
{
    let c = concat_iterator::contents(v);
    lemma_cut_sizes(concat_iterator::joined(v), before.options);
    assert forall|i: int| 0 <= i < v.len() implies (#[trigger] v[i]).entries() == c[i] by {}
}

/// The same in bytes of the written tables.
pub proof fn lemma_compacted_within_target(
    before: LsmStorageInner,
    upper: Seq<usize>,
    lower: Seq<usize>,
    bottom: bool,
    v: Seq<Arc<SsTable>>,
)
    requires
        executor::compacted(before, upper, lower, bottom, v),
    ensures
        within_target(v, before.options),
{
    let b = before.options.block_size as int;
    lemma_compacted_sizes(before, upper, lower, bottom, v);
    reveal(executor::estimates_hold);
    assert forall|i: int| 0 <= i < v.len() implies {
        let last = (#[trigger] v[i]).entries().last();
        &&& v[i].entries().len() > 0
        &&& i + 1 < v.len() ==> v[i].meta_section_offset > before.options.target_sst_size + 6
        &&& v[i].meta_section_offset <= before.options.target_sst_size + 6 + last.key.key.len()
            + last.value.len() + 28
    } by {
        let es = v[i].entries();
        assert(es.drop_last().push(es.last()) =~= es);
        table::builder::lemma_size_grows_little(es.drop_last(), es.last(), b);
    }
}

} // verus!
