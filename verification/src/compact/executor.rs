//! Running compactions.
use std::sync::Arc;

use vstd::prelude::*;

use crate::compact::ids;
use crate::compact::ids::{append_ids, collect_tier_ids, copy_ids};
use crate::compact::tombstones::CompactionIterator;
use crate::compact::{laws, leveled, simple_leveled, sizes, tiered, tombstones};
use crate::compact::{
    CompactionOptions, SimpleLeveledCompactionController, SimpleLeveledCompactionOptions,
    SimpleLeveledCompactionTask, TieredCompactionController, TieredCompactionOptions,
    TieredCompactionTask,
};
use crate::error::LsmError;
use crate::iterators::merge_iterator;
use crate::iterators::merge_iterator::MergeIterator;
use crate::iterators::two_merge_iterator::TwoMergeIterator;
use crate::iterators::StorageIterator;
use crate::iterators::{concat_iterator, merging};
use crate::key::VEntry;
use crate::lsm_storage::engine;
use crate::lsm_storage::engine::{Action, VAction};
use crate::lsm_storage::state;
use crate::lsm_storage::{LsmStorageInner, LsmStorageOptions, LsmStorageState};
use crate::outside::share;
use crate::table::{SsTable, SsTableBuilder, SsTableIterator};
use crate::{block, key, table};

verus! {

broadcast use {crate::key::group_models, vstd::std_specs::hash::group_hash_axioms};

/// The error of a list of tables of which one is not loaded.
pub open spec fn missing(tables: Map<usize, Arc<SsTable>>, ids: Seq<usize>) -> Option<LsmError>
    decreases ids.len(),
{
    if ids.len() == 0 {
        None
    } else if !tables.contains_key(ids[0]) {
        Some(LsmError::SstableNotFound(ids[0]))
    } else {
        missing(tables, ids.drop_first())
    }
}

/// The merged entries of several tables. Of entries with one key that of the first table is kept.
pub open spec fn merged_tables(tables: Map<usize, Arc<SsTable>>, ids: Seq<usize>) -> Seq<VEntry> {
    merging::merge_all(concat_iterator::contents(state::tables_of(tables, ids)))
}

/// The merged entries of two groups of tables.
pub open spec fn merged(
    tables: Map<usize, Arc<SsTable>>,
    upper: Seq<usize>,
    lower: Seq<usize>,
) -> Seq<VEntry> {
    merging::merge2(merged_tables(tables, upper), merged_tables(tables, lower))
}

/// How entries are cut into tables: a table that has become too large is the last to get the next
/// entry.
pub open spec fn cut(es: Seq<VEntry>, options: LsmStorageOptions) -> Seq<Seq<VEntry>>
    decreases es.len(),
{
    if es.len() == 0 {
        Seq::empty()
    } else {
        let done = cut(es.drop_last(), options);
        if done.len() == 0 || too_large(done.last(), options) {
            done.push(seq![es.last()])
        } else {
            done.drop_last().push(done.last().push(es.last()))
        }
    }
}

/// A table with these entries is not to get more.
pub open spec fn too_large(es: Seq<VEntry>, options: LsmStorageOptions) -> bool {
    table::builder::size_of(es, options.block_size as int) > options.target_sst_size
}

/// The blocks of the tables take the estimated size, and the number of entries and the checksum of
/// the last block.
#[verifier::opaque]
pub open spec fn estimates_hold(tables: Seq<Arc<SsTable>>, options: LsmStorageOptions) -> bool {
    forall|i: int|
        0 <= i < tables.len() ==> (#[trigger] tables[i]).meta_section_offset
            == table::builder::size_of(tables[i].entries(), options.block_size as int) + 6
}

/// Freshly built tables with entries and with the ids from `first` on.
pub open spec fn new_tables_ok(tables: Seq<Arc<SsTable>>, first: int) -> bool {
    forall|i: int|
        0 <= i < tables.len() ==> (#[trigger] tables[i]).wf() && tables[i].id == first + i
            && tables[i].entries().len() > 0 && table::builder::is_built(*tables[i])
}

proof fn lemma_missing(tables: Map<usize, Arc<SsTable>>, ids: Seq<usize>)
    ensures
        missing(tables, ids) is None <==> leveled::all_loaded(tables, ids),
    decreases ids.len(),
{
    if ids.len() > 0 {
        let rest = ids.drop_first();
        lemma_missing(tables, rest);
        if leveled::all_loaded(tables, ids) {
            assert(tables.contains_key(ids[0]));
            assert forall|i: int| 0 <= i < rest.len() implies tables.contains_key(
                #[trigger] rest[i],
            ) by {
                assert(rest[i] == ids[i + 1]);
            }
        }
        if missing(tables, ids) is None {
            assert forall|i: int| 0 <= i < ids.len() implies tables.contains_key(
                #[trigger] ids[i],
            ) by {
                if i > 0 {
                    assert(rest[i - 1] == ids[i]);
                }
            }
        }
    }
}

/// The parts of a sorted sequence are sorted.
pub proof fn lemma_sorted_halves(a: Seq<VEntry>, b: Seq<VEntry>)
    requires
        key::sorted(a + b),
    ensures
        key::sorted(a),
        key::sorted(b),
{
    let s = a + b;
    assert forall|i: int, j: int| #![trigger a[i], a[j]] 0 <= i < j < a.len() implies key::key_lt(
        a[i].key,
        a[j].key,
    ) by {
        assert(s[i] == a[i] && s[j] == a[j]);
    }
    assert forall|i: int, j: int| #![trigger b[i], b[j]] 0 <= i < j < b.len() implies key::key_lt(
        b[i].key,
        b[j].key,
    ) by {
        assert(s[a.len() + i] == b[i] && s[a.len() + j] == b[j]);
    }
}

/// Merged entries of well-formed tables are sorted and fit into blocks.
pub proof fn lemma_merged_tables(tables: Map<usize, Arc<SsTable>>, ids: Seq<usize>)
    requires
        state::tables_ok(tables),
        leveled::all_loaded(tables, ids),
    ensures
        key::sorted(merged_tables(tables, ids)),
        block::entries_fit(merged_tables(tables, ids)),
        merging::all_sorted(concat_iterator::contents(state::tables_of(tables, ids))),
{
    let c = concat_iterator::contents(state::tables_of(tables, ids));
    assert forall|i: int| 0 <= i < c.len() implies key::sorted(#[trigger] c[i])
        && block::entries_fit(c[i]) by {
        assert(tables.contains_key(ids[i]));
        assert(c[i] == tables[ids[i]].entries());
    }
    merging::lemma_merge_all_sorted(c);
    merging::lemma_merge_all_fits(c);
}

/// An empty table has size 0, and no other has.
proof fn lemma_size_of(es: Seq<VEntry>, block_size: int)
    ensures
        table::builder::size_of(es, block_size) > 0 <==> es.len() > 0,
        table::builder::size_of(es, block_size) >= 0,
{
    let (finished, current) = table::builder::spread(es, block_size);
    if es.len() == 0 {
        assert(block::packed_entries(current) =~= Seq::empty());
        assert(table::builder::block_chunks(finished) =~= Seq::empty());
    }
}

impl LsmStorageInner {
    /// The tables with the given ids.
    pub fn collect_sstables(sst_ids: &[usize], snapshot: &LsmStorageState) -> (r: Result<
        Vec<Arc<SsTable>>,
        LsmError,
    >)
        ensures
            match missing(snapshot.sstables@, sst_ids@) {
                Some(e) => r == Err::<Vec<Arc<SsTable>>, LsmError>(e),
                None => r matches Ok(v) && v@ == state::tables_of(snapshot.sstables@, sst_ids@),
            },
    {
        let mut tables: Vec<Arc<SsTable>> = Vec::new();
        let mut i: usize = 0;
        let ghost all = state::tables_of(snapshot.sstables@, sst_ids@);
        assert(sst_ids@.skip(0) =~= sst_ids@);
        while i < sst_ids.len()
            invariant
                i <= sst_ids@.len(),
                all == state::tables_of(snapshot.sstables@, sst_ids@),
                tables@ =~= all.take(i as int),
                missing(snapshot.sstables@, sst_ids@) == missing(
                    snapshot.sstables@,
                    sst_ids@.skip(i as int),
                ),
            decreases sst_ids@.len() - i,
        {
            let id: usize = sst_ids[i];
            assert(sst_ids@.skip(i as int)[0] == id);
            assert(sst_ids@.skip(i as int).drop_first() =~= sst_ids@.skip(i + 1));
            match snapshot.sstables.get(&id) {
                Some(table) => {
                    tables.push(share(table));
                },
                None => {
                    return Err(LsmError::SstableNotFound(id));
                },
            }
            i = i + 1;
        }
        assert(tables@ =~= all);
        Ok(tables)
    }

    /// Merges the tables with the given ids.
    pub fn get_table_merge_iter(sst_ids: &[usize], snapshot: &LsmStorageState) -> (r: Result<
        MergeIterator<SsTableIterator>,
        LsmError,
    >)
        requires
            state::tables_ok(snapshot.sstables@),
        ensures
            match missing(snapshot.sstables@, sst_ids@) {
                Some(e) => r == Err::<MergeIterator<SsTableIterator>, LsmError>(e),
                None => r matches Ok(m) && m.wf() && m.infallible() && m.remaining()
                    == merged_tables(snapshot.sstables@, sst_ids@),
            },
    {
        let tables = match Self::collect_sstables(sst_ids, snapshot) {
            Ok(tables) => tables,
            Err(e) => {
                return Err(e);
            },
        };
        proof {
            lemma_missing(snapshot.sstables@, sst_ids@);
        }
        let ghost c = concat_iterator::contents(tables@);
        let mut sstable_iters: Vec<Box<SsTableIterator>> = Vec::new();
        let mut i: usize = 0;
        assert(merge_iterator::rems(sstable_iters@) =~= c.take(0));
        while i < tables.len()
            invariant
                i <= tables@.len(),
                state::tables_ok(snapshot.sstables@),
                leveled::all_loaded(snapshot.sstables@, sst_ids@),
                tables@ == state::tables_of(snapshot.sstables@, sst_ids@),
                c == concat_iterator::contents(tables@),
                sstable_iters@.len() == i,
                merge_iterator::all_wf(sstable_iters@),
                merge_iterator::all_infallible(sstable_iters@),
                merge_iterator::rems(sstable_iters@) == c.take(i as int),
            decreases tables@.len() - i,
        {
            assert(snapshot.sstables@.contains_key(sst_ids@[i as int]));
            match SsTableIterator::create_and_seek_to_first(share(&tables[i])) {
                Ok(iter) => {
                    let ghost before = sstable_iters@;
                    sstable_iters.push(Box::new(iter));
                    assert(merge_iterator::rems(sstable_iters@) =~= merge_iterator::rems(before).push(
                        iter.remaining(),
                    ));
                    assert(c.take(i + 1) =~= c.take(i as int).push(c[i as int]));
                },
                Err(e) => {
                    return Err(e);
                },
            }
            i = i + 1;
        }
        assert(c.take(i as int) =~= c);
        Ok(MergeIterator::create(sstable_iters))
    }

    /// Everything but the next id is the same.
    pub open spec fn same_but_next(&self, other: LsmStorageInner) -> bool {
        &&& self.state == other.state
        &&& self.same_settings(other)
        &&& self.mvcc == other.mvcc
    }

    /// Merges two groups of tables into new tables. Their ids are the next ones.
    #[verifier::spinoff_prover]
    #[verifier::rlimit(60)]
    pub fn compact_2_levels(
        &mut self,
        upper_sst_ids: &[usize],
        lower_sst_ids: &[usize],
        is_lower_level_bottom_level: bool,
    ) -> (r: Result<Vec<Arc<SsTable>>, LsmError>)
        requires
            old(self).wf(),
        ensures
            final(self).same_but_next(*old(self)),
            r is Err ==> final(self).next_sst_id == old(self).next_sst_id,
            match (
                missing(old(self).state.sstables@, upper_sst_ids@),
                missing(old(self).state.sstables@, lower_sst_ids@),
            ) {
                (Some(e), _) => r == Err::<Vec<Arc<SsTable>>, LsmError>(e),
                (None, Some(e)) => r == Err::<Vec<Arc<SsTable>>, LsmError>(e),
                (None, None) => match r {
                    Ok(v) => final(self).next_sst_id == old(self).next_sst_id + v@.len()
                        && compacted(
                        *old(self),
                        upper_sst_ids@,
                        lower_sst_ids@,
                        is_lower_level_bottom_level,
                        v@,
                    ) && ids_left(
                        *old(self),
                        upper_sst_ids@,
                        lower_sst_ids@,
                        is_lower_level_bottom_level,
                    ),
                    Err(e) => e == LsmError::OutOfIds && !ids_left(
                        *old(self),
                        upper_sst_ids@,
                        lower_sst_ids@,
                        is_lower_level_bottom_level,
                    ),
                },
            },
            r matches Ok(v) ==> sizes::within_target(v@, old(self).options),
    {
        let ghost bottom = is_lower_level_bottom_level;
        let ghost s = merged(self.state.sstables@, upper_sst_ids@, lower_sst_ids@);
        let ghost es = tombstones::kept(s, bottom);
        let ghost options = self.options;
        proof {
            lemma_missing(self.state.sstables@, upper_sst_ids@);
            lemma_missing(self.state.sstables@, lower_sst_ids@);
        }
        let upper = match Self::get_table_merge_iter(upper_sst_ids, &self.state) {
            Ok(iter) => iter,
            Err(e) => {
                return Err(e);
            },
        };
        let lower = match Self::get_table_merge_iter(lower_sst_ids, &self.state) {
            Ok(iter) => iter,
            Err(e) => {
                return Err(e);
            },
        };
        let two_merge_iterator = match TwoMergeIterator::create(upper, lower) {
            Ok(iter) => iter,
            Err(e) => {
                return Err(e);
            },
        };
        // Remove empty values in the lowest layer.
        let mut iter = match CompactionIterator::create(
            two_merge_iterator,
            is_lower_level_bottom_level,
        ) {
            Ok(iter) => iter,
            Err(e) => {
                return Err(e);
            },
        };
        let first_id: usize = self.next_sst_id;
        let mut new_tables: Vec<Arc<SsTable>> = Vec::new();
        let mut cur_builder = SsTableBuilder::new(self.options.block_size);
        let ghost mut done: Seq<VEntry> = Seq::empty();
        proof {
            lemma_kept_merged(self.state.sstables@, upper_sst_ids@, lower_sst_ids@, bottom);
            assert(done + iter.remaining() =~= es);
            lemma_cutting_start(new_tables@, cur_builder.entries(), options);
        }
        while iter.is_valid()
            invariant
                iter.wf(),
                done + iter.remaining() == es,
                key::sorted(es),
                block::entries_fit(es),
                bottom == is_lower_level_bottom_level,
                options == self.options,
                engine::options_ok(options),
                self.same_but_next(*old(self)),
                es == tombstones::kept(
                    merged(old(self).state.sstables@, upper_sst_ids@, lower_sst_ids@),
                    bottom,
                ),
                missing(old(self).state.sstables@, upper_sst_ids@) is None,
                missing(old(self).state.sstables@, lower_sst_ids@) is None,
                first_id == old(self).next_sst_id,
                self.next_sst_id == first_id + new_tables@.len(),
                new_tables@.len() > 0 ==> self.next_sst_id + 2 <= usize::MAX,
                builder_ok(cur_builder, options),
                cutting(
                    done,
                    new_tables@,
                    cur_builder.entries(),
                    old(self).next_sst_id as int,
                    options,
                ),
            decreases iter.remaining().len(),
        {
            let ghost rest = iter.remaining();
            let ghost e = rest[0];
            proof {
                assert(es[done.len() as int] == e);
                assert(block::entry_fits(es[done.len() as int]));
                lemma_sorted_halves(done, rest);
            }
            if cur_builder.estimated_size() > self.options.target_sst_size {
                proof {
                    lemma_size_of(cur_builder.entries(), options.block_size as int);
                    lemma_cutting_sorted(
                        done,
                        new_tables@,
                        cur_builder.entries(),
                        old(self).next_sst_id as int,
                        options,
                    );
                }
                if self.next_sst_id >= usize::MAX - 2 {
                    proof {
                        lemma_cutting_needs_more(
                            done,
                            rest,
                            new_tables@,
                            cur_builder.entries(),
                            first_id as int,
                            options,
                        );
                    }
                    self.next_sst_id = first_id;
                    return Err(LsmError::OutOfIds);
                }
                let id: usize = self.next_sst_id();
                let ghost before = new_tables@;
                let ghost current = cur_builder.entries();
                let new_table = Arc::new(cur_builder.build(id));
                new_tables.push(new_table);
                cur_builder = SsTableBuilder::new(self.options.block_size);
                proof {
                    lemma_cutting_build(
                        done,
                        before,
                        current,
                        new_table,
                        old(self).next_sst_id as int,
                        options,
                    );
                    assert(new_tables@ =~= before.push(new_table));
                }
            }
            let ghost current = cur_builder.entries();
            cur_builder.add(iter.key(), iter.value());
            proof {
                assert(cur_builder.entries() =~= current.push(e));
                lemma_cutting_add(
                    done,
                    new_tables@,
                    current,
                    e,
                    old(self).next_sst_id as int,
                    options,
                );
                assert(done.push(e) + rest.drop_first() =~= done + rest);
                done = done.push(e);
            }
            match iter.next() {
                Ok(()) => {},
                Err(e) => {
                    return Err(e);
                },
            }
        }
        proof {
            assert(done =~= es);
            lemma_size_of(cur_builder.entries(), options.block_size as int);
            lemma_cutting_sorted(
                es,
                new_tables@,
                cur_builder.entries(),
                old(self).next_sst_id as int,
                options,
            );
        }
        // Process the last current builder.
        if cur_builder.estimated_size() > 0 {
            if self.next_sst_id >= usize::MAX - 2 {
                self.next_sst_id = first_id;
                return Err(LsmError::OutOfIds);
            }
            let id: usize = self.next_sst_id();
            let ghost before = new_tables@;
            let ghost current = cur_builder.entries();
            let new_table = Arc::new(cur_builder.build(id));
            new_tables.push(new_table);
            proof {
                lemma_cutting_end(
                    es,
                    before,
                    current,
                    new_table,
                    old(self).next_sst_id as int,
                    options,
                );
                assert(new_tables@ =~= before.push(new_table));
            }
        } else {
            proof {
                lemma_cutting_done(
                    es,
                    new_tables@,
                    old(self).next_sst_id as int,
                    options,
                );
            }
        }
        proof {
            sizes::lemma_compacted_within_target(
                *old(self),
                upper_sst_ids@,
                lower_sst_ids@,
                bottom,
                new_tables@,
            );
        }
        Ok(new_tables)
    }
}

/// What a compaction keeps of tables is sorted and fits into blocks.
proof fn lemma_kept_merged(
    tables: Map<usize, Arc<SsTable>>,
    upper: Seq<usize>,
    lower: Seq<usize>,
    bottom: bool,
)
    requires
        state::tables_ok(tables),
        leveled::all_loaded(tables, upper),
        leveled::all_loaded(tables, lower),
    ensures
        key::sorted(tombstones::kept(merged(tables, upper, lower), bottom)),
        block::entries_fit(tombstones::kept(merged(tables, upper, lower), bottom)),
{
    lemma_merged_tables(tables, upper);
    lemma_merged_tables(tables, lower);
    let a = merged_tables(tables, upper);
    let b = merged_tables(tables, lower);
    merging::lemma_merge2_sorted(a, b);
    merging::lemma_merge2_fits(a, b);
    tombstones::lemma_pruned(merging::merge2(a, b));
}

/// The ids of tables.
pub open spec fn table_ids(tables: Seq<Arc<SsTable>>) -> Seq<usize> {
    Seq::new(tables.len(), |i: int| tables[i].id)
}

/// The tables without those of the given ids.
pub open spec fn remove_all(m: Map<usize, Arc<SsTable>>, ids: Seq<usize>) -> Map<
    usize,
    Arc<SsTable>,
>
    decreases ids.len(),
{
    if ids.len() == 0 {
        m
    } else {
        remove_all(m, ids.drop_last()).remove(ids.last())
    }
}

/// The tables together with new ones.
pub open spec fn insert_all(m: Map<usize, Arc<SsTable>>, new: Seq<Arc<SsTable>>) -> Map<
    usize,
    Arc<SsTable>,
>
    decreases new.len(),
{
    if new.len() == 0 {
        m
    } else {
        insert_all(m, new.drop_last()).insert(new.last().id, new.last())
    }
}

/// The tables after some have been replaced by others.
pub open spec fn replaced(
    m: Map<usize, Arc<SsTable>>,
    consumed: Seq<usize>,
    new: Seq<Arc<SsTable>>,
) -> Map<usize, Arc<SsTable>> {
    insert_all(remove_all(m, consumed), new)
}

/// Writing the files of tables.
pub open spec fn write_tables(tables: Seq<Arc<SsTable>>) -> Seq<VAction> {
    Seq::new(tables.len(), |i: int| VAction::WriteSst(tables[i]))
}

/// The engine after two groups of tables have been merged into new ones, apart from its lists.
pub open spec fn tables_replaced(
    before: LsmStorageInner,
    after: LsmStorageInner,
    consumed: Seq<usize>,
    v: Seq<Arc<SsTable>>,
    r: Seq<Action>,
) -> bool {
    &&& after.state.sstables@ == replaced(before.state.sstables@, consumed, v)
    &&& after.next_sst_id == before.next_sst_id + v.len()
    &&& after.same_settings(before)
    &&& after.mvcc == before.mvcc
    &&& engine::action_views(r) == write_tables(v)
}

/// The engine after a task of simple leveled compaction.
pub open spec fn simple_compacted(
    before: LsmStorageInner,
    after: LsmStorageInner,
    task: SimpleLeveledCompactionTask,
    v: Seq<Arc<SsTable>>,
    r: Seq<Action>,
) -> bool {
    &&& compacted(
        before,
        task.upper_level_sst_ids@,
        task.lower_level_sst_ids@,
        task.is_lower_level_bottom_level,
        v,
    )
    &&& simple_leveled::simple_lists(before.state, after.state, task, table_ids(v))
    &&& tables_replaced(
        before,
        after,
        simple_leveled::simple_consumed(before.state, task),
        v,
        r,
    )
}

/// The engine after a task of tiered compaction.
pub open spec fn tiers_compacted(
    before: LsmStorageInner,
    after: LsmStorageInner,
    task: TieredCompactionTask,
    v: Seq<Arc<SsTable>>,
    r: Seq<Action>,
) -> bool {
    &&& compacted(
        before,
        ids::tier_ids(task.tiers@.drop_last()),
        task.tiers@.last().1@,
        task.bottom_tier_included,
        v,
    )
    &&& tiered::tier_lists(before.state, after.state, task, table_ids(v))
    &&& tables_replaced(before, after, ids::tier_ids(task.tiers@), v, r)
}

/// There are no tables below L1.
pub open spec fn l1_is_bottom(levels: Seq<(usize, Vec<usize>)>) -> bool {
    forall|i: int| 0 < i < levels.len() ==> (#[trigger] levels[i]).1@.len() == 0
}

/// The engine after L0 and L1 have been merged into a new L1.
pub open spec fn fully_compacted(
    before: LsmStorageInner,
    after: LsmStorageInner,
    v: Seq<Arc<SsTable>>,
    r: Seq<Action>,
) -> bool {
    &&& compacted(
        before,
        before.state.l0_sstables@,
        before.state.levels@[0].1@,
        l1_is_bottom(before.state.levels@),
        v,
    )
    &&& after.state.memtable == before.state.memtable
    &&& after.state.imm_memtables == before.state.imm_memtables
    &&& after.state.l0_sstables@.len() == 0
    &&& after.state.levels@.len() == before.state.levels@.len()
    &&& after.state.levels@[0].0 == 1
    &&& after.state.levels@[0].1@ == table_ids(v)
    &&& forall|i: int|
        0 < i < after.state.levels@.len() ==> #[trigger] after.state.levels@[i]
            == before.state.levels@[i]
    &&& tables_replaced(
        before,
        after,
        before.state.l0_sstables@ + before.state.levels@[0].1@,
        v,
        r,
    )
}

/// L0 and L1 have been merged into a new L1.
pub open spec fn fully_triggered(
    before: LsmStorageInner,
    after: LsmStorageInner,
    r: Seq<Action>,
) -> bool {
    exists|v: Seq<Arc<SsTable>>| #[trigger] fully_compacted(before, after, v, r)
}

/// There are ids for all tables that two groups of tables are merged into.
pub open spec fn ids_left(
    before: LsmStorageInner,
    upper: Seq<usize>,
    lower: Seq<usize>,
    bottom: bool,
) -> bool {
    let n = cut(tombstones::kept(merged(before.state.sstables@, upper, lower), bottom), before.options).len();
    n == 0 || before.next_sst_id + n + 2 <= usize::MAX
}

/// There are ids for all tables that the tiers of a task are merged into.
pub open spec fn tier_ids_left(before: LsmStorageInner, task: TieredCompactionTask) -> bool {
    ids_left(
        before,
        ids::tier_ids(task.tiers@.drop_last()),
        task.tiers@.last().1@,
        task.bottom_tier_included,
    )
}

/// There are ids for all tables that the levels of a task are merged into.
pub open spec fn simple_ids_left(
    before: LsmStorageInner,
    task: SimpleLeveledCompactionTask,
) -> bool {
    ids_left(
        before,
        task.upper_level_sst_ids@,
        task.lower_level_sst_ids@,
        task.is_lower_level_bottom_level,
    )
}

impl LsmStorageInner {
    /// Takes consumed tables out and puts new ones in.
    pub fn update_engine_sstables(
        engine: &mut LsmStorageState,
        consumed_sst_ids: &[usize],
        new_sstables: &Vec<Arc<SsTable>>,
    )
        ensures
            final(engine).sstables@ == replaced(
                old(engine).sstables@,
                consumed_sst_ids@,
                new_sstables@,
            ),
            final(engine).memtable == old(engine).memtable,
            final(engine).imm_memtables == old(engine).imm_memtables,
            final(engine).l0_sstables == old(engine).l0_sstables,
            final(engine).levels == old(engine).levels,
    {
        let mut i: usize = 0;
        assert(consumed_sst_ids@.take(0) =~= Seq::empty());
        while i < consumed_sst_ids.len()
            invariant
                i <= consumed_sst_ids@.len(),
                engine.sstables@ == remove_all(
                    old(engine).sstables@,
                    consumed_sst_ids@.take(i as int),
                ),
                engine.memtable == old(engine).memtable,
                engine.imm_memtables == old(engine).imm_memtables,
                engine.l0_sstables == old(engine).l0_sstables,
                engine.levels == old(engine).levels,
            decreases consumed_sst_ids@.len() - i,
        {
            engine.sstables.remove(&consumed_sst_ids[i]);
            assert(consumed_sst_ids@.take(i + 1).drop_last() =~= consumed_sst_ids@.take(i as int));
            i = i + 1;
        }
        assert(consumed_sst_ids@.take(i as int) =~= consumed_sst_ids@);
        let ghost rest = engine.sstables@;
        let mut j: usize = 0;
        assert(new_sstables@.take(0) =~= Seq::empty());
        while j < new_sstables.len()
            invariant
                j <= new_sstables@.len(),
                engine.sstables@ == insert_all(rest, new_sstables@.take(j as int)),
                engine.memtable == old(engine).memtable,
                engine.imm_memtables == old(engine).imm_memtables,
                engine.l0_sstables == old(engine).l0_sstables,
                engine.levels == old(engine).levels,
            decreases new_sstables@.len() - j,
        {
            engine.sstables.insert(new_sstables[j].sst_id(), share(&new_sstables[j]));
            assert(new_sstables@.take(j + 1).drop_last() =~= new_sstables@.take(j as int));
            j = j + 1;
        }
        assert(new_sstables@.take(j as int) =~= new_sstables@);
    }

    /// The ids of tables.
    fn ids_of(tables: &Vec<Arc<SsTable>>) -> (r: Vec<usize>)
        ensures
            r@ == table_ids(tables@),
    {
        let mut out: Vec<usize> = Vec::new();
        let mut i: usize = 0;
        while i < tables.len()
            invariant
                i <= tables@.len(),
                out@ =~= table_ids(tables@).take(i as int),
            decreases tables@.len() - i,
        {
            out.push(tables[i].sst_id());
            i = i + 1;
        }
        assert(out@ =~= table_ids(tables@));
        out
    }

    /// Writing the files of tables.
    fn write_actions(tables: &Vec<Arc<SsTable>>) -> (r: Vec<Action>)
        ensures
            engine::action_views(r@) == write_tables(tables@),
    {
        let mut out: Vec<Action> = Vec::new();
        let mut i: usize = 0;
        while i < tables.len()
            invariant
                i <= tables@.len(),
                engine::action_views(out@) =~= write_tables(tables@).take(i as int),
            decreases tables@.len() - i,
        {
            let ghost before = out@;
            out.push(Action::WriteSst(share(&tables[i])));
            assert(engine::action_views(out@) =~= engine::action_views(before).push(VAction::WriteSst(tables@[i as int])));
            i = i + 1;
        }
        assert(engine::action_views(out@) =~= write_tables(tables@));
        out
    }

    /// Merges the tiers of a task.
    pub fn compact_tier(&mut self, task: &TieredCompactionTask) -> (r: Result<
        Vec<Arc<SsTable>>,
        LsmError,
    >)
        requires
            old(self).wf(),
        ensures
            final(self).same_but_next(*old(self)),
            r is Err ==> final(self).next_sst_id == old(self).next_sst_id,
            task.tiers@.len() == 0 ==> (r matches Ok(v) && v@.len() == 0
                && final(self).next_sst_id == old(self).next_sst_id),
            task.tiers@.len() > 0 ==> match (
                missing(old(self).state.sstables@, ids::tier_ids(task.tiers@.drop_last())),
                missing(old(self).state.sstables@, task.tiers@.last().1@),
            ) {
                (Some(e), _) => r == Err::<Vec<Arc<SsTable>>, LsmError>(e),
                (None, Some(e)) => r == Err::<Vec<Arc<SsTable>>, LsmError>(e),
                (None, None) => match r {
                    Ok(v) => final(self).next_sst_id == old(self).next_sst_id + v@.len()
                        && compacted(
                        *old(self),
                        ids::tier_ids(task.tiers@.drop_last()),
                        task.tiers@.last().1@,
                        task.bottom_tier_included,
                        v@,
                    ) && tier_ids_left(*old(self), *task),
                    Err(e) => e == LsmError::OutOfIds && !tier_ids_left(*old(self), *task),
                },
            },
    {
        let n: usize = task.tiers.len();
        if n == 0 {
            return Ok(Vec::new());
        }
        let upper_tiers = vstd::slice::slice_subrange(task.tiers.as_slice(), 0, n - 1);
        assert(upper_tiers@ =~= task.tiers@.drop_last());
        let upper_tier_sst_ids = collect_tier_ids(upper_tiers);
        let last_tier_sst_ids = copy_ids(task.tiers[n - 1].1.as_slice());
        self.compact_2_levels(
            upper_tier_sst_ids.as_slice(),
            last_tier_sst_ids.as_slice(),
            task.bottom_tier_included,
        )
    }

    /// Whether there are no tables below L1.
    fn is_l1_bottom(levels: &Vec<(usize, Vec<usize>)>) -> (r: bool)
        ensures
            r == l1_is_bottom(levels@),
    {
        let mut i: usize = 1;
        while i < levels.len()
            invariant
                1 <= i,
                forall|j: int| 0 < j < i && j < levels@.len() ==> (#[trigger] levels@[j]).1@.len() == 0,
            decreases levels@.len() - i,
        {
            if levels[i].1.len() > 0 {
                assert(levels@[i as int].1@.len() > 0);
                return false;
            }
            i = i + 1;
        }
        true
    }

    /// Merges L0 and L1 into a new L1. Where there are tables below it, tombstones stay.
    pub fn force_full_compaction(&mut self) -> (r: Result<Vec<Action>, LsmError>)
        requires
            old(self).wf(),
            old(self).state.levels@.len() > 0,
        ensures
            ids_left(
                *old(self),
                old(self).state.l0_sstables@,
                old(self).state.levels@[0].1@,
                l1_is_bottom(old(self).state.levels@),
            ) ==> (r matches Ok(actions) && fully_triggered(*old(self), *final(self), actions@)),
            !ids_left(
                *old(self),
                old(self).state.l0_sstables@,
                old(self).state.levels@[0].1@,
                l1_is_bottom(old(self).state.levels@),
            ) ==> r == Err::<Vec<Action>, LsmError>(LsmError::OutOfIds) && *final(self) == *old(
                self,
            ),
            old(self).sst_ids_ok() ==> final(self).wf() && final(self).sst_ids_ok(),
            old(self).ids_ok() ==> final(self).ids_ok(),
            old(self).sst_ids_ok() && old(self).aged() ==> final(self).aged(),
    {
        proof {
            assert(old(self).state.level_ok(0));
            lemma_missing(old(self).state.sstables@, old(self).state.l0_sstables@);
            lemma_missing(old(self).state.sstables@, old(self).state.levels@[0].1@);
        }
        let is_bottom = Self::is_l1_bottom(&self.state.levels);
        let l0_sst_ids = copy_ids(self.state.l0_sstables.as_slice());
        let l1_sst_ids = copy_ids(self.state.levels[0].1.as_slice());
        let new_l1_tables = match self.compact_2_levels(
            l0_sst_ids.as_slice(),
            l1_sst_ids.as_slice(),
            is_bottom,
        ) {
            Ok(tables) => tables,
            Err(e) => {
                return Err(e);
            },
        };
        // Update table ids.
        self.state.l0_sstables = Vec::new();
        let l1_sstables = Self::ids_of(&new_l1_tables);
        self.state.levels.set(0, (1, l1_sstables));
        // Drop old tables and add new ones.
        let mut consumed = l0_sst_ids;
        append_ids(&mut consumed, l1_sst_ids.as_slice());
        Self::update_engine_sstables(&mut self.state, consumed.as_slice(), &new_l1_tables);
        let actions = Self::write_actions(&new_l1_tables);
        proof {
            assert(fully_compacted(*old(self), *self, new_l1_tables@, actions@));
            if old(self).sst_ids_ok() {
                laws::lemma_full_compaction_keeps(
                    *old(self),
                    *self,
                    new_l1_tables@,
                    actions@,
                    Seq::empty(),
                    0,
                );
            }
        }
        Ok(actions)
    }

    /// Runs the task of simple leveled compaction that is due, if there is one.
    #[verifier::spinoff_prover]
    #[verifier::rlimit(40)]
    pub fn trigger_simple_compaction(&mut self, controller: SimpleLeveledCompactionController) -> (r:
        Result<Vec<Action>, LsmError>)
        requires
            old(self).wf(),
            simple_leveled::can_generate(controller.options, old(self).state),
        ensures
            simple_triggered(controller.options, *old(self), *final(self), r),
            old(self).sst_ids_ok() ==> final(self).wf() && final(self).sst_ids_ok(),
            old(self).ids_ok() ==> final(self).ids_ok(),
            old(self).sst_ids_ok() && old(self).aged() ==> final(self).aged(),
    {
        let task = match controller.generate_compaction_task(&self.state) {
            Some(task) => task,
            None => {
                return Ok(Vec::new());
            },
        };
        proof {
            lemma_simple_task(controller.options, *old(self), task);
        }
        let compacted_sstables = match self.compact_2_levels(
            task.upper_level_sst_ids.as_slice(),
            task.lower_level_sst_ids.as_slice(),
            task.is_lower_level_bottom_level,
        ) {
            Ok(tables) => tables,
            Err(e) => {
                return Err(e);
            },
        };
        let compacted_sst_ids = Self::ids_of(&compacted_sstables);
        let mut snapshot = LsmStorageState::create(&self.options);
        std::mem::swap(&mut snapshot, &mut self.state);
        let (new_engine, consumed_sst_ids) = controller.apply_compaction_result(
            snapshot,
            &task,
            compacted_sst_ids.as_slice(),
        );
        self.state = new_engine;
        Self::update_engine_sstables(
            &mut self.state,
            consumed_sst_ids.as_slice(),
            &compacted_sstables,
        );
        let actions = Self::write_actions(&compacted_sstables);
        let ran: Result<Vec<Action>, LsmError> = Ok(actions);
        proof {
            assert(simple_compacted(*old(self), *self, task, compacted_sstables@, actions@));
            assert(simple_ids_left(*old(self), task));
            lemma_simple_ran(
                controller.options,
                *old(self),
                *self,
                task,
                compacted_sstables@,
                ran,
            );
            if old(self).sst_ids_ok() {
                laws::lemma_simple_compaction_keeps(
                    controller.options,
                    *old(self),
                    *self,
                    task,
                    compacted_sstables@,
                    actions@,
                    Seq::empty(),
                    0,
                );
            }
        }
        ran
    }

    /// Runs the task of tiered compaction that is due, if there is one.
    #[verifier::spinoff_prover]
    #[verifier::rlimit(40)]
    pub fn trigger_tier_compaction(&mut self, controller: TieredCompactionController) -> (r: Result<
        Vec<Action>,
        LsmError,
    >)
        requires
            old(self).wf(),
            old(self).state.levels@.len() < usize::MAX,
            tiered::counts_fit(old(self).state.levels@, controller.options),
            tiered::has_tiers(old(self).state.levels@, controller.options),
        ensures
            tiers_triggered(controller.options, *old(self), *final(self), r),
            old(self).sst_ids_ok() ==> final(self).wf() && final(self).sst_ids_ok(),
            old(self).ids_ok() ==> final(self).ids_ok(),
            old(self).sst_ids_ok() && old(self).aged() ==> final(self).aged(),
    {
        let task = match controller.generate_compaction_task(&self.state) {
            Some(task) => task,
            None => {
                return Ok(Vec::new());
            },
        };
        proof {
            lemma_tier_task(controller.options, *old(self), task);
        }
        let compacted_sstables = match self.compact_tier(&task) {
            Ok(tables) => tables,
            Err(e) => {
                return Err(e);
            },
        };
        let compacted_sst_ids = Self::ids_of(&compacted_sstables);
        let mut snapshot = LsmStorageState::create(&self.options);
        std::mem::swap(&mut snapshot, &mut self.state);
        let (new_engine, consumed_sst_ids) = controller.apply_compaction_result(
            snapshot,
            &task,
            compacted_sst_ids.as_slice(),
        );
        self.state = new_engine;
        Self::update_engine_sstables(
            &mut self.state,
            consumed_sst_ids.as_slice(),
            &compacted_sstables,
        );
        let actions = Self::write_actions(&compacted_sstables);
        let ran: Result<Vec<Action>, LsmError> = Ok(actions);
        proof {
            assert(tiers_compacted(*old(self), *self, task, compacted_sstables@, actions@));
            assert(tier_ids_left(*old(self), task));
            lemma_tiers_ran(
                controller.options,
                *old(self),
                *self,
                task,
                compacted_sstables@,
                ran,
            );
            if old(self).sst_ids_ok() {
                laws::lemma_tiered_compaction_keeps(
                    controller.options,
                    *old(self),
                    *self,
                    task,
                    compacted_sstables@,
                    actions@,
                    Seq::empty(),
                    0,
                );
            }
        }
        ran
    }

    /// There is a compaction strategy that runs by itself, and it can decide about the state.
    pub open spec fn can_compact(&self) -> bool {
        match self.options.compaction_options {
            CompactionOptions::Simple(o) => simple_leveled::can_generate(o, self.state),
            CompactionOptions::Tiered(o) => {
                &&& self.state.levels@.len() < usize::MAX
                &&& tiered::counts_fit(self.state.levels@, o)
                &&& tiered::has_tiers(self.state.levels@, o)
            },
            _ => false,
        }
    }

    /// Runs the compaction task that is due, if there is one.
    pub fn trigger_compaction(&mut self) -> (r: Result<Vec<Action>, LsmError>)
        requires
            old(self).wf(),
            old(self).can_compact(),
        ensures
            match old(self).options.compaction_options {
                CompactionOptions::Simple(o) => simple_triggered(o, *old(self), *final(self), r),
                CompactionOptions::Tiered(o) => tiers_triggered(o, *old(self), *final(self), r),
                _ => false,
            },
            old(self).sst_ids_ok() ==> final(self).wf() && final(self).sst_ids_ok(),
            old(self).ids_ok() ==> final(self).ids_ok(),
            old(self).sst_ids_ok() && old(self).aged() ==> final(self).aged(),
    {
        match self.options.compaction_options {
            CompactionOptions::Simple(options) => {
                let controller = SimpleLeveledCompactionController::new(options);
                self.trigger_simple_compaction(controller)
            },
            CompactionOptions::Tiered(options) => {
                let controller = TieredCompactionController::new(options);
                self.trigger_tier_compaction(controller)
            },
            _ => Ok(Vec::new()),
        }
    }
}

/// The task of simple leveled compaction that is due, if there is one, has been run. Where there are
/// not enough ids for its tables, nothing has been done.
pub open spec fn simple_triggered(
    options: SimpleLeveledCompactionOptions,
    before: LsmStorageInner,
    after: LsmStorageInner,
    r: Result<Vec<Action>, LsmError>,
) -> bool {
    match r {
        Ok(actions) => {
            ||| simple_leveled::generated(options, before.state, None) && after == before
                && actions@.len() == 0
            ||| exists|task: SimpleLeveledCompactionTask, v: Seq<Arc<SsTable>>|
                simple_leveled::generated(options, before.state, Some(task)) && simple_ids_left(
                    before,
                    task,
                ) && #[trigger] simple_compacted(before, after, task, v, actions@)
        },
        Err(e) => {
            &&& e == LsmError::OutOfIds
            &&& after == before
            &&& exists|task: SimpleLeveledCompactionTask|
                #[trigger] simple_leveled::generated(options, before.state, Some(task))
                    && !simple_ids_left(before, task)
        },
    }
}

/// The task of tiered compaction that is due, if there is one, has been run. Where there are not
/// enough ids for its tables, nothing has been done.
pub open spec fn tiers_triggered(
    options: TieredCompactionOptions,
    before: LsmStorageInner,
    after: LsmStorageInner,
    r: Result<Vec<Action>, LsmError>,
) -> bool {
    match r {
        Ok(actions) => {
            ||| tiered::tiers_generated(options, before.state, None) && after == before
                && actions@.len() == 0
            ||| exists|task: TieredCompactionTask, v: Seq<Arc<SsTable>>|
                tiered::tiers_generated(options, before.state, Some(task)) && tier_ids_left(
                    before,
                    task,
                ) && #[trigger] tiers_compacted(before, after, task, v, actions@)
        },
        Err(e) => {
            &&& e == LsmError::OutOfIds
            &&& after == before
            &&& exists|task: TieredCompactionTask|
                #[trigger] tiered::tiers_generated(options, before.state, Some(task))
                    && !tier_ids_left(before, task)
        },
    }
}

proof fn lemma_simple_ran(
    options: SimpleLeveledCompactionOptions,
    before: LsmStorageInner,
    after: LsmStorageInner,
    task: SimpleLeveledCompactionTask,
    v: Seq<Arc<SsTable>>,
    r: Result<Vec<Action>, LsmError>,
)
    requires
        simple_leveled::generated(options, before.state, Some(task)),
        simple_ids_left(before, task),
        r is Ok,
        simple_compacted(before, after, task, v, r->Ok_0@),
    ensures
        simple_triggered(options, before, after, r),
{
}

proof fn lemma_tiers_ran(
    options: TieredCompactionOptions,
    before: LsmStorageInner,
    after: LsmStorageInner,
    task: TieredCompactionTask,
    v: Seq<Arc<SsTable>>,
    r: Result<Vec<Action>, LsmError>,
)
    requires
        tiered::tiers_generated(options, before.state, Some(task)),
        tier_ids_left(before, task),
        r is Ok,
        tiers_compacted(before, after, task, v, r->Ok_0@),
    ensures
        tiers_triggered(options, before, after, r),
{
}

/// The level at which `first_due` stops.
pub proof fn lemma_first_due(levels: Seq<(usize, Vec<usize>)>, ratio: int, i: int)
    requires
        0 <= i,
        simple_leveled::first_due(levels, ratio, i) is Some,
    ensures
        ({
            let j = simple_leveled::first_due(levels, ratio, i)->0;
            i <= j && j + 1 < levels.len()
        }),
    decreases levels.len() - i,
{
    if i + 1 < levels.len() && !simple_leveled::too_few_below(levels, ratio, i) {
        lemma_first_due(levels, ratio, i + 1);
    }
}

/// A task of simple leveled compaction speaks of levels and tables that are there.
pub proof fn lemma_simple_task(
    options: SimpleLeveledCompactionOptions,
    e: LsmStorageInner,
    task: SimpleLeveledCompactionTask,
)
    requires
        e.wf(),
        simple_leveled::can_generate(options, e.state),
        simple_leveled::generated(options, e.state, Some(task)),
    ensures
        simple_leveled::simple_task_ok(task, e.state.levels@.len() as int),
        leveled::all_loaded(e.state.sstables@, task.upper_level_sst_ids@),
        leveled::all_loaded(e.state.sstables@, task.lower_level_sst_ids@),
        missing(e.state.sstables@, task.upper_level_sst_ids@) is None,
        missing(e.state.sstables@, task.lower_level_sst_ids@) is None,
{
    let s = e.state;
    if s.l0_sstables@.len() >= options.level0_file_num_compaction_trigger {
        assert(s.level_ok(0));
    } else {
        lemma_first_due(s.levels@, options.size_ratio_percent as int, 0);
        let i = simple_leveled::first_due(s.levels@, options.size_ratio_percent as int, 0)->0;
        assert(s.level_ok(i));
        assert(s.level_ok(i + 1));
    }
    lemma_missing(s.sstables@, task.upper_level_sst_ids@);
    lemma_missing(s.sstables@, task.lower_level_sst_ids@);
}

/// The tier at which `first_out_of_ratio` stops has tables above it.
pub proof fn lemma_first_out_of_ratio(
    levels: Seq<(usize, Vec<usize>)>,
    options: TieredCompactionOptions,
    i: int,
)
    requires
        0 <= i,
        tiered::first_out_of_ratio(levels, options, i) is Some,
    ensures
        0 < tiered::first_out_of_ratio(levels, options, i)->0 < levels.len(),
    decreases levels.len() - i,
{
    if i < levels.len() && !tiered::out_of_ratio(levels, options, i) {
        lemma_first_out_of_ratio(levels, options, i + 1);
    }
}

/// The ids of loaded tiers are loaded.
pub proof fn lemma_tiers_loaded(e: LsmStorageInner, n: int)
    requires
        e.wf(),
        0 <= n <= e.state.levels@.len(),
    ensures
        leveled::all_loaded(e.state.sstables@, ids::tier_ids(e.state.levels@.take(n))),
    decreases n,
{
    let s = e.state;
    if n > 0 {
        lemma_tiers_loaded(e, n - 1);
        assert(s.levels@.take(n).drop_last() =~= s.levels@.take(n - 1));
        assert(s.level_ok(n - 1));
        let a = ids::tier_ids(s.levels@.take(n - 1));
        let b = s.levels@[n - 1].1@;
        assert forall|i: int| 0 <= i < (a + b).len() implies s.sstables@.contains_key(
            #[trigger] (a + b)[i],
        ) by {
            if i < a.len() {
                assert((a + b)[i] == a[i]);
            } else {
                assert((a + b)[i] == b[i - a.len()]);
            }
        }
    }
}

/// Levels with the same ids have the same ids one after another.
pub proof fn lemma_same_tier_ids(a: Seq<(usize, Vec<usize>)>, b: Seq<(usize, Vec<usize>)>)
    requires
        ids::same_levels(a, b),
    ensures
        ids::tier_ids(a) == ids::tier_ids(b),
    decreases a.len(),
{
    if a.len() > 0 {
        assert(a.last().1@ == b.last().1@);
        lemma_same_tier_ids(a.drop_last(), b.drop_last());
    }
}

/// A task of tiered compaction speaks of the first tiers.
pub proof fn lemma_tier_task(
    options: TieredCompactionOptions,
    e: LsmStorageInner,
    task: TieredCompactionTask,
)
    requires
        e.wf(),
        tiered::has_tiers(e.state.levels@, options),
        tiered::tiers_generated(options, e.state, Some(task)),
    ensures
        0 < task.tiers@.len() <= e.state.levels@.len(),
        ids::same_levels(task.tiers@, e.state.levels@.take(task.tiers@.len() as int)),
        ids::tier_ids(task.tiers@) == ids::tier_ids(
            e.state.levels@.take(task.tiers@.len() as int),
        ),
        ids::tier_ids(task.tiers@.drop_last()) == ids::tier_ids(
            e.state.levels@.take(task.tiers@.len() - 1),
        ),
        task.tiers@.last().1@ == e.state.levels@[task.tiers@.len() - 1].1@,
        missing(e.state.sstables@, ids::tier_ids(task.tiers@.drop_last())) is None,
        missing(e.state.sstables@, task.tiers@.last().1@) is None,
{
    let levels = e.state.levels@;
    let (n, bottom) = tiered::due(levels, options)->0;
    if tiered::first_out_of_ratio(levels, options, 0) is Some {
        lemma_first_out_of_ratio(levels, options, 0);
    }
    assert(0 < n <= levels.len());
    assert(task.tiers@.len() == n);
    lemma_same_tier_ids(task.tiers@, levels.take(n));
    assert(levels.take(n).drop_last() =~= levels.take(n - 1));
    assert(ids::same_levels(task.tiers@.drop_last(), levels.take(n - 1))) by {
        assert forall|i: int| 0 <= i < n - 1 implies (#[trigger] task.tiers@.drop_last()[i]).0
            == levels.take(n - 1)[i].0 && task.tiers@.drop_last()[i].1@ == levels.take(
            n - 1,
        )[i].1@ by {
            assert(task.tiers@[i].1@ == levels.take(n)[i].1@);
        }
    }
    lemma_same_tier_ids(task.tiers@.drop_last(), levels.take(n - 1));
    assert(task.tiers@[n - 1].1@ == levels.take(n)[n - 1].1@);
    lemma_tiers_loaded(e, n - 1);
    assert(e.state.level_ok(n - 1));
    lemma_missing(e.state.sstables@, ids::tier_ids(task.tiers@.drop_last()));
    lemma_missing(e.state.sstables@, task.tiers@.last().1@);
}

/// A builder that its size can be asked of.
spec fn builder_ok(b: SsTableBuilder, options: LsmStorageOptions) -> bool {
    &&& b.wf()
    &&& b.spread_ok()
    &&& b.block_size == options.block_size
    &&& b.data@.len() <= options.target_sst_size + 140004
    &&& b.builder.encoded_size() <= 140000
}

/// The tables that the entries of two groups of tables are merged into.
pub open spec fn compacted(
    before: LsmStorageInner,
    upper: Seq<usize>,
    lower: Seq<usize>,
    bottom: bool,
    v: Seq<Arc<SsTable>>,
) -> bool {
    let es = tombstones::kept(merged(before.state.sstables@, upper, lower), bottom);
    &&& concat_iterator::contents(v) == cut(es, before.options)
    &&& concat_iterator::joined(v) == es
    &&& concat_iterator::run_ok(v)
    &&& new_tables_ok(v, before.next_sst_id as int)
    &&& estimates_hold(v, before.options)
}

/// Where cutting entries into tables stands: the tables that are finished, and the entries of the
/// current one.
spec fn cutting(
    es: Seq<VEntry>,
    tables: Seq<Arc<SsTable>>,
    current: Seq<VEntry>,
    first: int,
    options: LsmStorageOptions,
) -> bool {
    let c = concat_iterator::contents(tables);
    &&& new_tables_ok(tables, first)
    &&& estimates_hold(tables, options)
    &&& table::builder::flat(c) + current == es
    &&& tables.len() + current.len() <= es.len()
    &&& current.len() == 0 ==> cut(es, options) == c && (c.len() == 0 || too_large(
        c.last(),
        options,
    ))
    &&& current.len() > 0 ==> cut(es, options) == c.push(current)
}

proof fn lemma_cutting_start(
    tables: Seq<Arc<SsTable>>,
    current: Seq<VEntry>,
    options: LsmStorageOptions,
)
    requires
        tables.len() == 0,
        current.len() == 0,
    ensures
        forall|first: int| cutting(Seq::empty(), tables, current, first, options),
{
    reveal(estimates_hold);
    let c = concat_iterator::contents(tables);
    assert(c =~= Seq::empty());
    assert(table::builder::flat(c) + current =~= Seq::empty());
}

proof fn lemma_cutting_sorted(
    es: Seq<VEntry>,
    tables: Seq<Arc<SsTable>>,
    current: Seq<VEntry>,
    first: int,
    options: LsmStorageOptions,
)
    requires
        cutting(es, tables, current, first, options),
        key::sorted(es),
    ensures
        key::sorted(current),
{
    lemma_sorted_halves(table::builder::flat(concat_iterator::contents(tables)), current);
}

/// Finishing the current table because it has become too large.
proof fn lemma_cutting_build(
    es: Seq<VEntry>,
    tables: Seq<Arc<SsTable>>,
    current: Seq<VEntry>,
    t: Arc<SsTable>,
    first: int,
    options: LsmStorageOptions,
)
    requires
        cutting(es, tables, current, first, options),
        current.len() > 0,
        too_large(current, options),
        t.wf(),
        t.id == first + tables.len(),
        t.entries() == current,
        table::builder::is_built(*t),
        t.meta_section_offset == table::builder::size_of(current, options.block_size as int) + 6,
    ensures
        cutting(es, tables.push(t), Seq::empty(), first, options),
{
    lemma_cutting_end(es, tables, current, t, first, options);
}

/// Finishing the current table.
proof fn lemma_cutting_end(
    es: Seq<VEntry>,
    tables: Seq<Arc<SsTable>>,
    current: Seq<VEntry>,
    t: Arc<SsTable>,
    first: int,
    options: LsmStorageOptions,
)
    requires
        cutting(es, tables, current, first, options),
        current.len() > 0,
        t.wf(),
        t.id == first + tables.len(),
        t.entries() == current,
        table::builder::is_built(*t),
        t.meta_section_offset == table::builder::size_of(current, options.block_size as int) + 6,
    ensures
        new_tables_ok(tables.push(t), first),
        estimates_hold(tables.push(t), options),
        concat_iterator::contents(tables.push(t)) == concat_iterator::contents(tables).push(
            current,
        ),
        cut(es, options) == concat_iterator::contents(tables.push(t)),
        concat_iterator::joined(tables.push(t)) == es,
        concat_iterator::joined(tables.push(t)) + Seq::<VEntry>::empty() == es,
        tables.push(t).len() <= es.len(),
        key::sorted(es) && tables.len() + 3 <= usize::MAX ==> concat_iterator::run_ok(
            tables.push(t),
        ),
{
    reveal(estimates_hold);
    let c = concat_iterator::contents(tables);
    let all = tables.push(t);
    assert(concat_iterator::contents(all) =~= c.push(current));
    table::builder::lemma_flat_push(c, current);
    assert(concat_iterator::joined(all) + Seq::<VEntry>::empty() =~= es);
    assert forall|i: int| 0 <= i < all.len() implies (#[trigger] all[i]).wf() && all[i].id == first
        + i && all[i].entries().len() > 0 && table::builder::is_built(*all[i]) by {
        if i < tables.len() {
            assert(all[i] == tables[i]);
        }
    }
}

/// There is no current table.
proof fn lemma_cutting_done(
    es: Seq<VEntry>,
    tables: Seq<Arc<SsTable>>,
    first: int,
    options: LsmStorageOptions,
)
    requires
        cutting(es, tables, Seq::empty(), first, options),
        key::sorted(es),
        tables.len() + 2 <= usize::MAX,
    ensures
        concat_iterator::joined(tables) == es,
        concat_iterator::run_ok(tables),
        estimates_hold(tables, options),
{
    assert(concat_iterator::joined(tables) + Seq::<VEntry>::empty() =~= concat_iterator::joined(
        tables,
    ));
}

/// Cutting more entries gives at least as many tables.
proof fn lemma_cut_grows(a: Seq<VEntry>, b: Seq<VEntry>, options: LsmStorageOptions)
    ensures
        cut(a, options).len() <= cut(a + b, options).len(),
    decreases b.len(),
{
    if b.len() == 0 {
        assert(a + b =~= a);
    } else {
        lemma_cut_grows(a, b.drop_last(), options);
        assert((a + b).drop_last() =~= a + b.drop_last());
    }
}

/// While there is a current table, not all tables are finished.
proof fn lemma_cutting_needs_more(
    done: Seq<VEntry>,
    rest: Seq<VEntry>,
    tables: Seq<Arc<SsTable>>,
    current: Seq<VEntry>,
    first: int,
    options: LsmStorageOptions,
)
    requires
        cutting(done, tables, current, first, options),
        current.len() > 0,
    ensures
        cut(done + rest, options).len() > tables.len(),
{
    lemma_cut_grows(done, rest, options);
}

/// One more entry for the current table.
proof fn lemma_cutting_add(
    es: Seq<VEntry>,
    tables: Seq<Arc<SsTable>>,
    current: Seq<VEntry>,
    e: VEntry,
    first: int,
    options: LsmStorageOptions,
)
    requires
        cutting(es, tables, current, first, options),
        current.len() > 0 ==> !too_large(current, options),
    ensures
        cutting(es.push(e), tables, current.push(e), first, options),
{
    let c = concat_iterator::contents(tables);
    let more = es.push(e);
    assert(more.drop_last() =~= es);
    assert(table::builder::flat(c) + current.push(e) =~= more);
    if current.len() == 0 {
        assert(current.push(e) =~= seq![e]);
    } else {
        assert(c.push(current).drop_last() =~= c);
        assert(c.push(current).last() == current);
    }
}

} // verus!
