//! What the compaction strategies choose, in terms of the numbers of tables, their sizes and their
//! keys.
use std::sync::Arc;

use vstd::prelude::*;

use crate::compact::leveled::{LeveledCompactionOptions, LeveledCompactionTask};
use crate::compact::simple_leveled::{SimpleLeveledCompactionOptions, SimpleLeveledCompactionTask};
use crate::compact::tiered::{TieredCompactionOptions, TieredCompactionTask};
use crate::compact::{ids, leveled, simple_leveled, tiered};
use crate::key;
use crate::key::VKey;
use crate::lsm_storage::LsmStorageState;
use crate::table::SsTable;

verus! {

/// A quotient is below a number exactly where the dividend is below that many divisors.
proof fn lemma_quotient_below(a: int, b: int, c: int)
    requires
        b > 0,
    ensures
        a / b < c <==> a < c * b,
{
    vstd::arithmetic::div_mod::lemma_fundamental_div_mod(a, b);
    vstd::arithmetic::div_mod::lemma_mod_bound(a, b);
    let q = a / b;
    let m = a % b;
    assert(a == b * q + m);
    assert(q < c ==> a < c * b) by (nonlinear_arith)
        requires
            a == b * q + m,
            0 <= m < b,
    ;
    assert(q >= c ==> a >= c * b) by (nonlinear_arith)
        requires
            a == b * q + m,
            0 <= m,
            b > 0,
    ;
}

/// The index that a simple leveled task is for.
proof fn lemma_first_due(levels: Seq<(usize, Vec<usize>)>, ratio: int, i: int)
    requires
        0 <= i,
    ensures
        match simple_leveled::first_due(levels, ratio, i) {
            Some(u) => {
                &&& i <= u < levels.len() - 1
                &&& levels[u].1@.len() > 0
                &&& 100 * levels[u + 1].1@.len() < ratio * levels[u].1@.len()
                &&& forall|v: int|
                    i <= v < u && (#[trigger] levels[v]).1@.len() > 0 ==> 100 * levels[v
                        + 1].1@.len() >= ratio * levels[v].1@.len()
            },
            None => forall|v: int|
                i <= v < levels.len() - 1 && (#[trigger] levels[v]).1@.len() > 0 ==> 100 * levels[v
                    + 1].1@.len() >= ratio * levels[v].1@.len(),
        },
    decreases levels.len() - i,
{
    if i + 1 < levels.len() {
        let upper = levels[i].1@.len() as int;
        let lower = levels[i + 1].1@.len() as int;
        if upper > 0 {
            lemma_quotient_below(lower * 100, upper, ratio);
        }
        lemma_first_due(levels, ratio, i + 1);
    }
}

/// What simple leveled compaction is to choose: L0 and L1 where L0 has reached its trigger, else the
/// first two levels of which the lower one has less than `size_ratio_percent` percent of the number
/// of tables of the upper one.
pub open spec fn simple_chosen(
    options: SimpleLeveledCompactionOptions,
    state: LsmStorageState,
    r: Option<SimpleLeveledCompactionTask>,
) -> bool {
    let levels = state.levels@;
    let ratio = options.size_ratio_percent;
    if state.l0_sstables@.len() >= options.level0_file_num_compaction_trigger {
        r matches Some(task) && task.upper_level is None && task.upper_level_sst_ids@
            == state.l0_sstables@ && task.lower_level == 1 && task.lower_level_sst_ids@
            == levels[0].1@ && !task.is_lower_level_bottom_level
    } else {
        &&& r is None <==> forall|u: int|
            0 <= u < levels.len() - 1 && (#[trigger] levels[u]).1@.len() > 0 ==> 100 * levels[u
                + 1].1@.len() >= ratio * levels[u].1@.len()
        &&& r matches Some(task) ==> exists|u: int|
            0 <= u < levels.len() - 1 && (#[trigger] levels[u]).1@.len() > 0 && 100 * levels[u
                + 1].1@.len() < ratio * levels[u].1@.len() && (forall|v: int|
                0 <= v < u && (#[trigger] levels[v]).1@.len() > 0 ==> 100 * levels[v + 1].1@.len()
                    >= ratio * levels[v].1@.len()) && task.upper_level == Some(levels[u].0)
                && task.upper_level_sst_ids@ == levels[u].1@ && task.lower_level == levels[u + 1].0
                && task.lower_level_sst_ids@ == levels[u + 1].1@
                && task.is_lower_level_bottom_level == (u + 2 == levels.len())
    }
}

/// Simple leveled compaction merges L0 into L1 exactly when L0 has reached its trigger. Otherwise it
/// merges the first level of which the next one has less than `size_ratio_percent` percent of its
/// number of tables into that one, and nothing where there is none.
pub proof fn lemma_simple_choice(
    options: SimpleLeveledCompactionOptions,
    state: LsmStorageState,
    r: Option<SimpleLeveledCompactionTask>,
)
    requires
        simple_leveled::generated(options, state, r),
    ensures
        simple_chosen(options, state, r),
        options.size_ratio_percent == 0 && state.l0_sstables@.len()
            < options.level0_file_num_compaction_trigger ==> r is None,
{
    if state.l0_sstables@.len() < options.level0_file_num_compaction_trigger {
        let levels = state.levels@;
        let ratio = options.size_ratio_percent as int;
        lemma_first_due(levels, ratio, 0);
        match simple_leveled::first_due(levels, ratio, 0) {
            Some(u) => {
                assert(levels[u].1@.len() > 0);
                assert(ratio == 0 ==> ratio * levels[u].1@.len() == 0);
            },
            None => {},
        }
    }
}

/// More tables in the lower levels never make a simple leveled task due: where none is due with
/// some numbers of tables, none is due either when a level has more tables while the one above it
/// has not.
pub proof fn lemma_simple_more_below(
    options: SimpleLeveledCompactionOptions,
    a: LsmStorageState,
    b: LsmStorageState,
    ra: Option<SimpleLeveledCompactionTask>,
    rb: Option<SimpleLeveledCompactionTask>,
)
    requires
        simple_leveled::generated(options, a, ra),
        simple_leveled::generated(options, b, rb),
        a.l0_sstables@.len() < options.level0_file_num_compaction_trigger,
        b.l0_sstables@.len() < options.level0_file_num_compaction_trigger,
        a.levels@.len() == b.levels@.len(),
        forall|i: int|
            0 <= i < a.levels@.len() - 1 && (#[trigger] b.levels@[i]).1@.len() > 0
                ==> a.levels@[i].1@.len() >= b.levels@[i].1@.len() && a.levels@[i + 1].1@.len()
                <= b.levels@[i + 1].1@.len(),
        ra is None,
    ensures
        rb is None,
{
    lemma_simple_choice(options, a, ra);
    lemma_simple_choice(options, b, rb);
    let ratio = options.size_ratio_percent as int;
    assert forall|u: int|
        0 <= u < b.levels@.len() - 1 && (#[trigger] b.levels@[u]).1@.len() > 0 implies 100
        * b.levels@[u + 1].1@.len() >= ratio * b.levels@[u].1@.len() by {
        let x = a.levels@[u].1@.len() as int;
        let y = b.levels@[u].1@.len() as int;
        assert(a.levels@[u].1@.len() > 0);
        assert(ratio * x >= ratio * y) by (nonlinear_arith)
            requires
                x >= y,
                ratio >= 0,
        ;
    }
}

/// The table ids of all tiers, one after another.
pub open spec fn all_ids(levels: Seq<(usize, Vec<usize>)>) -> Seq<usize> {
    Seq::new(levels.len(), |i: int| levels[i].1@).flatten()
}

/// The ids of tiers, one after another.
pub proof fn lemma_tier_ids(levels: Seq<(usize, Vec<usize>)>)
    ensures
        ids::tier_ids(levels) == all_ids(levels),
    decreases levels.len(),
{
    let lists = Seq::new(levels.len(), |i: int| levels[i].1@);
    lists.lemma_flatten_and_flatten_alt_are_equivalent();
    if levels.len() > 0 {
        let front = levels.drop_last();
        lemma_tier_ids(front);
        let fronts = Seq::new(front.len(), |i: int| front[i].1@);
        fronts.lemma_flatten_and_flatten_alt_are_equivalent();
        assert(lists.drop_last() =~= fronts);
    }
}

/// The number of tables of the first tiers is the number of their ids.
proof fn lemma_count(levels: Seq<(usize, Vec<usize>)>, n: int)
    requires
        0 <= n <= levels.len(),
    ensures
        tiered::tables_before(levels, n) == all_ids(levels.take(n)).len(),
    decreases n,
{
    let lists = Seq::new(levels.take(n).len(), |i: int| levels.take(n)[i].1@);
    lists.lemma_flatten_and_flatten_alt_are_equivalent();
    if n > 0 {
        lemma_count(levels, n - 1);
        let front = Seq::new(levels.take(n - 1).len(), |i: int| levels.take(n - 1)[i].1@);
        front.lemma_flatten_and_flatten_alt_are_equivalent();
        assert(lists.drop_last() =~= front);
    }
}

/// The tier that the size ratio rule finds.
proof fn lemma_first_out_of_ratio(
    levels: Seq<(usize, Vec<usize>)>,
    options: TieredCompactionOptions,
    i: int,
)
    requires
        0 <= i,
    ensures
        match tiered::first_out_of_ratio(levels, options, i) {
            Some(u) => {
                &&& i <= u < levels.len()
                &&& too_large_for_those_above(levels, options, u)
                &&& forall|v: int|
                    i <= v < u ==> !#[trigger] too_large_for_those_above(levels, options, v)
            },
            None => forall|v: int|
                i <= v < levels.len() ==> !#[trigger] too_large_for_those_above(levels, options, v),
        },
    decreases levels.len() - i,
{
    if i < levels.len() {
        let above = tiered::tables_before(levels, i);
        let here = levels[i].1@.len() as int;
        lemma_count(levels, i);
        if above > 0 {
            lemma_quotient_below(here * 100, above, 101 + options.size_ratio);
        }
        lemma_first_out_of_ratio(levels, options, i + 1);
    }
}

/// At least `min_merge_width` tiers with tables lie above the tier, and its number of tables is at
/// least `101 + size_ratio` percent of theirs.
pub open spec fn too_large_for_those_above(
    levels: Seq<(usize, Vec<usize>)>,
    options: TieredCompactionOptions,
    i: int,
) -> bool {
    let above = all_ids(levels.take(i)).len();
    i >= options.min_merge_width && above > 0 && 100 * levels[i].1@.len() >= (101
        + options.size_ratio) * above
}

/// The tiers of the task are the first `n` ones.
pub open spec fn has_first_tiers(
    task: TieredCompactionTask,
    levels: Seq<(usize, Vec<usize>)>,
    n: int,
) -> bool {
    &&& task.tiers@.len() == n
    &&& forall|i: int|
        0 <= i < n ==> (#[trigger] task.tiers@[i]).0 == levels[i].0 && task.tiers@[i].1@
            == levels[i].1@
}

/// There are at least `max_size_amplification_percent` percent as many tables above the last tier as
/// in it.
pub open spec fn too_many_above(
    levels: Seq<(usize, Vec<usize>)>,
    options: TieredCompactionOptions,
) -> bool {
    100 * all_ids(levels.drop_last()).len() >= options.max_size_amplification_percent
        * levels.last().1@.len()
}

/// The task is that of the size ratio rule: the tiers above the first one that is too large for them.
pub open spec fn size_ratio_chosen(
    levels: Seq<(usize, Vec<usize>)>,
    options: TieredCompactionOptions,
    task: TieredCompactionTask,
) -> bool {
    exists|u: int|
        0 <= u < levels.len() && #[trigger] too_large_for_those_above(levels, options, u) && (
        forall|v: int|
            0 <= v < u ==> !#[trigger] too_large_for_those_above(levels, options, v))
            && has_first_tiers(task, levels, u) && !task.bottom_tier_included
}

/// What tiered compaction is to choose.
pub open spec fn tiers_chosen(
    options: TieredCompactionOptions,
    state: LsmStorageState,
    r: Option<TieredCompactionTask>,
) -> bool {
    let levels = state.levels@;
    let n = levels.len() as int;
    &&& r is None <==> n < 2 || n < options.num_tiers
    &&& r matches Some(task) ==> {
        &&& too_many_above(levels, options) ==> has_first_tiers(task, levels, n)
            && task.bottom_tier_included
        &&& !too_many_above(levels, options) ==> {
            ||| size_ratio_chosen(levels, options, task)
            ||| (forall|u: int|
                0 <= u < n ==> !#[trigger] too_large_for_those_above(levels, options, u))
                && has_first_tiers(task, levels, options.num_tiers as int)
                && task.bottom_tier_included == (n == options.num_tiers)
        }
    }
}

/// The amplification rule as a count.
pub proof fn lemma_amplified(levels: Seq<(usize, Vec<usize>)>, options: TieredCompactionOptions)
    requires
        levels.len() > 0,
    ensures
        tiered::amplified(levels, options.max_size_amplification_percent as int) <==> too_many_above(
            levels,
            options,
        ),
{
    let n = levels.len() as int;
    lemma_count(levels, n - 1);
    assert(levels.take(n - 1) =~= levels.drop_last());
    let above = tiered::tables_before(levels, n - 1);
    let last = levels.last().1@.len() as int;
    let percent = options.max_size_amplification_percent as int;
    if last > 0 {
        lemma_quotient_below(100 * above, last, percent);
    } else {
        assert(percent * last == 0) by (nonlinear_arith)
            requires
                last == 0,
        ;
    }
}

/// The size ratio rule as a count.
pub proof fn lemma_size_ratio(
    levels: Seq<(usize, Vec<usize>)>,
    options: TieredCompactionOptions,
    r: Option<TieredCompactionTask>,
)
    requires
        match tiered::first_out_of_ratio(levels, options, 0) {
            Some(i) => r matches Some(task) && tiered::merges_first(task, levels, i, false),
            None => r is None,
        },
    ensures
        r is None <==> forall|u: int|
            0 <= u < levels.len() ==> !#[trigger] too_large_for_those_above(levels, options, u),
        r matches Some(task) ==> size_ratio_chosen(levels, options, task),
{
    lemma_first_out_of_ratio(levels, options, 0);
    match tiered::first_out_of_ratio(levels, options, 0) {
        Some(u) => {
            assert(too_large_for_those_above(levels, options, u));
            assert(has_first_tiers(r->0, levels, u));
        },
        None => {},
    }
}

/// Tiered compaction does nothing with fewer than two or fewer than `num_tiers` tiers. Otherwise it
/// merges all tiers where the tables above the last tier are at least
/// `max_size_amplification_percent` percent of those in it; else those above the first tier that is
/// too large for them; else the first `num_tiers`.
pub proof fn lemma_tiered_choice(
    options: TieredCompactionOptions,
    state: LsmStorageState,
    r: Option<TieredCompactionTask>,
)
    requires
        tiered::tiers_generated(options, state, r),
    ensures
        tiers_chosen(options, state, r),
{
    let levels = state.levels@;
    let n = levels.len() as int;
    if n > 0 {
        lemma_amplified(levels, options);
        lemma_first_out_of_ratio(levels, options, 0);
        if r is Some && !too_many_above(levels, options) {
            match tiered::first_out_of_ratio(levels, options, 0) {
                Some(u) => {
                    assert(too_large_for_those_above(levels, options, u));
                    assert(has_first_tiers(r->0, levels, u));
                },
                None => {},
            }
        }
    }
}

/// With more tables above the last tier there is no less amplification: where all of more than
/// `num_tiers` tiers are merged, they are merged too when the tiers above the last one have more
/// tables and the last one has not.
pub proof fn lemma_tiered_more_above(
    options: TieredCompactionOptions,
    a: LsmStorageState,
    b: LsmStorageState,
    ra: Option<TieredCompactionTask>,
    rb: Option<TieredCompactionTask>,
)
    requires
        tiered::tiers_generated(options, a, ra),
        tiered::tiers_generated(options, b, rb),
        a.levels@.len() == b.levels@.len() > options.num_tiers,
        forall|i: int|
            0 <= i < a.levels@.len() - 1 ==> (#[trigger] a.levels@[i]).1@.len()
                <= b.levels@[i].1@.len(),
        a.levels@.last().1@.len() >= b.levels@.last().1@.len(),
        ra matches Some(task) && task.tiers@.len() == a.levels@.len(),
    ensures
        rb matches Some(task) && task.tiers@.len() == b.levels@.len() && task.bottom_tier_included,
{
    lemma_tiered_choice(options, a, ra);
    lemma_tiered_choice(options, b, rb);
    let n = a.levels@.len() as int;
    lemma_count(a.levels@, n - 1);
    lemma_count(b.levels@, n - 1);
    assert(a.levels@.take(n - 1) =~= a.levels@.drop_last());
    assert(b.levels@.take(n - 1) =~= b.levels@.drop_last());
    lemma_counts_grow(a.levels@, b.levels@, n - 1);
    let percent = options.max_size_amplification_percent as int;
    let x = a.levels@.last().1@.len() as int;
    let y = b.levels@.last().1@.len() as int;
    assert(percent * x >= percent * y) by (nonlinear_arith)
        requires
            x >= y,
            percent >= 0,
    ;
}

/// The same of the amplification rule alone, with any number of tiers.
pub proof fn lemma_amplification_grows(
    options: TieredCompactionOptions,
    a: Seq<(usize, Vec<usize>)>,
    b: Seq<(usize, Vec<usize>)>,
)
    requires
        a.len() == b.len() > 0,
        forall|i: int| 0 <= i < a.len() - 1 ==> (#[trigger] a[i]).1@.len() <= b[i].1@.len(),
        a.last().1@.len() >= b.last().1@.len(),
        tiered::amplified(a, options.max_size_amplification_percent as int),
    ensures
        tiered::amplified(b, options.max_size_amplification_percent as int),
{
    lemma_amplified(a, options);
    lemma_amplified(b, options);
    let n = a.len() as int;
    lemma_count(a, n - 1);
    lemma_count(b, n - 1);
    assert(a.take(n - 1) =~= a.drop_last());
    assert(b.take(n - 1) =~= b.drop_last());
    lemma_counts_grow(a, b, n - 1);
    let percent = options.max_size_amplification_percent as int;
    let x = a.last().1@.len() as int;
    let y = b.last().1@.len() as int;
    assert(percent * x >= percent * y) by (nonlinear_arith)
        requires
            x >= y,
            percent >= 0,
    ;
}

proof fn lemma_counts_grow(a: Seq<(usize, Vec<usize>)>, b: Seq<(usize, Vec<usize>)>, n: int)
    requires
        forall|i: int| 0 <= i < n ==> (#[trigger] a[i]).1@.len() <= b[i].1@.len(),
    ensures
        tiered::tables_before(a, n) <= tiered::tables_before(b, n),
    decreases n,
{
    if n > 0 {
        lemma_counts_grow(a, b, n - 1);
        assert(a[n - 1].1@.len() <= b[n - 1].1@.len());
    }
}

proof fn lemma_le_trans(a: VKey, b: VKey, c: VKey)
    requires
        key::key_le(a, b),
        key::key_le(b, c),
    ensures
        key::key_le(a, c),
        key::key_lt(a, b) || key::key_lt(b, c) ==> key::key_lt(a, c),
{
    if a != b && b != c {
        key::lemma_key_lt_transitive(a, b, c);
    }
}

proof fn lemma_not_lt(a: VKey, b: VKey)
    ensures
        !key::key_lt(a, b) <==> key::key_le(b, a),
{
    key::lemma_key_total(a, b);
    key::lemma_key_lt_irreflexive(a);
    if key::key_lt(a, b) && key::key_lt(b, a) {
        key::lemma_key_lt_transitive(a, b, a);
    }
}

/// Some key lies between the first and the last key of the table, and between the first key of some
/// of the upper tables and the last key of some of them.
pub open spec fn shares_a_key(
    tables: Map<usize, Arc<SsTable>>,
    upper: Seq<usize>,
    id: usize,
) -> bool {
    exists|k: VKey, a: int, b: int|
        0 <= a < upper.len() && 0 <= b < upper.len() && tables.contains_key(#[trigger] upper[a])
            && tables.contains_key(#[trigger] upper[b]) && key::key_le(
            tables[upper[a]].first_key@,
            k,
        ) && key::key_le(k, tables[upper[b]].last_key@) && #[trigger] key::key_le(
            tables[id].first_key@,
            k,
        ) && key::key_le(k, tables[id].last_key@)
}

/// No loaded table ends before it begins, and each knows its id.
pub open spec fn ranges_ok(tables: Map<usize, Arc<SsTable>>) -> bool {
    forall|id: usize| #[trigger]
        tables.contains_key(id) ==> tables[id].id == id && key::key_le(
            tables[id].first_key@,
            tables[id].last_key@,
        )
}

/// A table is apart from a range of keys exactly where they have no key in common.
proof fn lemma_shares_a_key(
    tables: Map<usize, Arc<SsTable>>,
    upper: Seq<usize>,
    id: usize,
    first: VKey,
    last: VKey,
)
    requires
        ranges_ok(tables),
        tables.contains_key(id),
        leveled::is_key_range(tables, upper, first, last),
    ensures
        shares_a_key(tables, upper, id) <==> !key::key_lt(last, tables[id].first_key@)
            && !key::key_lt(tables[id].last_key@, first),
{
    let t = tables[id];
    let f = t.first_key@;
    let l = t.last_key@;
    lemma_not_lt(last, f);
    lemma_not_lt(l, first);
    if shares_a_key(tables, upper, id) {
        let (k, a, b) = choose|k: VKey, a: int, b: int|
            0 <= a < upper.len() && 0 <= b < upper.len() && tables.contains_key(#[trigger] upper[a])
                && tables.contains_key(#[trigger] upper[b]) && key::key_le(
                tables[upper[a]].first_key@,
                k,
            ) && key::key_le(k, tables[upper[b]].last_key@) && #[trigger] key::key_le(
                tables[id].first_key@,
                k,
            ) && key::key_le(k, tables[id].last_key@);
        lemma_le_trans(f, k, tables[upper[b]].last_key@);
        lemma_le_trans(f, tables[upper[b]].last_key@, last);
        lemma_le_trans(first, tables[upper[a]].first_key@, k);
        lemma_le_trans(first, k, l);
    }
    if key::key_le(f, last) && key::key_le(first, l) {
        let a = choose|i: int|
            0 <= i < upper.len() && tables.contains_key(#[trigger] upper[i])
                && tables[upper[i]].first_key@ == first;
        let b = choose|i: int|
            0 <= i < upper.len() && tables.contains_key(#[trigger] upper[i])
                && tables[upper[i]].last_key@ == last;
        assert(tables.contains_key(upper[a]) && tables.contains_key(upper[b]));
        lemma_le_trans(first, tables[upper[a]].last_key@, last);
        lemma_not_lt(f, first);
        let k = if key::key_lt(f, first) {
            first
        } else {
            f
        };
        assert(key::key_le(f, k) && key::key_le(k, l));
        assert(key::key_le(tables[upper[a]].first_key@, k) && key::key_le(
            k,
            tables[upper[b]].last_key@,
        ));
        assert(shares_a_key(tables, upper, id));
    }
}

/// The overlapping tables are those that have a key in common with the range, in their order.
proof fn lemma_overlapping(
    tables: Map<usize, Arc<SsTable>>,
    upper: Seq<usize>,
    lower: Seq<usize>,
    first: VKey,
    last: VKey,
    p: spec_fn(usize) -> bool,
)
    requires
        ranges_ok(tables),
        leveled::is_key_range(tables, upper, first, last),
        forall|id: usize| #[trigger]
            p(id) <==> tables.contains_key(id) && shares_a_key(tables, upper, id),
    ensures
        leveled::overlapping(tables, lower, first, last) == lower.filter(p),
    decreases lower.len(),
{
    reveal(Seq::filter);
    if lower.len() > 0 {
        lemma_overlapping(tables, upper, lower.drop_last(), first, last, p);
        let id = lower.last();
        if tables.contains_key(id) {
            lemma_shares_a_key(tables, upper, id, first, last);
        }
        assert(p(id) <==> tables.contains_key(id) && shares_a_key(tables, upper, id));
    } else {
        assert(leveled::overlapping(tables, lower, first, last) =~= lower.filter(p));
    }
}

proof fn lemma_filtered(s: Seq<usize>, p: spec_fn(usize) -> bool, x: usize)
    ensures
        s.filter(p).contains(x) <==> s.contains(x) && p(x),
    decreases s.len(),
{
    reveal(Seq::filter);
    if s.len() > 0 {
        let front = s.drop_last();
        lemma_filtered(front, p, x);
        assert(s =~= front.push(s.last()));
        if front.contains(x) {
            let i = front.index_of(x);
            assert(s[i] == x);
        }
        if s.contains(x) && x != s.last() {
            let i = s.index_of(x);
            assert(front[i] == x);
        }
        if p(s.last()) {
            let all = front.filter(p).push(s.last());
            if front.filter(p).contains(x) {
                let i = front.filter(p).index_of(x);
                assert(all[i] == x);
            }
            if x == s.last() {
                assert(all[all.len() - 1] == x);
            }
            if all.contains(x) && x != s.last() {
                let i = all.index_of(x);
                assert(front.filter(p)[i] == x);
            }
        }
        if x == s.last() {
            assert(s[s.len() - 1] == x);
        }
    }
}

/// The tables of a list that overlap with others are exactly the loaded ones that have a key in
/// common with the range of the others.
pub proof fn lemma_overlap_exact(
    tables: Map<usize, Arc<SsTable>>,
    upper: Seq<usize>,
    lower: Seq<usize>,
    first: VKey,
    last: VKey,
)
    requires
        ranges_ok(tables),
        leveled::is_key_range(tables, upper, first, last),
    ensures
        forall|x: usize| #[trigger]
            leveled::overlapping(tables, lower, first, last).contains(x) <==> lower.contains(x)
                && tables.contains_key(x) && shares_a_key(tables, upper, x),
{
    let q = |id: usize| tables.contains_key(id) && shares_a_key(tables, upper, id);
    lemma_overlapping(tables, upper, lower, first, last, q);
    assert forall|x: usize| #[trigger]
        leveled::overlapping(tables, lower, first, last).contains(x) <==> lower.contains(x)
            && tables.contains_key(x) && shares_a_key(tables, upper, x) by {
        lemma_filtered(lower, q, x);
        assert(q(x) <==> tables.contains_key(x) && shares_a_key(tables, upper, x));
    }
}

/// The tables of a leveled task in the lower level are exactly the loaded ones of that level that
/// have a key in common with the range of the upper tables, in the order of the level.
pub proof fn lemma_leveled_lower_tables(
    options: LeveledCompactionOptions,
    state: LsmStorageState,
    ranks: Seq<u64>,
    task: LeveledCompactionTask,
)
    requires
        leveled::generated(options, state, ranks, Some(task)),
        ranges_ok(state.sstables@),
    ensures
        1 <= task.lower_level <= state.levels@.len(),
        forall|x: usize| #[trigger]
            task.lower_level_sst_ids@.contains(x) <==> state.levels@[task.lower_level
                - 1].1@.contains(x) && state.sstables@.contains_key(x) && shares_a_key(
                state.sstables@,
                task.upper_level_sst_ids@,
                x,
            ),
        forall|p: spec_fn(usize) -> bool|
            (forall|id: usize| #[trigger]
                p(id) <==> state.sstables@.contains_key(id) && shares_a_key(
                    state.sstables@,
                    task.upper_level_sst_ids@,
                    id,
                )) ==> task.lower_level_sst_ids@ == #[trigger] state.levels@[task.lower_level
                - 1].1@.filter(p),
{
    let tables = state.sstables@;
    let upper = task.upper_level_sst_ids@;
    let (first, last) = choose|first: VKey, last: VKey| #[trigger]
        leveled::is_key_range(tables, upper, first, last) && task.lower_level_sst_ids@
            == leveled::overlapping(
            tables,
            state.levels@[task.lower_level - 1].1@,
            first,
            last,
        );
    let lower = state.levels@[task.lower_level - 1].1@;
    assert forall|p: spec_fn(usize) -> bool|
        (forall|id: usize| #[trigger]
            p(id) <==> tables.contains_key(id) && shares_a_key(tables, upper, id)) implies
        task.lower_level_sst_ids@ == #[trigger] lower.filter(p) by {
        lemma_overlapping(tables, upper, lower, first, last, p);
    }
    lemma_overlap_exact(tables, upper, lower, first, last);
}

/// One of the tables ends before the other begins.
pub open spec fn ranges_apart(a: SsTable, b: SsTable) -> bool {
    key::key_lt(a.last_key@, b.first_key@) || key::key_lt(b.last_key@, a.first_key@)
}

/// The tables of the list are loaded, and no two of them have a key in common.
pub open spec fn disjoint_tables(tables: Map<usize, Arc<SsTable>>, ids: Seq<usize>) -> bool {
    &&& forall|i: int| 0 <= i < ids.len() ==> tables.contains_key(#[trigger] ids[i])
    &&& forall|i: int, j: int|
        #![trigger ids[i], ids[j]]
        0 <= i < j < ids.len() ==> ranges_apart(*tables[ids[i]], *tables[ids[j]])
}

/// What is new lies between the first key of one of the merged tables and the last key of one.
pub open spec fn between_merged(
    tables: Map<usize, Arc<SsTable>>,
    merged: Seq<usize>,
    output: Seq<usize>,
) -> bool {
    forall|i: int|
        0 <= i < output.len() ==> (exists|a: int, b: int|
            0 <= a < merged.len() && 0 <= b < merged.len() && tables.contains_key(
                #[trigger] merged[a],
            ) && tables.contains_key(#[trigger] merged[b]) && key::key_le(
                tables[merged[a]].first_key@,
                tables[#[trigger] output[i]].first_key@,
            ) && key::key_le(tables[output[i]].last_key@, tables[merged[b]].last_key@))
}

/// A table of the lower level that is not merged lies before all that is merged, or behind it.
proof fn lemma_kept_outside(
    tables: Map<usize, Arc<SsTable>>,
    upper: Seq<usize>,
    chosen: Seq<usize>,
    x: usize,
    first: VKey,
    last: VKey,
    a: usize,
)
    requires
        ranges_ok(tables),
        leveled::is_key_range(tables, upper, first, last),
        tables.contains_key(x),
        tables.contains_key(a),
        !shares_a_key(tables, upper, x),
        upper.contains(a) || (chosen.contains(a) && shares_a_key(tables, upper, a) && ranges_apart(
            *tables[x],
            *tables[a],
        )),
    ensures
        key::key_lt(tables[x].last_key@, first) ==> key::key_lt(
            tables[x].last_key@,
            tables[a].first_key@,
        ),
        key::key_lt(last, tables[x].first_key@) ==> key::key_lt(
            tables[a].last_key@,
            tables[x].first_key@,
        ),
        key::key_lt(tables[x].last_key@, first) || key::key_lt(last, tables[x].first_key@),
{
    let t = tables[x];
    let u = tables[a];
    lemma_shares_a_key(tables, upper, x, first, last);
    if upper.contains(a) {
        let i = upper.index_of(a);
        assert(tables.contains_key(upper[i]));
        if key::key_lt(t.last_key@, first) && first != u.first_key@ {
            key::lemma_key_lt_transitive(t.last_key@, first, u.first_key@);
        }
        if key::key_lt(last, t.first_key@) && last != u.last_key@ {
            key::lemma_key_lt_transitive(u.last_key@, last, t.first_key@);
        }
    } else {
        lemma_shares_a_key(tables, upper, a, first, last);
        lemma_not_lt(u.last_key@, first);
        lemma_not_lt(last, u.first_key@);
        if key::key_lt(t.last_key@, first) && key::key_lt(u.last_key@, t.first_key@) {
            lemma_le_trans(u.last_key@, t.first_key@, t.last_key@);
            lemma_le_trans(u.last_key@, t.last_key@, first);
        }
        if key::key_lt(last, t.first_key@) && key::key_lt(t.last_key@, u.first_key@) {
            lemma_le_trans(t.first_key@, t.last_key@, u.first_key@);
            lemma_le_trans(last, t.first_key@, u.first_key@);
        }
    }
}

/// A list of disjoint tables has no table twice.
proof fn lemma_disjoint_once(tables: Map<usize, Arc<SsTable>>, ids: Seq<usize>)
    requires
        ranges_ok(tables),
        disjoint_tables(tables, ids),
    ensures
        ids.no_duplicates(),
{
    assert forall|i: int, j: int| 0 <= i < ids.len() && 0 <= j < ids.len() && i != j implies ids[i]
        != ids[j] by {
        if ids[i] == ids[j] {
            let t = tables[ids[i]];
            assert(tables.contains_key(ids[i]));
            lemma_not_lt(t.last_key@, t.first_key@);
            assert(ranges_apart(*t, *t)) by {
                if i < j {
                    assert(ranges_apart(*tables[ids[i]], *tables[ids[j]]));
                } else {
                    assert(ranges_apart(*tables[ids[j]], *tables[ids[i]]));
                }
            }
        }
    }
}

proof fn lemma_without_once(s: Seq<usize>, t: Seq<usize>)
    requires
        s.no_duplicates(),
    ensures
        ids::without(s, t).no_duplicates(),
    decreases s.len(),
{
    if s.len() > 0 {
        let front = s.drop_last();
        assert(front.no_duplicates()) by {
            assert forall|i: int, j: int|
                0 <= i < front.len() && 0 <= j < front.len() && i != j implies front[i]
                != front[j] by {
                assert(front[i] == s[i] && front[j] == s[j]);
            }
        }
        lemma_without_once(front, t);
        ids::lemma_without(front, t, s.last());
        if front.contains(s.last()) {
            let i = front.index_of(s.last());
            assert(s[i] == s[s.len() - 1]);
        }
        if !t.contains(s.last()) {
            let w = ids::without(front, t);
            let all = w.push(s.last());
            assert forall|i: int, j: int|
                0 <= i < all.len() && 0 <= j < all.len() && i != j implies all[i] != all[j] by {
                if i < w.len() {
                    assert(w.contains(w[i]));
                }
                if j < w.len() {
                    assert(w.contains(w[j]));
                }
            }
        }
    }
}

/// What is between merged tables is apart from a table that lies outside of all of them.
proof fn lemma_output_apart(
    tables: Map<usize, Arc<SsTable>>,
    upper: Seq<usize>,
    chosen: Seq<usize>,
    x: usize,
    y: usize,
    first: VKey,
    last: VKey,
)
    requires
        ranges_ok(tables),
        leveled::is_key_range(tables, upper, first, last),
        tables.contains_key(x),
        tables.contains_key(y),
        !shares_a_key(tables, upper, x),
        forall|a: usize| #[trigger]
            chosen.contains(a) ==> tables.contains_key(a) && shares_a_key(tables, upper, a)
                && ranges_apart(*tables[x], *tables[a]),
        exists|a: int, b: int|
            0 <= a < (upper + chosen).len() && 0 <= b < (upper + chosen).len()
                && tables.contains_key(#[trigger] (upper + chosen)[a]) && tables.contains_key(
                #[trigger] (upper + chosen)[b],
            ) && key::key_le(tables[(upper + chosen)[a]].first_key@, tables[y].first_key@)
                && key::key_le(tables[y].last_key@, tables[(upper + chosen)[b]].last_key@),
    ensures
        ranges_apart(*tables[x], *tables[y]),
{
    let merged = upper + chosen;
    let (a, b) = choose|a: int, b: int|
        0 <= a < merged.len() && 0 <= b < merged.len() && tables.contains_key(#[trigger] merged[a])
            && tables.contains_key(#[trigger] merged[b]) && key::key_le(
            tables[merged[a]].first_key@,
            tables[y].first_key@,
        ) && key::key_le(tables[y].last_key@, tables[merged[b]].last_key@);
    assert(upper.contains(merged[a]) || chosen.contains(merged[a])) by {
        if a < upper.len() {
            assert(upper[a] == merged[a]);
        } else {
            assert(chosen[a - upper.len()] == merged[a]);
        }
    }
    assert(upper.contains(merged[b]) || chosen.contains(merged[b])) by {
        if b < upper.len() {
            assert(upper[b] == merged[b]);
        } else {
            assert(chosen[b - upper.len()] == merged[b]);
        }
    }
    lemma_kept_outside(tables, upper, chosen, x, first, last, merged[a]);
    lemma_kept_outside(tables, upper, chosen, x, first, last, merged[b]);
    if key::key_lt(tables[x].last_key@, first) {
        lemma_le_trans(
            tables[x].last_key@,
            tables[merged[a]].first_key@,
            tables[y].first_key@,
        );
    } else {
        lemma_le_trans(tables[y].last_key@, tables[merged[b]].last_key@, tables[x].first_key@);
    }
}

/// The tables that the lower level holds after a merge: all loaded, none twice, no two with a key in
/// common.
proof fn lemma_list_apart(
    tables: Map<usize, Arc<SsTable>>,
    upper: Seq<usize>,
    chosen: Seq<usize>,
    kept: Seq<usize>,
    output: Seq<usize>,
    first: VKey,
    last: VKey,
)
    requires
        ranges_ok(tables),
        leveled::is_key_range(tables, upper, first, last),
        kept.no_duplicates(),
        forall|x: usize| #[trigger]
            kept.contains(x) ==> tables.contains_key(x) && !shares_a_key(tables, upper, x),
        forall|a: usize| #[trigger]
            chosen.contains(a) ==> tables.contains_key(a) && shares_a_key(tables, upper, a),
        forall|x: usize, y: usize| #[trigger]
            kept.contains(x) && #[trigger] chosen.contains(y) ==> ranges_apart(
                *tables[x],
                *tables[y],
            ),
        forall|x: usize, y: usize|
            #![trigger kept.contains(x), kept.contains(y)]
            kept.contains(x) && kept.contains(y) && x != y ==> ranges_apart(*tables[x], *tables[y]),
        disjoint_tables(tables, output),
        between_merged(tables, upper + chosen, output),
    ensures
        (kept + output).no_duplicates(),
        forall|x: usize| #[trigger] (kept + output).contains(x) ==> tables.contains_key(x),
        forall|x: usize, y: usize| #[trigger]
            (kept + output).contains(x) && #[trigger] (kept + output).contains(y) && x != y
                ==> ranges_apart(*tables[x], *tables[y]),
{
    let list = kept + output;
    lemma_disjoint_once(tables, output);
    assert forall|y: usize| #[trigger] output.contains(y) implies tables.contains_key(y) by {
        let j = output.index_of(y);
        assert(tables.contains_key(output[j]));
    }
    assert forall|x: usize, y: usize| #[trigger] kept.contains(x) && #[trigger] output.contains(
        y,
    ) implies ranges_apart(*tables[x], *tables[y]) by {
        let j = output.index_of(y);
        assert(tables.contains_key(output[j]));
        lemma_output_apart(tables, upper, chosen, x, y, first, last);
    }
    assert forall|x: usize, y: usize| #[trigger] output.contains(x) && #[trigger] output.contains(y)
        && x != y implies ranges_apart(*tables[x], *tables[y]) by {
        let p = output.index_of(x);
        let q = output.index_of(y);
        if p < q {
            assert(ranges_apart(*tables[output[p]], *tables[output[q]]));
        } else {
            assert(ranges_apart(*tables[output[q]], *tables[output[p]]));
        }
    }
    assert forall|x: usize| #[trigger] list.contains(x) implies tables.contains_key(x) by {
        lemma_in_both(kept, output, x);
    }
    assert forall|x: usize, y: usize|
        #[trigger] list.contains(x) && #[trigger] list.contains(y) && x != y implies ranges_apart(
        *tables[x],
        *tables[y],
    ) by {
        lemma_in_both(kept, output, x);
        lemma_in_both(kept, output, y);
        if output.contains(x) && kept.contains(y) {
            assert(ranges_apart(*tables[y], *tables[x]));
        }
    }
    assert forall|i: int, j: int|
        0 <= i < list.len() && 0 <= j < list.len() && i != j implies list[i] != list[j] by {
        let n = kept.len() as int;
        if i < n && j >= n {
            lemma_not_itself(tables, kept, output, i, j - n);
        } else if i >= n && j < n {
            lemma_not_itself(tables, kept, output, j, i - n);
        } else if i < n {
            assert(kept[i] != kept[j]);
        } else {
            assert(output[i - n] != output[j - n]);
        }
    }
}

/// Disjoint tables in the order of their first keys follow each other.
proof fn lemma_follow(tables: Map<usize, Arc<SsTable>>, list: Seq<usize>, ids: Seq<usize>)
    requires
        ranges_ok(tables),
        ids == leveled::by_first_key(tables, list),
        list.no_duplicates(),
        forall|x: usize| #[trigger] list.contains(x) ==> tables.contains_key(x),
        forall|x: usize, y: usize| #[trigger]
            list.contains(x) && #[trigger] list.contains(y) && x != y ==> ranges_apart(
                *tables[x],
                *tables[y],
            ),
    ensures
        forall|x: usize| #[trigger] ids.contains(x) <==> list.contains(x),
        follow_each_other(tables, ids),
{
    leveled::lemma_by_first_key(tables, list);
    lemma_same_members(ids, list);
    assert forall|i: int| 0 <= i < ids.len() implies tables.contains_key(#[trigger] ids[i]) by {
        assert(ids.contains(ids[i]));
    }
    assert forall|i: int, j: int|
        #![trigger ids[i], ids[j]]
        0 <= i < j < ids.len() implies key::key_lt(
        tables[ids[i]].last_key@,
        tables[ids[j]].first_key@,
    ) by {
        let x = ids[i];
        let y = ids[j];
        assert(ids.contains(x) && ids.contains(y));
        assert(x != y);
        assert(ranges_apart(*tables[x], *tables[y]));
        assert(key::key_le(tables[x].first_key@, tables[y].first_key@));
        if key::key_lt(tables[y].last_key@, tables[x].first_key@) {
            lemma_le_trans(tables[y].last_key@, tables[x].first_key@, tables[y].first_key@);
            lemma_not_lt(tables[y].last_key@, tables[y].first_key@);
        }
    }
}

/// The tables of the list are loaded, and each of them ends before the next one begins.
pub open spec fn follow_each_other(tables: Map<usize, Arc<SsTable>>, ids: Seq<usize>) -> bool {
    &&& forall|i: int| 0 <= i < ids.len() ==> tables.contains_key(#[trigger] ids[i])
    &&& forall|i: int, j: int|
        #![trigger ids[i], ids[j]]
        0 <= i < j < ids.len() ==> key::key_lt(
            tables[ids[i]].last_key@,
            tables[ids[j]].first_key@,
        )
}

/// All tables that were loaded are, and perhaps more.
pub open spec fn loaded_too(
    old_tables: Map<usize, Arc<SsTable>>,
    tables: Map<usize, Arc<SsTable>>,
) -> bool {
    forall|id: usize| #[trigger]
        old_tables.contains_key(id) ==> tables.contains_key(id) && tables[id] == old_tables[id]
}

proof fn lemma_range_stays(
    old_tables: Map<usize, Arc<SsTable>>,
    tables: Map<usize, Arc<SsTable>>,
    upper: Seq<usize>,
    first: VKey,
    last: VKey,
)
    requires
        loaded_too(old_tables, tables),
        ranges_ok(tables),
        leveled::all_loaded(old_tables, upper),
        leveled::is_key_range(old_tables, upper, first, last),
    ensures
        ranges_ok(old_tables),
        leveled::is_key_range(tables, upper, first, last),
        forall|x: usize| #[trigger]
            old_tables.contains_key(x) ==> shares_a_key(tables, upper, x) == shares_a_key(
                old_tables,
                upper,
                x,
            ),
{
    assert forall|id: usize| #[trigger] old_tables.contains_key(id) implies old_tables[id].id == id
        && key::key_le(old_tables[id].first_key@, old_tables[id].last_key@) by {
        assert(tables.contains_key(id));
    }
    let a = choose|i: int|
        0 <= i < upper.len() && old_tables.contains_key(#[trigger] upper[i])
            && old_tables[upper[i]].first_key@ == first;
    let b = choose|i: int|
        0 <= i < upper.len() && old_tables.contains_key(#[trigger] upper[i])
            && old_tables[upper[i]].last_key@ == last;
    assert(tables.contains_key(upper[a]) && tables.contains_key(upper[b]));
    assert forall|i: int|
        0 <= i < upper.len() && tables.contains_key(#[trigger] upper[i]) implies key::key_le(
        first,
        tables[upper[i]].first_key@,
    ) && key::key_le(tables[upper[i]].last_key@, last) by {
        assert(old_tables.contains_key(upper[i]));
    }
    assert forall|x: usize| #[trigger] old_tables.contains_key(x) implies shares_a_key(
        tables,
        upper,
        x,
    ) == shares_a_key(old_tables, upper, x) by {
        assert(tables.contains_key(x));
        lemma_shares_a_key(tables, upper, x, first, last);
        lemma_shares_a_key(old_tables, upper, x, first, last);
    }
}

/// A leveled compaction keeps the lower level a run: where its tables were disjoint, the new ones are
/// disjoint too, and what is new lies between the ends of the merged tables, then after the result
/// has been applied each table of the level ends before the next one begins. The level has lost the
/// tables of the task and no other, and gained the new ones.
pub proof fn lemma_leveled_stays_disjoint(
    options: LeveledCompactionOptions,
    before: LsmStorageState,
    ranks: Seq<u64>,
    task: LeveledCompactionTask,
    mid: LsmStorageState,
    after: LsmStorageState,
    output: Seq<usize>,
)
    requires
        leveled::generated(options, before, ranks, Some(task)),
        leveled::all_loaded(before.sstables@, task.upper_level_sst_ids@),
        loaded_too(before.sstables@, mid.sstables@),
        mid.levels == before.levels,
        ranges_ok(mid.sstables@),
        disjoint_tables(before.sstables@, before.levels@[task.lower_level - 1].1@),
        disjoint_tables(mid.sstables@, output),
        between_merged(
            mid.sstables@,
            task.upper_level_sst_ids@ + task.lower_level_sst_ids@,
            output,
        ),
        leveled::leveled_applied(mid, after, task, output),
    ensures
        follow_each_other(mid.sstables@, after.levels@[task.lower_level - 1].1@),
        forall|x: usize| #[trigger]
            after.levels@[task.lower_level - 1].1@.contains(x) <==> output.contains(x) || (
            before.levels@[task.lower_level - 1].1@.contains(x)
                && !task.lower_level_sst_ids@.contains(x)),
{
    let tables = mid.sstables@;
    let old_tables = before.sstables@;
    let upper = task.upper_level_sst_ids@;
    let chosen = task.lower_level_sst_ids@;
    let lower = before.levels@[task.lower_level - 1].1@;
    let kept = ids::without(lower, chosen);
    let ids = after.levels@[task.lower_level - 1].1@;
    let (first, last) = choose|first: VKey, last: VKey| #[trigger]
        leveled::is_key_range(old_tables, upper, first, last) && chosen == leveled::overlapping(
            old_tables,
            lower,
            first,
            last,
        );
    assert(leveled::is_key_range(old_tables, upper, first, last));
    lemma_range_stays(old_tables, tables, upper, first, last);
    lemma_leveled_lower_tables(options, before, ranks, task);
    lemma_disjoint_once(old_tables, lower);
    lemma_without_once(lower, chosen);
    assert forall|x: usize, y: usize| #[trigger] lower.contains(x) && #[trigger] lower.contains(y)
        && x != y implies ranges_apart(*tables[x], *tables[y]) by {
        let p = lower.index_of(x);
        let q = lower.index_of(y);
        assert(old_tables.contains_key(lower[p]) && old_tables.contains_key(lower[q]));
        if p < q {
            assert(ranges_apart(*old_tables[lower[p]], *old_tables[lower[q]]));
        } else {
            assert(ranges_apart(*old_tables[lower[q]], *old_tables[lower[p]]));
        }
    }
    assert forall|x: usize| #[trigger] kept.contains(x) implies lower.contains(x)
        && !chosen.contains(x) && tables.contains_key(x) && !shares_a_key(tables, upper, x) by {
        ids::lemma_without(lower, chosen, x);
        let i = lower.index_of(x);
        assert(old_tables.contains_key(lower[i]));
    }
    assert forall|a: usize| #[trigger] chosen.contains(a) implies lower.contains(a)
        && tables.contains_key(a) && shares_a_key(tables, upper, a) by {
        assert(old_tables.contains_key(a));
    }
    lemma_list_apart(tables, upper, chosen, kept, output, first, last);
    lemma_follow(tables, kept + output, ids);
    assert forall|x: usize| #[trigger] ids.contains(x) <==> output.contains(x) || (lower.contains(x)
        && !chosen.contains(x)) by {
        lemma_in_both(kept, output, x);
        ids::lemma_without(lower, chosen, x);
    }
}

/// An id is in two lists together exactly where it is in one of them.
pub proof fn lemma_in_both(a: Seq<usize>, b: Seq<usize>, x: usize)
    ensures
        (a + b).contains(x) <==> a.contains(x) || b.contains(x),
{
    let all = a + b;
    if all.contains(x) {
        let i = all.index_of(x);
        if i < a.len() {
            assert(a[i] == x);
        } else {
            assert(b[i - a.len()] == x);
        }
    }
    if a.contains(x) {
        assert(all[a.index_of(x)] == x);
    }
    if b.contains(x) {
        assert(all[a.len() + b.index_of(x)] == x);
    }
}

/// No table that is kept is new.
proof fn lemma_not_itself(
    tables: Map<usize, Arc<SsTable>>,
    kept: Seq<usize>,
    output: Seq<usize>,
    i: int,
    j: int,
)
    requires
        ranges_ok(tables),
        0 <= i < kept.len(),
        0 <= j < output.len(),
        tables.contains_key(output[j]),
        forall|x: usize, y: usize| #[trigger]
            kept.contains(x) && #[trigger] output.contains(y) ==> ranges_apart(
                *tables[x],
                *tables[y],
            ),
    ensures
        kept[i] != output[j],
{
    assert(kept.contains(kept[i]) && output.contains(output[j]));
    if kept[i] == output[j] {
        let t = tables[output[j]];
        lemma_not_lt(t.last_key@, t.first_key@);
    }
}

/// Lists with the same ids in another order.
proof fn lemma_same_members(a: Seq<usize>, b: Seq<usize>)
    requires
        a.to_multiset() == b.to_multiset(),
        b.no_duplicates(),
    ensures
        a.no_duplicates(),
        forall|x: usize| #[trigger] a.contains(x) <==> b.contains(x),
{
    a.to_multiset_ensures();
    b.to_multiset_ensures();
    b.lemma_multiset_has_no_duplicates();
    assert forall|x: usize| #[trigger] a.contains(x) <==> b.contains(x) by {
        assert(a.contains(x) <==> a.to_multiset().count(x) > 0);
        assert(b.contains(x) <==> b.to_multiset().count(x) > 0);
    }
    a.lemma_multiset_has_no_duplicates_conv();
}

} // verus!
