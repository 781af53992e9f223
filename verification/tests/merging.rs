use std::sync::Arc;

use mini_lsm::bound::Bound;
use mini_lsm::iterators::concat_iterator::SstConcatIterator;
use mini_lsm::iterators::merge_iterator::MergeIterator;
use mini_lsm::iterators::two_merge_iterator::{CompareState, TwoMergeIterator};
use mini_lsm::iterators::StorageIterator;
use mini_lsm::key::KeySlice;
use mini_lsm::lsm_iterator::FusedIterator;
use mini_lsm::mem_table::{MemTable, MemTableIterator};
use mini_lsm::table::{SsTable, SsTableBuilder};

fn mem(entries: &[(&[u8], u64, &[u8])]) -> MemTableIterator {
    let mut table = MemTable::create(0);
    for (k, ts, v) in entries {
        table.put(KeySlice::from_slice(k, *ts), v);
    }
    table.scan(Bound::Unbounded, Bound::Unbounded)
}

fn sst(id: usize, keys: &[&str]) -> Arc<SsTable> {
    let mut builder = SsTableBuilder::new(64);
    for k in keys {
        builder.add(KeySlice::from_slice(k.as_bytes(), 1), k.as_bytes());
    }
    Arc::new(builder.build(id))
}

fn values<I>(mut iter: I) -> Vec<String>
where
    I: for<'a> StorageIterator<KeyType<'a> = KeySlice<'a>>,
{
    let mut out = Vec::new();
    while iter.is_valid() {
        out.push(String::from_utf8(iter.value().to_vec()).unwrap());
        iter.next().unwrap();
    }
    out
}

#[test]
fn merging_prefers_the_first_iterator() {
    let a = mem(&[(b"a", 1, b"a1"), (b"c", 1, b"c1")]);
    let b = mem(&[(b"a", 1, b"a2"), (b"b", 1, b"b2"), (b"c", 2, b"c2new")]);
    let c = mem(&[]);
    let d = mem(&[(b"d", 1, b"d4")]);
    let merged = MergeIterator::create(vec![Box::new(a), Box::new(b), Box::new(c), Box::new(d)]);
    assert_eq!(merged.num_active_iterators(), 3);
    assert_eq!(values(merged), vec!["a1", "b2", "c2new", "c1", "d4"]);
}

#[test]
fn merging_nothing_gives_nothing() {
    let merged: MergeIterator<MemTableIterator> = MergeIterator::create(Vec::new());
    assert!(!merged.is_valid());
    let merged = MergeIterator::create(vec![Box::new(mem(&[]))]);
    assert!(!merged.is_valid());
}

#[test]
fn two_iterators_of_different_types_are_merged() {
    let a = mem(&[(b"b", 1, b"mem"), (b"d", 1, b"mem")]);
    let b = SstConcatIterator::create_and_seek_to_first(vec![sst(1, &["a", "b"]), sst(2, &["c", "e"])])
        .unwrap();
    assert_eq!(TwoMergeIterator::get_compare_state(&a, &b), CompareState::BLess);
    let merged = TwoMergeIterator::create(a, b).unwrap();
    assert_eq!(values(merged), vec!["a", "mem", "c", "mem", "e"]);
}

#[test]
fn tables_of_a_run_are_walked_one_after_another() {
    let run = vec![sst(1, &["a", "b"]), sst(2, &["c"]), sst(3, &["d", "e"])];
    let iter = SstConcatIterator::create_and_seek_to_first(run.clone()).unwrap();
    assert_eq!(iter.num_active_iterators(), 3);
    assert_eq!(values(iter), vec!["a", "b", "c", "d", "e"]);
    let seek = |k: &[u8]| {
        SstConcatIterator::create_and_seek_to_key(run.clone(), KeySlice::from_slice(k, u64::MAX)).unwrap()
    };
    assert_eq!(values(seek(b"bb")), vec!["c", "d", "e"]);
    assert_eq!(values(seek(b"b")), vec!["b", "c", "d", "e"]);
    assert_eq!(values(seek(b"e")), vec!["e"]);
    assert!(!seek(b"f").is_valid());
    assert_eq!(values(SstConcatIterator::create_and_seek_to_first(Vec::new()).unwrap()).len(), 0);
}

#[test]
fn tables_of_a_run_are_found_by_bisection() {
    let run = vec![sst(1, &["a", "b"]), sst(2, &["d"]), sst(3, &["f", "g"])];
    let idx = |k: &[u8]| SstConcatIterator::search_table_idx(&run, KeySlice::from_slice(k, 0));
    assert_eq!(idx(b"a"), 0);
    assert_eq!(idx(b"c"), 1);
    assert_eq!(idx(b"d"), 1);
    assert_eq!(idx(b"g"), 2);
    assert_eq!(idx(b"h"), 4);
    assert_eq!(idx(b""), 0);
}

#[test]
fn a_fused_iterator_stays_at_the_end() {
    let mut iter = FusedIterator::new(mem(&[(b"a", 1, b"x")]));
    assert!(iter.is_valid());
    iter.next().unwrap();
    assert!(!iter.is_valid());
    iter.next().unwrap();
    assert!(!iter.is_valid());
}
