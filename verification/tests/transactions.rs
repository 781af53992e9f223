use mini_lsm::bound::Bound;
use mini_lsm::error::LsmError;
use mini_lsm::iterators::StorageIterator;
use mini_lsm::lsm_storage::{LsmStorageInner, LsmStorageOptions, WriteBatchRecord};
use mini_lsm::mvcc::txn::TxnIterator;
use mini_lsm::mvcc::watermark::Watermark;
use mini_lsm::mvcc::LsmMvccInner;

fn engine() -> LsmStorageInner {
    LsmStorageInner::open(LsmStorageOptions::default_for_week1_test(), None).unwrap()
}

fn walk(mut iter: TxnIterator) -> Vec<(String, String)> {
    let mut out = Vec::new();
    while iter.is_valid() {
        out.push((
            String::from_utf8(iter.key().to_vec()).unwrap(),
            String::from_utf8(iter.value().to_vec()).unwrap(),
        ));
        iter.next().unwrap();
    }
    out
}

fn pairs(list: &[(&str, &str)]) -> Vec<(String, String)> {
    list.iter().map(|(k, v)| (k.to_string(), v.to_string())).collect()
}

#[test]
fn a_transaction_reads_a_snapshot() {
    let mut e = engine();
    e.put(b"a", b"1");
    let txn = e.new_txn();
    e.put(b"a", b"2");
    e.delete(b"b");
    assert_eq!(txn.get(&e, b"a").unwrap(), Some(b"1".to_vec()));
    assert_eq!(e.get(b"a").unwrap(), Some(b"2".to_vec()));
    let scan = txn.scan(&e, Bound::Unbounded, Bound::Unbounded).unwrap();
    assert_eq!(walk(scan), pairs(&[("a", "1")]));
}

#[test]
fn a_transaction_sees_its_own_writes() {
    let mut e = engine();
    e.put(b"a", b"1");
    e.put(b"b", b"1");
    e.put(b"c", b"1");
    let mut txn = e.new_txn();
    txn.put(b"b", b"mine").unwrap();
    txn.delete(b"c").unwrap();
    txn.put(b"d", b"new").unwrap();
    assert_eq!(txn.get(&e, b"b").unwrap(), Some(b"mine".to_vec()));
    assert_eq!(txn.get(&e, b"c").unwrap(), None);
    assert_eq!(e.get(b"b").unwrap(), Some(b"1".to_vec()));
    let scan = txn.scan(&e, Bound::Unbounded, Bound::Unbounded).unwrap();
    assert_eq!(walk(scan), pairs(&[("a", "1"), ("b", "mine"), ("d", "new")]));
    let scan = txn.scan(&e, Bound::Excluded(b"a"), Bound::Excluded(b"d")).unwrap();
    assert_eq!(walk(scan), pairs(&[("b", "mine")]));
}

#[test]
fn a_scan_does_not_show_a_first_key_the_transaction_deleted() {
    let mut e = engine();
    e.put(b"a", b"1");
    e.put(b"b", b"2");
    let mut txn = e.new_txn();
    txn.delete(b"a").unwrap();
    let scan = txn.scan(&e, Bound::Unbounded, Bound::Unbounded).unwrap();
    assert_eq!(walk(scan), pairs(&[("b", "2")]));
}

#[test]
fn committing_publishes_all_writes_at_once() {
    let mut e = engine();
    e.put(b"a", b"1");
    e.put(b"b", b"1");
    let before = e.mvcc().latest_commit_ts();
    let mut txn = e.new_txn();
    txn.put(b"a", b"2").unwrap();
    txn.delete(b"b").unwrap();
    txn.commit(&mut e).unwrap();
    assert_eq!(e.mvcc().latest_commit_ts(), before + 1);
    assert_eq!(e.get(b"a").unwrap(), Some(b"2".to_vec()));
    assert_eq!(e.get(b"b").unwrap(), None);
    assert_eq!(e.get_with_ts(before, b"a").unwrap(), Some(b"1".to_vec()));
    assert_eq!(e.get_with_ts(before, b"b").unwrap(), Some(b"1".to_vec()));
}

#[test]
fn a_committed_transaction_is_done() {
    let mut e = engine();
    let mut txn = e.new_txn();
    txn.put(b"a", b"1").unwrap();
    txn.commit(&mut e).unwrap();
    let ts = e.mvcc().latest_commit_ts();
    assert!(txn.commit(&mut e).unwrap().is_empty());
    assert_eq!(e.mvcc().latest_commit_ts(), ts);
    assert_eq!(txn.check_commit_status(), Err(LsmError::TransactionCommitted));
    assert_eq!(txn.get(&e, b"a"), Err(LsmError::TransactionCommitted));
    assert_eq!(txn.put(b"a", b"2"), Err(LsmError::TransactionCommitted));
    assert_eq!(txn.delete(b"a"), Err(LsmError::TransactionCommitted));
    assert!(txn.scan(&e, Bound::Unbounded, Bound::Unbounded).is_err());
}

#[test]
fn a_batch_has_one_timestamp_and_the_last_write_wins() {
    let mut e = engine();
    let before = e.mvcc().latest_commit_ts();
    e.write_batch(&[
        WriteBatchRecord::Put(&b"a"[..], &b"1"[..]),
        WriteBatchRecord::Put(&b"b"[..], &b"1"[..]),
        WriteBatchRecord::Del(&b"a"[..]),
    ]);
    assert_eq!(e.mvcc().latest_commit_ts(), before + 1);
    assert_eq!(e.get(b"a").unwrap(), None);
    assert_eq!(e.get(b"b").unwrap(), Some(b"1".to_vec()));
    assert_eq!(e.get_with_ts(before, b"b").unwrap(), None);
}

#[test]
fn readers_are_counted() {
    let mut w = Watermark::new();
    assert_eq!(w.watermark(), None);
    w.add_reader(5);
    w.add_reader(3);
    w.add_reader(5);
    assert_eq!(w.watermark(), Some(3));
    w.remove_reader(3);
    assert_eq!(w.watermark(), Some(5));
    w.remove_reader(5);
    w.remove_reader(9);
    assert_eq!(w.readers, vec![5]);
}

#[test]
fn scans_and_transactions_count_as_readers() {
    let mut e = engine();
    let (_, ts) = e.scan(Bound::Unbounded, Bound::Unbounded).unwrap();
    let txn = e.new_txn();
    assert_eq!(e.mvcc.ts.1.readers, vec![ts, txn.read_ts]);
    e.mvcc.drop_read_ts(ts);
    e.mvcc.drop_read_ts(txn.read_ts);
    assert_eq!(e.mvcc.ts.1.watermark(), None);
    let mut clock = LsmMvccInner::new(7);
    clock.update_commit_ts(9);
    assert_eq!(clock.latest_commit_ts(), 9);
}
