use mini_lsm::bound::Bound;
use mini_lsm::error::LsmError;
use mini_lsm::iterators::StorageIterator;
use mini_lsm::key::KeySlice;
use mini_lsm::manifest::Manifest;
use mini_lsm::mem_table::{MemTable, MemTableIterator};
use mini_lsm::table::SsTableBuilder;
use mini_lsm::wal::Wal;

fn walk(mut iter: MemTableIterator) -> Vec<(Vec<u8>, u64, Vec<u8>)> {
    let mut out = Vec::new();
    while iter.is_valid() {
        out.push((iter.key().key_ref().to_vec(), iter.key().ts(), iter.value().to_vec()));
        iter.next().unwrap();
    }
    out
}

#[test]
fn a_batch_is_logged_with_length_and_checksum() {
    let mut wal = Wal::create();
    let record = wal.put(KeySlice::from_slice(b"k", 3), b"vw");
    assert_eq!(wal.get_max_ts(), 3);
    let mut body = vec![1, 0];
    body.extend_from_slice(b"k");
    body.extend_from_slice(&[3, 0, 0, 0, 0, 0, 0, 0]);
    body.extend_from_slice(&[2, 0]);
    body.extend_from_slice(b"vw");
    let mut expected = (body.len() as u32).to_le_bytes().to_vec();
    expected.extend_from_slice(&body);
    expected.extend_from_slice(&crc32fast::hash(&body).to_le_bytes());
    assert_eq!(record, expected);
}

#[test]
fn replaying_a_log_gives_back_all_batches() {
    let mut wal = Wal::create();
    let mut log = wal.put_batch(&[
        (KeySlice::from_slice(b"a", 1), &b"1"[..]),
        (KeySlice::from_slice(b"b", 1), &b""[..]),
    ]);
    log.extend(wal.put(KeySlice::from_slice(b"a", 7), b"2"));
    let table = MemTable::recover_from_wal(4, &log).unwrap();
    assert_eq!(table.id(), 4);
    assert_eq!(table.get_max_ts(), 7);
    assert_eq!(Wal::read_max_ts(&log), Ok(7));
    assert_eq!(
        walk(table.scan(Bound::Unbounded, Bound::Unbounded)),
        vec![
            (b"a".to_vec(), 7, b"2".to_vec()),
            (b"a".to_vec(), 1, b"1".to_vec()),
            (b"b".to_vec(), 1, b"".to_vec()),
        ]
    );
}

#[test]
fn broken_logs_are_reported() {
    let mut wal = Wal::create();
    let log = wal.put(KeySlice::from_slice(b"key", 1), b"value");
    assert_eq!(Wal::read_max_ts(&log[..log.len() - 1]), Err(LsmError::UnexpectedEnd));
    assert_eq!(Wal::read_max_ts(&log[..3]), Err(LsmError::UnexpectedEnd));
    let mut broken = log.clone();
    let last = broken.len() - 1;
    broken[last] ^= 1;
    assert!(matches!(
        MemTable::recover_from_wal(1, &broken).err(),
        Some(LsmError::WalChecksumMismatch { .. })
    ));
    assert_eq!(Wal::read_max_ts(&[]), Ok(0));

    // A body that is no sequence of entries.
    let body = [9u8, 9, 9];
    let mut odd = (body.len() as u32).to_le_bytes().to_vec();
    odd.extend_from_slice(&body);
    odd.extend_from_slice(&crc32fast::hash(&body).to_le_bytes());
    assert_eq!(Wal::read_max_ts(&odd), Err(LsmError::Malformed));
}

#[test]
fn batches_are_parsed_entry_by_entry() {
    let mut body = Vec::new();
    Wal::write_record(&KeySlice::from_slice(b"x", 5), b"yz", &mut body);
    let (key, value) = Wal::read_next_record(&body, 0);
    assert_eq!((key.key_ref(), key.ts(), value), (&b"x"[..], 5, b"yz".to_vec()));
    assert_eq!(Wal::parse_batch(&body).len(), 1);
    assert!(Wal::try_parse_batch(&body[1..]).is_none());
    assert_eq!(Wal::read_next_raw_batch(&[], 0), Err(LsmError::UnexpectedEnd));
}

#[test]
fn a_memtable_keeps_versions_apart() {
    let mut table = MemTable::create(1);
    assert!(table.is_empty());
    assert_eq!(table.put(KeySlice::from_slice(b"k", 1), b"old"), Vec::<u8>::new());
    table.put(KeySlice::from_slice(b"k", 2), b"new");
    assert!(!table.is_empty());
    assert_eq!(table.get(KeySlice::from_slice(b"k", 1)), Some(b"old".to_vec()));
    assert_eq!(table.get(KeySlice::from_slice(b"k", 2)), Some(b"new".to_vec()));
    assert_eq!(table.get(KeySlice::from_slice(b"k", 3)), None);
    // Key, timestamp and value of both entries.
    assert_eq!(table.approximate_size(), 2 * (1 + 8 + 3));
    assert_eq!(table.get_max_ts(), 0);
}

#[test]
fn a_memtable_with_a_wal_hands_out_what_to_log() {
    let mut table = MemTable::create_with_wal(1);
    let mut log = table.put(KeySlice::from_slice(b"a", 4), b"1");
    log.extend(table.put(KeySlice::from_slice(b"b", 3), b"2"));
    assert_eq!(table.get_max_ts(), 4);
    let back = MemTable::recover_from_wal(1, &log).unwrap();
    assert_eq!(
        walk(back.scan(Bound::Unbounded, Bound::Unbounded)),
        walk(table.scan(Bound::Unbounded, Bound::Unbounded))
    );
}

#[test]
fn a_memtable_is_scanned_by_range() {
    let mut table = MemTable::create(1);
    for k in [b"d", b"a", b"c", b"b"] {
        table.for_testing_put_slice(k, k);
    }
    assert_eq!(table.for_testing_get_slice(b"c"), Some(b"c".to_vec()));
    let keys = |iter| walk(iter).into_iter().map(|e| e.0).collect::<Vec<_>>();
    assert_eq!(
        keys(table.for_testing_scan_slice(Bound::Included(b"b"), Bound::Excluded(b"d"))),
        vec![b"b".to_vec(), b"c".to_vec()]
    );
    assert_eq!(
        keys(table.for_testing_scan_slice(Bound::Excluded(b"b"), Bound::Unbounded)),
        vec![b"c".to_vec(), b"d".to_vec()]
    );
    assert!(keys(table.for_testing_scan_slice(Bound::Included(b"x"), Bound::Included(b"b"))).is_empty());
}

#[test]
fn flushing_a_memtable_adds_all_entries_in_order() {
    let mut table = MemTable::create(1);
    table.put(KeySlice::from_slice(b"b", 1), b"2");
    table.put(KeySlice::from_slice(b"a", 1), b"1");
    let mut builder = SsTableBuilder::new(4096);
    table.flush(&mut builder);
    let sst = builder.build(1);
    assert_eq!(sst.first_key().key_ref(), b"a");
    assert_eq!(sst.last_key().key_ref(), b"b");
    assert!(table.all_fit());
}

#[test]
fn an_empty_key_does_not_fit() {
    let mut table = MemTable::create(1);
    table.put(KeySlice::from_slice(b"", 1), b"2");
    assert!(!table.all_fit());
}

#[test]
fn manifest_records_are_framed() {
    let framed = Manifest::frame_record(b"{}");
    let mut expected = vec![10, 0, 0, 0];
    expected.extend_from_slice(b"{}");
    expected.extend_from_slice(&crc32fast::hash(b"{}").to_le_bytes());
    assert_eq!(framed, expected);
}

#[test]
fn framing_manifest_records_can_be_undone() {
    let mut data = Manifest::frame_record(b"{\"Flush\":1}");
    data.extend(Manifest::frame_record(b""));
    data.extend(Manifest::frame_record(b"{\"Flush\":2}"));
    assert_eq!(
        Manifest::to_pure_records(&data).unwrap(),
        b"{\"Flush\":1}{\"Flush\":2}".to_vec()
    );
    assert_eq!(Manifest::to_pure_records(&[]).unwrap(), Vec::<u8>::new());
}

#[test]
fn broken_manifests_are_reported() {
    let data = Manifest::frame_record(b"abc");
    assert_eq!(Manifest::to_pure_records(&data[..2]), Err(LsmError::UnexpectedEnd));
    assert_eq!(Manifest::to_pure_records(&data[..8]), Err(LsmError::UnexpectedEnd));
    assert_eq!(Manifest::to_pure_records(&[3, 0, 0, 0, 1]), Err(LsmError::Malformed));
    let mut broken = data.clone();
    broken[5] ^= 1;
    assert!(matches!(
        Manifest::to_pure_records(&broken),
        Err(LsmError::ManifestChecksumMismatch { .. })
    ));
}
