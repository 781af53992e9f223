use std::sync::Arc;

use mini_lsm::block_cache::create_block_cache;
use mini_lsm::bound::Bound;
use mini_lsm::error::LsmError;
use mini_lsm::iterators::StorageIterator;
use mini_lsm::key::{KeySlice, KeyVec};
use mini_lsm::outside::try_fingerprint;
use mini_lsm::table::bloom::Bloom;
use mini_lsm::table::meta::BlockMeta;
use mini_lsm::table::{FileObject, SsTable, SsTableBuilder, SsTableIterator};

fn sample(id: usize, n: u32, block_size: usize) -> SsTable {
    let mut builder = SsTableBuilder::new(block_size);
    for i in 0..n {
        let k = format!("key{:04}", i * 2);
        let v = format!("value{}", i);
        builder.add(KeySlice::from_slice(k.as_bytes(), 10 + i as u64), v.as_bytes());
    }
    builder.build(id)
}

fn walk(mut iter: SsTableIterator) -> Vec<(Vec<u8>, u64, Vec<u8>)> {
    let mut out = Vec::new();
    while iter.is_valid() {
        out.push((iter.key().key_ref().to_vec(), iter.key().ts(), iter.value().to_vec()));
        iter.next().unwrap();
    }
    out
}

#[test]
fn a_table_gives_back_what_was_added() {
    let table = Arc::new(sample(3, 100, 64));
    assert!(table.num_of_blocks() > 10);
    assert_eq!(table.sst_id(), 3);
    assert_eq!(table.max_ts(), 109);
    assert_eq!(table.first_key().key_ref(), b"key0000");
    assert_eq!(table.last_key().key_ref(), b"key0198");
    let all = walk(SsTableIterator::create_and_seek_to_first(table).unwrap());
    assert_eq!(all.len(), 100);
    assert_eq!(all[7], (b"key0014".to_vec(), 17, b"value7".to_vec()));
}

#[test]
fn a_written_table_can_be_opened_again() {
    let table = sample(5, 50, 128);
    let bytes = table.file.0.clone().unwrap();
    assert_eq!(table.table_size(), bytes.len() as u64);
    let opened = SsTable::open(9, FileObject::create(bytes)).unwrap();
    assert!(opened.is_sound());
    assert_eq!(opened.sst_id(), 9);
    assert_eq!(opened.max_ts(), 59);
    assert_eq!(opened.num_of_blocks(), table.num_of_blocks());
    let a = walk(SsTableIterator::create_and_seek_to_first(Arc::new(opened)).unwrap());
    let b = walk(SsTableIterator::create_and_seek_to_first(Arc::new(table)).unwrap());
    assert_eq!(a, b);
}

#[test]
fn a_table_without_entries_is_a_table() {
    let table = SsTableBuilder::new(4096).build(1);
    assert!(table.is_sound());
    let bytes = table.file.0.clone().unwrap();
    let opened = SsTable::open(1, FileObject::create(bytes)).unwrap();
    assert!(opened.is_sound());
    assert!(walk(SsTableIterator::create_and_seek_to_first(Arc::new(opened)).unwrap()).is_empty());
}

#[test]
fn seeking_finds_the_first_key_not_before() {
    let table = Arc::new(sample(1, 100, 64));
    let iter = SsTableIterator::create_and_seek_to_key(
        Arc::clone(&table),
        KeySlice::from_slice(b"key0013", u64::MAX),
    )
    .unwrap();
    assert_eq!(iter.key().key_ref(), b"key0014");
    let mut iter = SsTableIterator::create_and_seek_to_key(
        Arc::clone(&table),
        KeySlice::from_slice(b"key0014", 16),
    )
    .unwrap();
    assert_eq!(iter.key().key_ref(), b"key0016");
    iter.seek_to_key(KeySlice::from_slice(b"zzz", 0)).unwrap();
    assert!(!iter.is_valid());
    iter.seek_to_first().unwrap();
    assert_eq!(iter.key().key_ref(), b"key0000");
}

#[test]
fn sections_are_where_the_layout_says() {
    let table = sample(1, 10, 64);
    let bytes = table.file.0.clone().unwrap();
    let range = SsTable::get_section_range(&table.file).unwrap().unwrap();
    assert_eq!(range.file_size, bytes.len() as u64);
    assert_eq!(range.data_end, table.meta_section_offset as u64);
    assert_eq!(range.num_of_blocks_end - range.num_of_blocks_start, 4);
    assert_eq!(range.meta_start, range.num_of_blocks_end);
    assert_eq!(range.meta_checksum_end - range.meta_checksum_start, 4);
    assert_eq!(range.meta_offset_end, range.bloom_start);
    assert_eq!(range.bloom_offset_end, range.file_size);
    let count = &bytes[range.num_of_blocks_start as usize..range.num_of_blocks_end as usize];
    assert_eq!(count, (table.num_of_blocks() as u32).to_le_bytes());
    let none = FileObject(None, 0);
    assert!(SsTable::get_section_range(&none).unwrap().is_none());
}

#[test]
fn broken_files_are_reported() {
    let table = sample(1, 10, 64);
    let good = table.file.0.clone().unwrap();
    let range = SsTable::get_section_range(&table.file).unwrap().unwrap();

    let mut broken_meta = good.clone();
    broken_meta[range.meta_start as usize] ^= 1;
    assert_eq!(
        SsTable::open(1, FileObject::create(broken_meta)).err(),
        Some(LsmError::MetaChecksumMismatch)
    );

    let mut broken_bloom = good.clone();
    broken_bloom[range.bloom_start as usize] ^= 1;
    assert_eq!(
        SsTable::open(1, FileObject::create(broken_bloom)).err(),
        Some(LsmError::BloomChecksumMismatch)
    );

    assert_eq!(
        SsTable::open(1, FileObject::create(vec![1, 2, 3])).err(),
        Some(LsmError::Malformed)
    );
    assert_eq!(
        SsTable::open(1, FileObject::create(vec![0, 0, 0, 0, 0, 0, 0, 0, 255, 0, 0, 0])).err(),
        Some(LsmError::UnexpectedEnd)
    );
}

#[test]
fn a_block_out_of_bounds_is_reported() {
    let table = sample(1, 10, 64);
    let n = table.num_of_blocks();
    assert!(table.read_block(n - 1).is_ok());
    assert_eq!(
        table.read_block(n).err(),
        Some(LsmError::BlockIndexOutOfBounds { index: n, max: n })
    );
}

#[test]
fn cached_blocks_are_the_blocks_of_the_table() {
    let table = sample(4, 60, 64);
    let mut cache = create_block_cache();
    for round in 0..2 {
        for i in 0..table.num_of_blocks() {
            let cached = table.read_block_cached(&mut cache, i).unwrap();
            let direct = table.read_block(i).unwrap();
            assert_eq!(cached.data, direct.data, "round {}", round);
            assert_eq!(cached.offsets, direct.offsets);
        }
    }
    let first = table.read_block_cached(&mut cache, 0).unwrap();
    let again = table.read_block_cached(&mut cache, 0).unwrap();
    assert!(Arc::ptr_eq(&first, &again));
    let n = table.num_of_blocks();
    assert_eq!(
        table.read_block_cached(&mut cache, n).err(),
        Some(LsmError::BlockIndexOutOfBounds { index: n, max: n })
    );
}

#[test]
fn files_are_read_by_range() {
    let file = FileObject::create(b"hello".to_vec());
    assert_eq!(file.size(), 5);
    assert_eq!(file.read(1, 3).unwrap(), b"ell".to_vec());
    assert_eq!(file.read(3, 3).err(), Some(LsmError::UnexpectedEnd));
    assert_eq!(file.read(u64::MAX, 1).err(), Some(LsmError::UnexpectedEnd));
}

#[test]
fn blocks_are_found_by_key() {
    let table = sample(1, 100, 64);
    let last = table.num_of_blocks() - 1;
    assert_eq!(table.find_block_idx(KeySlice::from_slice(b"a", 0)), 0);
    assert_eq!(table.find_block_idx(KeySlice::from_slice(b"key0198", u64::MAX)), last);
}

#[test]
fn overlap_is_decided_by_the_end_keys() {
    let table = sample(1, 10, 4096);
    let b = |s: &'static [u8]| Bound::Included(s);
    assert!(table.has_overlap(b(b"key0018"), Bound::Unbounded));
    assert!(!table.has_overlap(Bound::Excluded(b"key0018"), Bound::Unbounded));
    assert!(table.has_overlap(Bound::Unbounded, b(b"key0000")));
    assert!(!table.has_overlap(Bound::Unbounded, Bound::Excluded(b"key0000")));
    assert!(table.has_overlap(b(b"key0005"), b(b"key0005")));
    assert!(!table.has_overlap(b(b"z"), b(b"zz")));
}

#[test]
fn the_bloom_filter_knows_every_key() {
    let table = sample(1, 200, 256);
    for i in 0..200 {
        assert!(table.may_contain(format!("key{:04}", i * 2).as_bytes()));
    }
    let misses = (0..200).filter(|i| !table.may_contain(format!("other{}", i).as_bytes())).count();
    assert!(misses > 150);
}

#[test]
fn bloom_filters_survive_encoding() {
    let hashes: Vec<u32> = (1..50u32).map(|i| i.wrapping_mul(0x9E37_79B9)).collect();
    let bloom = Bloom::build_from_key_hashes(&hashes, 10);
    assert_eq!(bloom.k, 6);
    let mut buf = Vec::new();
    bloom.encode(&mut buf);
    let back = Bloom::decode(&buf).unwrap();
    assert_eq!(back.filter, bloom.filter);
    for h in hashes {
        assert!(back.may_contain(h));
    }
    buf[0] ^= 1;
    assert_eq!(Bloom::decode(&buf).err(), Some(LsmError::BloomChecksumMismatch));
}

#[test]
fn block_metadata_survives_encoding() {
    let metas = vec![
        BlockMeta {
            offset: 0,
            first_key: KeyVec::from_bytes_with_ts(b"a".to_vec(), 3),
            last_key: KeyVec::from_bytes_with_ts(b"b".to_vec(), 2),
        },
        BlockMeta {
            offset: 100,
            first_key: KeyVec::from_bytes_with_ts(b"c".to_vec(), 1),
            last_key: KeyVec::from_bytes_with_ts(b"ddd".to_vec(), 9),
        },
    ];
    let mut buf = Vec::new();
    BlockMeta::encode_block_meta(&metas, &mut buf);
    let back = BlockMeta::decode_block_meta(&buf);
    assert_eq!(back.len(), 2);
    assert_eq!(back[1].offset, 100);
    assert_eq!(back[1].last_key.key_ref(), b"ddd");
    assert_eq!(back[1].last_key.ts(), 9);
    assert_eq!(back[0].first_key.ts(), 3);
    // What stands in front of the metadata does not matter.
    let mut buf = vec![7, 7, 7];
    BlockMeta::encode_block_meta(&metas, &mut buf);
    let back = BlockMeta::decode_block_meta(&buf);
    assert_eq!(back.len(), 2);
    assert_eq!(back[0].first_key.key_ref(), b"a");
    assert_eq!(back[1].offset, 100);
    assert_eq!(back[1].last_key.ts(), 9);
}

#[test]
fn a_table_of_metadata_only_has_no_file() {
    let table = SsTable::create_meta_only(
        7,
        123,
        KeyVec::from_bytes_with_ts(b"a".to_vec(), 0),
        KeyVec::from_bytes_with_ts(b"z".to_vec(), 0),
    );
    assert_eq!(table.table_size(), 123);
    assert_eq!(table.num_of_blocks(), 0);
    assert!(!table.is_sound());
    assert_eq!(
        SsTableIterator::create_and_seek_to_first(Arc::new(table)).err(),
        Some(LsmError::BlockIndexOutOfBounds { index: 0, max: 0 })
    );
}

#[test]
fn the_estimated_size_grows_with_the_entries() {
    let mut builder = SsTableBuilder::new(64);
    assert_eq!(builder.estimated_size(), 0);
    builder.add(KeySlice::from_slice(b"key", 1), b"value");
    // One entry of 2 + 11 + 2 + 5 bytes and its offset.
    assert_eq!(builder.estimated_size(), 22);
    builder.add(KeySlice::from_slice(b"kez", 1), &[b'v'; 60]);
    // The first block is finished, with the number of its entries and a checksum.
    assert_eq!(builder.estimated_size(), 22 + 2 + 4 + 2 + 11 + 2 + 60 + 2);
}

#[test]
fn some_keys_have_no_fingerprint() {
    assert_eq!(try_fingerprint(&[255; 5]), None);
    assert_eq!(try_fingerprint(b""), try_fingerprint(b""));
    assert!(try_fingerprint(b"").is_some());
    assert!(try_fingerprint(b"hello").is_some());
    assert_ne!(try_fingerprint(b"hello"), try_fingerprint(b"hellp"));
    assert!(try_fingerprint(&[255; 25]).is_some());
}
