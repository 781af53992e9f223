use std::sync::Arc;

use mini_lsm::block::builder::BlockBuilder;
use mini_lsm::block::iterator::BlockIterator;
use mini_lsm::block::Block;
use mini_lsm::key::KeySlice;

fn block_of(entries: &[(&[u8], u64, &[u8])]) -> Arc<Block> {
    let mut builder = BlockBuilder::new(4096);
    for (k, ts, v) in entries {
        assert!(builder.add(KeySlice::from_slice(k, *ts), v));
    }
    Arc::new(Block::decode(&builder.build().encode()))
}

#[test]
fn a_block_is_laid_out_entry_by_entry() {
    let mut builder = BlockBuilder::new(4096);
    assert!(builder.is_empty());
    assert!(builder.add(KeySlice::from_slice(b"abc", 1), b"xy"));
    assert!(builder.add(KeySlice::from_slice(b"abd", 2), b""));
    assert_eq!(builder.get_size(), 17 + 17 + 4);
    let bytes = builder.build().encode();
    let mut expected = vec![11, 0];
    expected.extend_from_slice(b"abc");
    expected.extend_from_slice(&[0, 0, 0, 0, 0, 0, 0, 1]);
    expected.extend_from_slice(&[2, 0]);
    expected.extend_from_slice(b"xy");
    // Of the second key only what differs from the first one is stored.
    expected.extend_from_slice(&[13, 0, 2, 0, 1, 0]);
    expected.extend_from_slice(b"d");
    expected.extend_from_slice(&[2, 0, 0, 0, 0, 0, 0, 0]);
    expected.extend_from_slice(&[0, 0]);
    // The offsets and their number.
    expected.extend_from_slice(&[0, 0, 17, 0, 2, 0]);
    assert_eq!(bytes, expected);
}

#[test]
fn a_full_block_refuses_entries_but_never_the_first() {
    let mut builder = BlockBuilder::new(16);
    assert!(builder.add(KeySlice::from_slice(b"key", 0), &[7; 100]));
    assert!(!builder.add(KeySlice::from_slice(b"kez", 0), b"v"));
    let block = Block::decode(&builder.build().encode());
    let iter = BlockIterator::create_and_seek_to_first(Arc::new(block));
    assert_eq!(iter.key().key_ref(), b"key");
    assert_eq!(iter.value(), &[7; 100]);
}

#[test]
fn first_and_last_key_are_whole() {
    let mut builder = BlockBuilder::new(4096);
    builder.add(KeySlice::from_slice(b"prefix-a", 5), b"1");
    builder.add(KeySlice::from_slice(b"prefix-b", 6), b"2");
    builder.add(KeySlice::from_slice(b"prefix-c", 7), b"3");
    assert_eq!(builder.get_first_key().key_ref(), b"prefix-a");
    assert_eq!(builder.get_last_key().key_ref(), b"prefix-c");
    assert_eq!(builder.get_last_key().ts(), 7);
    assert_eq!(builder.get_key(1).key_ref(), b"prefix-b");
}

#[test]
fn packing_a_key_can_be_undone() {
    let key = KeySlice::from_slice(b"abcde", 77);
    let packed = BlockBuilder::encode_key(key, b"abxx");
    assert_eq!(packed.len(), 12 + 3);
    let back = BlockBuilder::decode_key(&packed, b"abxx");
    assert_eq!(back.key_ref(), b"abcde");
    assert_eq!(back.ts(), 77);
}

#[test]
fn a_block_iterator_walks_all_entries() {
    let block = block_of(&[(b"a", 2, b"1"), (b"a", 1, b""), (b"b", 1, b"3")]);
    let mut iter = BlockIterator::create_and_seek_to_first(block);
    let mut seen = Vec::new();
    while iter.is_valid() {
        seen.push((iter.key().key_ref().to_vec(), iter.key().ts(), iter.value().to_vec()));
        iter.next();
    }
    assert_eq!(
        seen,
        vec![
            (b"a".to_vec(), 2, b"1".to_vec()),
            (b"a".to_vec(), 1, b"".to_vec()),
            (b"b".to_vec(), 1, b"3".to_vec()),
        ]
    );
    assert!(iter.key().is_empty());
    assert_eq!(iter.key().ts(), 0);
}

#[test]
fn four_zeros_stand_for_no_entry() {
    assert_eq!(BlockIterator::get_kv_range(&[], 0), Some((0, 0, 0, 0)));
    let data = [1, 0, b'k', 2, 0, b'v', b'w'];
    assert_eq!(BlockIterator::get_kv_range(&data, 0), Some((2, 3, 5, 7)));
    assert_eq!(BlockIterator::get_kv_range(&data, 7), Some((0, 0, 0, 0)));
    assert_eq!(BlockIterator::get_kv_range(&data, 9), Some((0, 0, 0, 0)));
}

#[test]
fn any_stored_keys_can_be_searched() {
    // An empty key without a timestamp, an empty key at 5, and `a` at 1.
    let mut data = vec![0, 0, 1, 0, b'x'];
    data.extend([8, 0, 0, 0, 0, 0, 0, 0, 0, 5, 0, 0]);
    data.extend([9, 0, b'a', 0, 0, 0, 0, 0, 0, 0, 1, 1, 0, b'y']);
    let find = |key: &[u8], ts: u64| {
        BlockIterator::find_kv_range(&data, KeySlice::from_slice(key, ts)).map(|found| found.4)
    };
    assert_eq!(find(b"", 0), Some(0));
    assert_eq!(find(b"a", 1), Some(2));
    assert_eq!(
        BlockIterator::find_kv_range(&data, KeySlice::from_slice(b"a", 9)),
        Some((19, 28, 30, 31, 2))
    );
    assert_eq!(find(b"a", 0), None);
    assert_eq!(find(b"b", 0), None);
}

#[test]
fn a_builder_takes_empty_keys() {
    let mut first = BlockBuilder::new(1);
    assert!(first.add(KeySlice::from_slice(b"", 3), b"v"));
    assert!(!first.is_empty());
    assert_eq!(first.get_size(), 2 + 8 + 2 + 1 + 2);
    assert_eq!(first.get_first_key().ts(), 3);
    assert!(!first.add(KeySlice::from_slice(b"a", 3), b"v"));
    let mut b = BlockBuilder::new(100);
    assert!(b.add(KeySlice::from_slice(b"k", 7), b"1"));
    assert!(b.add(KeySlice::from_slice(b"", 6), b"2"));
    assert!(b.get_key(1).is_empty());
    assert_eq!(b.get_key(1).ts(), 6);
    assert_eq!(b.get_last_key().ts(), 6);
}

#[test]
fn a_block_iterator_seeks() {
    let block = block_of(&[(b"a", 5, b"1"), (b"c", 5, b"2"), (b"e", 5, b"3")]);
    let mut iter = BlockIterator::create_and_seek_to_key(block, KeySlice::from_slice(b"b", 9));
    assert_eq!(iter.key().key_ref(), b"c");
    iter.seek_to_key(KeySlice::from_slice(b"c", 4));
    assert_eq!(iter.key().key_ref(), b"e");
    iter.seek_to_key(KeySlice::from_slice(b"f", 0));
    assert!(!iter.is_valid());
    iter.seek_to_first();
    assert_eq!(iter.value(), b"1");
}

#[test]
fn broken_blocks_are_not_decoded() {
    assert!(Block::try_decode(&[1]).is_none());
    assert!(Block::try_decode(&[9, 9, 5, 0]).is_none());
    assert!(Block::try_decode(&[]).is_some());
    let good = {
        let mut b = BlockBuilder::new(100);
        b.add(KeySlice::from_slice(b"a", 1), b"v");
        b.build().encode()
    };
    assert!(Block::try_decode(&good).is_some());
    assert!(Block::try_decode(&good[1..]).is_none());
}
