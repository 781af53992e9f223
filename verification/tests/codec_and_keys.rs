use mini_lsm::bound::Bound;
use mini_lsm::codec;
use mini_lsm::key::{bytes_less, compare_bytes, KeySlice, KeyVec, Order};

#[test]
fn numbers_are_stored_in_both_byte_orders() {
    let mut buf = vec![7];
    codec::put_le(&mut buf, 0x0102_0304, 4);
    assert_eq!(buf, vec![7, 4, 3, 2, 1]);
    assert_eq!(codec::get_u32_le(&buf, 1), 0x0102_0304);
    assert_eq!(codec::get_u16_le(&buf, 1), 0x0304);

    let mut be = Vec::new();
    codec::put_u64_be(&mut be, 0x0102_0304_0506_0708);
    assert_eq!(be, vec![1, 2, 3, 4, 5, 6, 7, 8]);
    assert_eq!(codec::get_u64_be(&be, 0), 0x0102_0304_0506_0708);
    assert_eq!(codec::get_u64_le(&be, 0), 0x0807_0605_0403_0201);
}

#[test]
fn numbers_that_do_not_fit_lose_their_high_bytes() {
    let mut buf = Vec::new();
    codec::put_le(&mut buf, 0x1_0002, 2);
    assert_eq!(buf, vec![2, 0]);
}

#[test]
fn slices_are_copied_and_compared() {
    let mut buf = codec::copy_slice(b"ab");
    codec::put_slice(&mut buf, b"cd");
    assert_eq!(buf, b"abcd".to_vec());
    assert!(codec::same_bytes(&buf, b"abcd"));
    assert!(!codec::same_bytes(&buf, b"abc"));
    assert!(!codec::same_bytes(&buf, b"abce"));
}

#[test]
fn bytes_are_ordered_lexicographically() {
    assert_eq!(compare_bytes(b"a", b"b"), Order::Less);
    assert_eq!(compare_bytes(b"ab", b"a"), Order::Greater);
    assert_eq!(compare_bytes(b"", b""), Order::Equal);
    assert!(bytes_less(b"", b"a"));
    assert!(!bytes_less(b"a", b"a"));
}

#[test]
fn newer_versions_come_first() {
    let new = KeySlice::from_slice(b"k", 9);
    let old = KeySlice::from_slice(b"k", 3);
    assert!(new.less_than(old));
    assert!(!old.less_than(new));
    assert!(!new.equals(old));
    assert!(KeySlice::from_slice(b"j", 1).less_than(new));
}

#[test]
fn keys_survive_their_raw_form() {
    let key = KeyVec::from_bytes_with_ts(b"key".to_vec(), 258);
    let mut raw = Vec::new();
    key.append_raw(&mut raw);
    assert_eq!(raw.len(), key.raw_len());
    let back = KeyVec::from_vec(&raw);
    assert_eq!(back.key_ref(), b"key");
    assert_eq!(back.ts(), 258);
    assert!(KeyVec::from_vec(&[]).is_empty());
}

#[test]
fn bounds_admit_what_lies_inside() {
    let included = Bound::Included(&b"m"[..]);
    let excluded = Bound::Excluded(&b"m"[..]);
    assert!(included.admits_from_below(b"m"));
    assert!(!excluded.admits_from_below(b"m"));
    assert!(excluded.admits_from_below(b"n"));
    assert!(!included.admits_from_below(b"l"));
    assert!(included.admits_from_above(b"m"));
    assert!(!excluded.admits_from_above(b"m"));
    assert!(!included.admits_from_above(b"n"));
    let unbounded: Bound<&[u8]> = Bound::Unbounded;
    assert!(unbounded.admits_from_below(b""));
    assert!(unbounded.admits_from_above(b"z"));
}
