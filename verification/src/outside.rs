//! Functions of other crates and of the standard library, with what is relied on of each.
use std::sync::Arc;

use vstd::prelude::*;

use crate::codec;
use crate::codec::get_u32_le;

verus! {

/// The CRC-32 of a byte string, as `crc32fast::hash` computes it.
pub uninterp spec fn crc32(bytes: Seq<u8>) -> u32;

/// Calls `crc32fast::hash`. The result depends on the bytes alone; nothing else is claimed of it.
#[verifier::external_body]
pub(crate) fn checksum(bytes: &[u8]) -> (r: u32)
    ensures
        r == crc32(bytes@),
{
    crc32fast::hash(bytes)
}

/// The 32-bit fingerprint of a byte string, as `farmhash::fingerprint32` computes it.
pub uninterp spec fn fingerprint(bytes: Seq<u8>) -> u32;

/// The number that four bytes from `at` on stand for.
pub open spec fn word(bytes: Seq<u8>, at: int) -> int {
    codec::from_le(bytes.subrange(at, at + 4)) as int
}

/// The sums that `farmhash::fingerprint32` makes without wrapping around fit in 32 bits. For 5 to
/// 12 bytes these are the length and the first word, five times the length and the last word, and
/// 9 and a word between them; for 13 to 24 bytes, the length and a multiple of the middle word.
pub open spec fn hashable(bytes: Seq<u8>) -> bool {
    let n = bytes.len() as int;
    if 5 <= n <= 12 {
        &&& n + word(bytes, 0) <= u32::MAX
        &&& 5 * n + word(bytes, n - 4) <= u32::MAX
        &&& 9 + word(bytes, if n >= 8 { 4 } else { 0 }) <= u32::MAX
    } else if 13 <= n <= 24 {
        ((word(bytes, n / 2) as u32).wrapping_mul(0xcc9e2d51u32)) as int + n <= u32::MAX
    } else {
        true
    }
}

/// Whether a fingerprint can be had of the bytes.
fn is_hashable(bytes: &[u8]) -> (r: bool)
    ensures
        r == hashable(bytes@),
{
    let n: usize = bytes.len();
    if 5 <= n && n <= 12 {
        let middle: usize = if n >= 8 {
            4
        } else {
            0
        };
        let first: u32 = get_u32_le(bytes, 0);
        let last: u32 = get_u32_le(bytes, n - 4);
        let between: u32 = get_u32_le(bytes, middle);
        first <= u32::MAX - n as u32 && last <= u32::MAX - 5 * n as u32 && between <= u32::MAX - 9
    } else if 13 <= n && n <= 24 {
        let half: u32 = get_u32_le(bytes, n / 2);
        half.wrapping_mul(0xcc9e2d51u32) <= u32::MAX - n as u32
    } else {
        true
    }
}

/// The fingerprint of the bytes, where one can be had.
pub fn try_fingerprint(bytes: &[u8]) -> (r: Option<u32>)
    ensures
        r == if hashable(bytes@) {
            Some(fingerprint(bytes@))
        } else {
            None
        },
{
    if is_hashable(bytes) {
        Some(fingerprint32(bytes))
    } else {
        None
    }
}

/// Calls `farmhash::fingerprint32`, which is documented to give the same value in every version
/// and on every platform. It adds some numbers without wrapping around, so bytes for which a sum
/// does not fit are left out. The result depends on the bytes alone; nothing else is claimed of it.
#[verifier::external_body]
fn fingerprint32(bytes: &[u8]) -> (r: u32)
    requires
        hashable(bytes@),
    ensures
        r == fingerprint(bytes@),
{
    farmhash::fingerprint32(bytes)
}

/// Calls `Arc::clone`, which makes another pointer to the same value.
#[verifier::external_body]
pub(crate) fn share<T>(a: &Arc<T>) -> (r: Arc<T>)
    ensures
        r == *a,
{
    Arc::clone(a)
}

} // verus!
