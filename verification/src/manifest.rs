//! The manifest: a log of what happened to mem-tables and tables.
//!
//! Record layout: `| len (u32) | JSON record | checksum (u32) |`, where `len` counts all three
//! parts.
use vstd::prelude::*;

use crate::codec::{get_u32_le, put_le, put_slice};
use crate::compact::CompactionTask;
use crate::error::LsmError;
use crate::outside::checksum;
use crate::table::CHECKSUM_SIZE;
use crate::{codec, outside};

verus! {

broadcast use crate::codec::lemma_le_len;

pub const RECORD_LEN_SIZE: usize = 4;

/// What a manifest records.
#[derive(Debug)]
pub enum ManifestRecord {
    Flush(usize),
    NewMemtable(usize),
    Compaction(CompactionTask, Vec<usize>),
}

/// The framing of manifest records.
pub struct Manifest;

/// A record with its length and its checksum.
pub open spec fn framed(json: Seq<u8>) -> Seq<u8> {
    codec::le(json.len() + 8, 4) + json + codec::le(outside::crc32(json) as nat, 4)
}

pub open spec fn framed_chunks(records: Seq<Seq<u8>>) -> Seq<Seq<u8>> {
    Seq::new(records.len(), |i: int| framed(records[i]))
}

/// The record at `start`, without its length and its checksum.
pub open spec fn record_at(data: Seq<u8>, start: int) -> Result<Seq<u8>, LsmError> {
    let n = codec::from_le(data.subrange(start, start + 4)) as int;
    if start < 0 || start + 4 > data.len() {
        Err(LsmError::UnexpectedEnd)
    } else if n < 8 {
        Err(LsmError::Malformed)
    } else if start + n > data.len() {
        Err(LsmError::UnexpectedEnd)
    } else {
        let json = data.subrange(start + 4, start + n - 4);
        let sum = codec::from_le(data.subrange(start + n - 4, start + n));
        if sum != outside::crc32(json) {
            Err(
                LsmError::ManifestChecksumMismatch {
                    expected: sum as u32,
                    actual: outside::crc32(json),
                },
            )
        } else {
            Ok(json)
        }
    }
}

/// The records from `start` on, one after another, without their lengths and checksums.
pub open spec fn pure_from(data: Seq<u8>, start: int) -> Result<Seq<u8>, LsmError>
    decreases data.len() - start,
{
    if start >= data.len() {
        Ok(Seq::empty())
    } else {
        match record_at(data, start) {
            Err(e) => Err(e),
            Ok(json) => match pure_from(data, start + json.len() + 8) {
                Err(e) => Err(e),
                Ok(rest) => Ok(json + rest),
            },
        }
    }
}

/// A record is found where it was written.
proof fn lemma_record_at(data: Seq<u8>, start: int, json: Seq<u8>)
    requires
        json.len() + 8 <= u32::MAX,
        0 <= start,
        start + json.len() + 8 <= data.len(),
        data.subrange(start, start + json.len() + 8) == framed(json),
    ensures
        record_at(data, start) == Ok::<Seq<u8>, LsmError>(json),
{
    let n = json.len() as int;
    let b = framed(json);
    let sum = outside::crc32(json);
    let whole = data.subrange(start, start + n + 8);
    codec::lemma_pow256();
    codec::lemma_from_le_of_le(json.len() + 8, 4);
    codec::lemma_from_le_of_le(sum as nat, 4);
    assert(b.subrange(0, 4) =~= codec::le(json.len() + 8, 4));
    assert(b.subrange(4, 4 + n) =~= json);
    assert(b.subrange(4 + n, 8 + n) =~= codec::le(sum as nat, 4));
    assert(data.subrange(start, start + 4) =~= whole.subrange(0, 4));
    assert(data.subrange(start + 4, start + 4 + n) =~= whole.subrange(4, 4 + n));
    assert(data.subrange(start + 4 + n, start + 8 + n) =~= whole.subrange(4 + n, 8 + n));
}

/// A manifest that can be read is undamaged: from `start` on it consists of records with their
/// lengths and their right checksums, and nothing else, and what is read is these records.
pub proof fn lemma_read_is_whole(data: Seq<u8>, start: int) -> (records: Seq<Seq<u8>>)
    requires
        0 <= start <= data.len(),
        pure_from(data, start) is Ok,
    ensures
        data.skip(start) == codec::concat(
            Seq::new(
                records.len(),
                |i: int|
                    codec::le(records[i].len() + 8, 4) + records[i] + codec::le(
                        outside::crc32(records[i]) as nat,
                        4,
                    ),
            ),
        ),
        pure_from(data, start)->Ok_0 == codec::concat(records),
    decreases data.len() - start,
{
    let frame = |r: Seq<u8>|
        codec::le(r.len() + 8, 4) + r + codec::le(outside::crc32(r) as nat, 4);
    if start >= data.len() {
        let records = Seq::<Seq<u8>>::empty();
        assert(Seq::new(
            records.len(),
            |i: int|
                codec::le(records[i].len() + 8, 4) + records[i] + codec::le(
                    outside::crc32(records[i]) as nat,
                    4,
                ),
        ) =~= Seq::empty());
        assert(data.skip(start) =~= Seq::empty());
        assert(codec::concat(records) =~= Seq::empty());
        records
    } else {
        let json = record_at(data, start)->Ok_0;
        let n = json.len() + 8;
        let a = data.subrange(start, start + 4);
        let b = data.subrange(start + n - 4, start + n);
        codec::lemma_le_of_from_le(a);
        codec::lemma_le_of_from_le(b);
        let rest = lemma_read_is_whole(data, start + n);
        let records = seq![json] + rest;
        let tail = Seq::new(
            rest.len(),
            |i: int|
                codec::le(rest[i].len() + 8, 4) + rest[i] + codec::le(
                    outside::crc32(rest[i]) as nat,
                    4,
                ),
        );
        assert(Seq::new(
            records.len(),
            |i: int|
                codec::le(records[i].len() + 8, 4) + records[i] + codec::le(
                    outside::crc32(records[i]) as nat,
                    4,
                ),
        ) =~= seq![frame(json)] + tail);
        codec::lemma_concat_front(frame(json), tail);
        codec::lemma_concat_front(json, rest);
        assert(data.skip(start) =~= frame(json) + data.skip(start + n));
        records
    }
}

/// Taking the frames off framed records gives the records back, one after another.
pub proof fn lemma_pure_records(records: Seq<Seq<u8>>, i: int)
    requires
        0 <= i <= records.len(),
        forall|j: int| 0 <= j < records.len() ==> (#[trigger] records[j]).len() + 8 <= u32::MAX,
    ensures
        pure_from(
            codec::concat(framed_chunks(records)),
            codec::chunk_start(framed_chunks(records), i),
        ) == Ok::<Seq<u8>, LsmError>(codec::concat(records).skip(codec::chunk_start(records, i))),
        0 <= codec::chunk_start(records, i) <= codec::concat(records).len(),
    decreases records.len() - i,
{
    let chunks = framed_chunks(records);
    let data = codec::concat(chunks);
    let all = codec::concat(records);
    codec::lemma_chunk_start_ends(chunks);
    codec::lemma_chunk_start_ends(records);
    if i == records.len() {
        assert(all.skip(codec::chunk_start(records, i)) =~= Seq::empty());
    } else {
        lemma_pure_records(records, i + 1);
        codec::lemma_chunk_at(chunks, i);
        codec::lemma_chunk_at(records, i);
        let json = records[i];
        assert(json.len() + 8 <= u32::MAX);
        lemma_record_at(data, codec::chunk_start(chunks, i), json);
        let p = codec::chunk_start(records, i);
        let q = codec::chunk_start(records, i + 1);
        assert(json + all.skip(q) =~= all.skip(p)) by {
            assert(all.subrange(p, q) == json);
            assert(all.skip(p) =~= all.subrange(p, q) + all.skip(q));
        }
    }
}

impl Manifest {
    /// The records of a manifest, one after another, without their lengths and checksums.
    pub fn to_pure_records(data: &[u8]) -> (r: Result<Vec<u8>, LsmError>)
        ensures
            pure_from(data@, 0) == match r {
                Ok(records) => Ok(records@),
                Err(e) => Err(e),
            },
    {
        let len: usize = data.len();
        let mut pure_records: Vec<u8> = Vec::new();
        let mut i: usize = 0;
        proof {
            let p = pure_from(data@, 0);
            assert(continued(pure_records@, p) == p) by {
                if p is Ok {
                    assert(pure_records@ + p->Ok_0 =~= p->Ok_0);
                }
            }
        }
        while i < len
            invariant
                i <= len == data@.len(),
                pure_from(data@, 0) == continued(pure_records@, pure_from(data@, i as int)),
            decreases len - i,
        {
            if len - i < RECORD_LEN_SIZE {
                return Err(LsmError::UnexpectedEnd);
            }
            let record_len: usize = get_u32_le(data, i) as usize;
            if record_len < RECORD_LEN_SIZE + CHECKSUM_SIZE {
                return Err(LsmError::Malformed);
            }
            if record_len > len - i {
                return Err(LsmError::UnexpectedEnd);
            }
            let pure_record_start: usize = i + RECORD_LEN_SIZE;
            let pure_record_end: usize = i + record_len - CHECKSUM_SIZE;
            let pure_record: &[u8] = vstd::slice::slice_subrange(
                data,
                pure_record_start,
                pure_record_end,
            );
            let expected: u32 = get_u32_le(data, pure_record_end);
            let actual: u32 = checksum(pure_record);
            if actual != expected {
                return Err(LsmError::ManifestChecksumMismatch { expected, actual });
            }
            let ghost done = pure_records@;
            put_slice(&mut pure_records, pure_record);
            proof {
                let rest = pure_from(data@, i + record_len);
                if rest is Ok {
                    assert(done + (pure_record@ + rest->Ok_0) =~= pure_records@ + rest->Ok_0);
                }
            }
            i = i + record_len;
        }
        assert(pure_records@ + Seq::empty() =~= pure_records@);
        Ok(pure_records)
    }

    /// The bytes to append to a manifest for a record.
    pub fn frame_record(json: &[u8]) -> (r: Vec<u8>)
        requires
            json@.len() + 8 <= usize::MAX,
        ensures
            r@ == framed(json@),
    {
        let sum: u32 = checksum(json);
        let record_len: usize = RECORD_LEN_SIZE + json.len() + CHECKSUM_SIZE;
        let mut out: Vec<u8> = Vec::new();
        put_le(&mut out, record_len as u64, RECORD_LEN_SIZE);
        put_slice(&mut out, json);
        put_le(&mut out, sum as u64, CHECKSUM_SIZE);
        assert(out@ =~= framed(json@));
        out
    }
}

spec fn continued(done: Seq<u8>, rest: Result<Seq<u8>, LsmError>) -> Result<Seq<u8>, LsmError> {
    match rest {
        Err(e) => Err(e),
        Ok(rest) => Ok(done + rest),
    }
}

} // verus!
