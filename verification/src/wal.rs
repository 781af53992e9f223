//! The write-ahead log.
//!
//! A log is a sequence of batches. A batch becomes visible as a whole or not at all.
use crossbeam_skiplist::SkipMap;
use vstd::prelude::*;

use crate::block::{KEY_LEN_SIZE, VALUE_LEN_SIZE};
use crate::codec::{copy_slice, get_u16_le, get_u32_le, get_u64_le, put_le, put_slice};
use crate::error::LsmError;
use crate::key::{KeyBytes, KeySlice, KeyVec, VEntry, VKey, TS_SIZE};
use crate::outside::checksum;
use crate::skiplist::put_version;
use crate::table::CHECKSUM_SIZE;
use crate::{codec, outside, skiplist, table};

verus! {

broadcast use crate::codec::lemma_le_len;

pub const BODY_LEN_SIZE: usize = 4;

/// A write-ahead log: what is known of it beside its bytes.
pub struct Wal {
    /// The largest timestamp in the log.
    pub max_ts: u64,
}

/// The entries of a batch.
pub open spec fn batch_views(data: Seq<(KeySlice, &[u8])>) -> Seq<VEntry> {
    Seq::new(data.len(), |i: int| VEntry { key: data[i].0@, value: data[i].1@ })
}

/// An entry of a batch as logged:
/// `| key_len (u16, without the timestamp) | key | ts (u64) | value_len (u16) | value |`.
pub open spec fn record_bytes(e: VEntry) -> Seq<u8> {
    codec::le(e.key.key.len(), 2) + e.key.key + codec::le(e.key.ts as nat, 8) + codec::le(
        e.value.len(),
        2,
    ) + e.value
}

pub open spec fn record_chunks(es: Seq<VEntry>) -> Seq<Seq<u8>> {
    Seq::new(es.len(), |i: int| record_bytes(es[i]))
}

/// The body of a batch: its entries one after another.
pub open spec fn batch_body(es: Seq<VEntry>) -> Seq<u8> {
    codec::concat(record_chunks(es))
}

/// A batch as logged: `| body_len (u32) | body | checksum of the body (u32) |`.
pub open spec fn batch_bytes(es: Seq<VEntry>) -> Seq<u8> {
    let body = batch_body(es);
    codec::le(body.len(), 4) + body + codec::le(outside::crc32(body) as nat, 4)
}

/// The parts of the entry at `start`: the end of the key, the start and the end of the value.
pub open spec fn record_range(buf: Seq<u8>, start: int) -> (int, int, int) {
    let ke = start + 2 + codec::from_le(buf.subrange(start, start + 2)) as int;
    let vs = ke + 8 + 2;
    let ve = vs + codec::from_le(buf.subrange(ke + 8, ke + 10)) as int;
    (ke, vs, ve)
}

/// The entry at `start` lies within the bytes.
pub open spec fn record_ok(buf: Seq<u8>, start: int) -> bool {
    let (ke, vs, ve) = record_range(buf, start);
    0 <= start && start + 2 <= buf.len() && vs <= buf.len() && ve <= buf.len()
}

/// The entry at `start`.
pub open spec fn record_at(buf: Seq<u8>, start: int) -> VEntry {
    let (ke, vs, ve) = record_range(buf, start);
    VEntry {
        key: VKey {
            key: buf.subrange(start + 2, ke),
            ts: codec::from_le(buf.subrange(ke, ke + 8)) as u64,
        },
        value: buf.subrange(vs, ve),
    }
}

/// The entries of a body from `start` on. `None` where the bytes are no sequence of entries.
pub open spec fn parse_records(buf: Seq<u8>, start: int) -> Option<Seq<VEntry>>
    decreases buf.len() - start,
{
    if start >= buf.len() {
        Some(Seq::empty())
    } else if !record_ok(buf, start) {
        None
    } else {
        match parse_records(buf, record_range(buf, start).2) {
            None => None,
            Some(rest) => Some(seq![record_at(buf, start)] + rest),
        }
    }
}

/// The body of the batch at `start` of a log.
pub open spec fn raw_batch_at(log: Seq<u8>, start: int) -> Result<Seq<u8>, LsmError> {
    let n = codec::from_le(log.subrange(start, start + 4)) as int;
    if start < 0 || start + 4 > log.len() || start + 8 + n > log.len() {
        Err(LsmError::UnexpectedEnd)
    } else {
        let body = log.subrange(start + 4, start + 4 + n);
        let sum = codec::from_le(log.subrange(start + 4 + n, start + 8 + n));
        if sum != outside::crc32(body) {
            Err(
                LsmError::WalChecksumMismatch {
                    expected: sum as u32,
                    actual: outside::crc32(body),
                },
            )
        } else {
            Ok(body)
        }
    }
}

/// The entries of all batches of a log from `start` on.
pub open spec fn replay(log: Seq<u8>, start: int) -> Result<Seq<VEntry>, LsmError>
    decreases log.len() - start,
{
    if start >= log.len() {
        Ok(Seq::empty())
    } else {
        match raw_batch_at(log, start) {
            Err(e) => Err(e),
            Ok(body) => match parse_records(body, 0) {
                None => Err(LsmError::Malformed),
                Some(es) => match replay(log, start + 8 + body.len()) {
                    Err(e) => Err(e),
                    Ok(rest) => Ok(es + rest),
                },
            },
        }
    }
}

/// The versions after entries have been put one after another.
pub open spec fn put_all(m: Map<VKey, Seq<u8>>, es: Seq<VEntry>) -> Map<VKey, Seq<u8>>
    decreases es.len(),
{
    if es.len() == 0 {
        m
    } else {
        put_all(m, es.drop_last()).insert(es.last().key, es.last().value)
    }
}

pub proof fn lemma_put_all_push(m: Map<VKey, Seq<u8>>, es: Seq<VEntry>, e: VEntry)
    ensures
        put_all(m, es.push(e)) == put_all(m, es).insert(e.key, e.value),
{
    assert(es.push(e).drop_last() =~= es);
}

/// An entry that the log can hold.
pub open spec fn record_fits(e: VEntry) -> bool {
    e.key.key.len() <= u16::MAX && e.value.len() <= u16::MAX
}

/// An entry is found where it was written.
proof fn lemma_record_at(buf: Seq<u8>, start: int, e: VEntry)
    requires
        record_fits(e),
        0 <= start,
        start + record_bytes(e).len() <= buf.len(),
        buf.subrange(start, start + record_bytes(e).len()) == record_bytes(e),
    ensures
        record_ok(buf, start),
        record_range(buf, start).2 == start + record_bytes(e).len(),
        record_at(buf, start) == e,
        record_bytes(e).len() == 12 + e.key.key.len() + e.value.len(),
{
    let b = record_bytes(e);
    let n = e.key.key.len() as int;
    let whole = buf.subrange(start, start + b.len());
    codec::lemma_pow256();
    codec::lemma_from_le_of_le(e.key.key.len(), 2);
    codec::lemma_from_le_of_le(e.value.len(), 2);
    codec::lemma_from_le_of_le(e.key.ts as nat, 8);
    assert(b.subrange(0, 2) =~= codec::le(e.key.key.len(), 2));
    assert(b.subrange(2, 2 + n) =~= e.key.key);
    assert(b.subrange(2 + n, 10 + n) =~= codec::le(e.key.ts as nat, 8));
    assert(b.subrange(10 + n, 12 + n) =~= codec::le(e.value.len(), 2));
    assert(b.subrange(12 + n, b.len() as int) =~= e.value);
    assert(buf.subrange(start, start + 2) =~= whole.subrange(0, 2));
    assert(buf.subrange(start + 2, start + 2 + n) =~= whole.subrange(2, 2 + n));
    assert(buf.subrange(start + 2 + n, start + 10 + n) =~= whole.subrange(2 + n, 10 + n));
    assert(buf.subrange(start + 10 + n, start + 12 + n) =~= whole.subrange(10 + n, 12 + n));
    assert(buf.subrange(start + 12 + n, start + b.len()) =~= whole.subrange(12 + n, b.len() as int));
    assert(record_at(buf, start) =~= e);
}

/// Reading a body gives back the entries it was written from.
proof fn lemma_parse_body(es: Seq<VEntry>, i: int)
    requires
        0 <= i <= es.len(),
        forall|j: int| 0 <= j < es.len() ==> record_fits(#[trigger] es[j]),
    ensures
        parse_records(batch_body(es), codec::chunk_start(record_chunks(es), i)) == Some(es.skip(i)),
    decreases es.len() - i,
{
    let chunks = record_chunks(es);
    codec::lemma_chunk_start_ends(chunks);
    if i == es.len() {
        assert(es.skip(i) =~= Seq::empty());
    } else {
        lemma_parse_body(es, i + 1);
        codec::lemma_chunk_at(chunks, i);
        assert(record_fits(es[i]));
        lemma_record_at(batch_body(es), codec::chunk_start(chunks, i), es[i]);
        assert(seq![es[i]] + es.skip(i + 1) =~= es.skip(i));
    }
}

/// The batches of a log as logged.
pub open spec fn log_chunks(batches: Seq<Seq<VEntry>>) -> Seq<Seq<u8>> {
    Seq::new(batches.len(), |i: int| batch_bytes(batches[i]))
}

/// A batch that the log can hold.
pub open spec fn batch_fits(es: Seq<VEntry>) -> bool {
    batch_body(es).len() <= u32::MAX && forall|j: int|
        0 <= j < es.len() ==> record_fits(#[trigger] es[j])
}

/// A batch is found where it was written.
proof fn lemma_batch_at(log: Seq<u8>, start: int, body: Seq<u8>)
    requires
        body.len() <= u32::MAX,
        0 <= start,
        start + 8 + body.len() <= log.len(),
        log.subrange(start, start + 8 + body.len()) == codec::le(body.len(), 4) + body + codec::le(
            outside::crc32(body) as nat,
            4,
        ),
    ensures
        raw_batch_at(log, start) == Ok::<Seq<u8>, LsmError>(body),
{
    let n = body.len() as int;
    let sum = outside::crc32(body);
    let b = codec::le(body.len(), 4) + body + codec::le(sum as nat, 4);
    let whole = log.subrange(start, start + 8 + n);
    codec::lemma_pow256();
    codec::lemma_from_le_of_le(body.len(), 4);
    codec::lemma_from_le_of_le(sum as nat, 4);
    assert(b.subrange(0, 4) =~= codec::le(body.len(), 4));
    assert(b.subrange(4, 4 + n) =~= body);
    assert(b.subrange(4 + n, 8 + n) =~= codec::le(sum as nat, 4));
    assert(log.subrange(start, start + 4) =~= whole.subrange(0, 4));
    assert(log.subrange(start + 4, start + 4 + n) =~= whole.subrange(4, 4 + n));
    assert(log.subrange(start + 4 + n, start + 8 + n) =~= whole.subrange(4 + n, 8 + n));
}

/// A body as it stands in a log, with its length before it and its checksum behind it.
pub open spec fn in_log(body: Seq<u8>) -> Seq<u8> {
    codec::le(body.len(), 4) + body + codec::le(outside::crc32(body) as nat, 4)
}

/// What can be replayed is undamaged: the log from `start` on consists of bodies with their lengths
/// and their right checksums, and nothing else. A log with a wrong checksum, or with bytes missing at
/// its end, is refused.
pub proof fn lemma_replayed_is_whole(log: Seq<u8>, start: int) -> (bodies: Seq<Seq<u8>>)
    requires
        0 <= start <= log.len(),
        replay(log, start) is Ok,
    ensures
        log.skip(start) == codec::concat(Seq::new(bodies.len(), |i: int| in_log(bodies[i]))),
        forall|i: int|
            0 <= i < bodies.len() ==> parse_records(#[trigger] bodies[i], 0) is Some,
    decreases log.len() - start,
{
    if start >= log.len() {
        let bodies = Seq::<Seq<u8>>::empty();
        assert(Seq::new(bodies.len(), |i: int| in_log(bodies[i])) =~= Seq::empty());
        assert(log.skip(start) =~= Seq::empty());
        bodies
    } else {
        let body = raw_batch_at(log, start)->Ok_0;
        let n = body.len() as int;
        let a = log.subrange(start, start + 4);
        let b = log.subrange(start + 4 + n, start + 8 + n);
        codec::lemma_le_of_from_le(a);
        codec::lemma_le_of_from_le(b);
        let rest = lemma_replayed_is_whole(log, start + 8 + n);
        let bodies = seq![body] + rest;
        let tail = Seq::new(rest.len(), |i: int| in_log(rest[i]));
        assert(Seq::new(bodies.len(), |i: int| in_log(bodies[i])) =~= seq![in_log(body)] + tail);
        codec::lemma_concat_front(in_log(body), tail);
        assert(log.skip(start) =~= in_log(body) + log.skip(start + 8 + n));
        assert forall|i: int| 0 <= i < bodies.len() implies parse_records(
            #[trigger] bodies[i],
            0,
        ) is Some by {
            if i > 0 {
                assert(bodies[i] == rest[i - 1]);
            }
        }
        bodies
    }
}

/// Replaying a log gives back all entries of its batches, in the order in which they were logged.
pub proof fn lemma_replay(batches: Seq<Seq<VEntry>>, i: int)
    requires
        0 <= i <= batches.len(),
        forall|j: int| 0 <= j < batches.len() ==> batch_fits(#[trigger] batches[j]),
    ensures
        replay(codec::concat(log_chunks(batches)), codec::chunk_start(log_chunks(batches), i))
            == Ok::<Seq<VEntry>, LsmError>(table::builder::flat(batches.skip(i))),
    decreases batches.len() - i,
{
    let chunks = log_chunks(batches);
    let log = codec::concat(chunks);
    codec::lemma_chunk_start_ends(chunks);
    if i == batches.len() {
        assert(batches.skip(i) =~= Seq::empty());
    } else {
        lemma_replay(batches, i + 1);
        codec::lemma_chunk_at(chunks, i);
        let es = batches[i];
        assert(batch_fits(es));
        lemma_batch_at(log, codec::chunk_start(chunks, i), batch_body(es));
        lemma_parse_body(es, 0);
        codec::lemma_chunk_start_ends(record_chunks(es));
        assert(es.skip(0) =~= es);
        assert(batches.skip(i).drop_first() =~= batches.skip(i + 1));
    }
}

impl Wal {
    /// A log without entries.
    pub fn create() -> (r: Self)
        ensures
            r.max_ts == 0,
    {
        Wal { max_ts: 0 }
    }

    pub fn get_max_ts(&self) -> (r: u64)
        ensures
            r == self.max_ts,
    {
        self.max_ts
    }

    /// Reads the entry at `start`.
    pub fn read_next_record(buf: &[u8], start: usize) -> (r: (KeyBytes, Vec<u8>))
        requires
            record_ok(buf@, start as int),
        ensures
            (VEntry { key: r.0@, value: r.1@ }) == record_at(buf@, start as int),
    {
        let len: usize = buf.len();
        let key_len: usize = get_u16_le(buf, start);

        let key_start: usize = start + KEY_LEN_SIZE;
        let key_end: usize = key_start + key_len;
        let key: Vec<u8> = copy_slice(vstd::slice::slice_subrange(buf, key_start, key_end));

        let ts: u64 = get_u64_le(buf, key_end);

        let value_len_start: usize = key_end + TS_SIZE;
        let value_len: usize = get_u16_le(buf, value_len_start);

        let value_start: usize = value_len_start + VALUE_LEN_SIZE;
        let value_end: usize = value_start + value_len;
        let value: Vec<u8> = copy_slice(vstd::slice::slice_subrange(buf, value_start, value_end));

        let r = (KeyVec::from_bytes_with_ts(key, ts), value);
        assert((VEntry { key: r.0@, value: r.1@ }) =~= record_at(buf@, start as int));
        r
    }

    /// Whether `read_next_record` can read the entry at `start`.
    fn check_record(buf: &[u8], start: usize) -> (r: bool)
        requires
            start <= buf@.len(),
        ensures
            r == record_ok(buf@, start as int),
    {
        let len: usize = buf.len();
        if len - start < KEY_LEN_SIZE {
            return false;
        }
        let key_len: usize = get_u16_le(buf, start);
        let room: usize = len - start - KEY_LEN_SIZE;
        if room < key_len || room - key_len < TS_SIZE + VALUE_LEN_SIZE {
            return false;
        }
        let value_len: usize = get_u16_le(buf, start + KEY_LEN_SIZE + key_len + TS_SIZE);
        value_len <= room - key_len - TS_SIZE - VALUE_LEN_SIZE
    }

    /// Reads the entries of a body. `None` where the bytes are no sequence of entries.
    pub fn try_parse_batch(buf: &[u8]) -> (r: Option<Vec<(KeyBytes, Vec<u8>)>>)
        ensures
            parse_records(buf@, 0) == match r {
                Some(records) => Some(skiplist::entry_views(records@)),
                None => None,
            },
    {
        let len: usize = buf.len();
        let mut records: Vec<(KeyBytes, Vec<u8>)> = Vec::new();
        let mut start: usize = 0;
        assert(skiplist::entry_views(records@) =~= Seq::empty());
        proof {
            let p = parse_records(buf@, 0);
            assert(joined(Seq::empty(), p) == p) by {
                if p is Some {
                    assert(Seq::<VEntry>::empty() + p->0 =~= p->0);
                }
            }
        }
        while start < len
            invariant
                start <= len == buf@.len(),
                parse_records(buf@, 0) == joined(
                    skiplist::entry_views(records@),
                    parse_records(buf@, start as int),
                ),
            decreases len - start,
        {
            if !Self::check_record(buf, start) {
                return None;
            }
            let ghost done = skiplist::entry_views(records@);
            let ghost e = record_at(buf@, start as int);
            let ghost next = record_range(buf@, start as int).2;
            let (key, value) = Self::read_next_record(buf, start);
            start = start + (KEY_LEN_SIZE + key.key_len() + TS_SIZE + VALUE_LEN_SIZE + value.len());
            records.push((key, value));
            proof {
                assert(start == next);
                assert(skiplist::entry_views(records@) =~= done.push(e));
                let rest = parse_records(buf@, next);
                if rest is Some {
                    assert(done + (seq![e] + rest->0) =~= done.push(e) + rest->0);
                }
            }
        }
        assert(skiplist::entry_views(records@) + Seq::empty() =~= skiplist::entry_views(records@));
        Some(records)
    }

    /// Reads the entries of a body.
    pub fn parse_batch(buf: &[u8]) -> (r: Vec<(KeyBytes, Vec<u8>)>)
        requires
            parse_records(buf@, 0) is Some,
        ensures
            parse_records(buf@, 0) == Some(skiplist::entry_views(r@)),
    {
        Self::try_parse_batch(buf).unwrap()
    }

    /// Reads the body of the batch at `start` of a log.
    pub fn read_next_raw_batch(log: &[u8], start: usize) -> (r: Result<Option<Vec<u8>>, LsmError>)
        requires
            start <= log@.len(),
        ensures
            raw_batch_at(log@, start as int) == match r {
                Ok(Some(body)) => Ok(body@),
                Ok(None) => Err(LsmError::UnexpectedEnd),
                Err(e) => Err(e),
            },
            r is Ok ==> r->Ok_0 is Some,
    {
        let len: usize = log.len();
        if len - start < BODY_LEN_SIZE {
            return Err(LsmError::UnexpectedEnd);
        }
        let body_len: usize = get_u32_le(log, start) as usize;
        let room: usize = len - start - BODY_LEN_SIZE;
        if room < body_len || room - body_len < CHECKSUM_SIZE {
            return Err(LsmError::UnexpectedEnd);
        }
        let body_start: usize = start + BODY_LEN_SIZE;
        let body: &[u8] = vstd::slice::slice_subrange(log, body_start, body_start + body_len);
        let actual: u32 = checksum(body);
        let expected: u32 = get_u32_le(log, body_start + body_len);
        if actual != expected {
            return Err(LsmError::WalChecksumMismatch { expected, actual });
        }
        Ok(Some(copy_slice(body)))
    }

    /// Puts all entries of a log into the map of versions. Where the log cannot be replayed, what
    /// has been put before the fault stays.
    pub fn recover(log: &[u8], versions: &mut SkipMap<(Vec<u8>, u64), Vec<u8>>) -> (r: Result<
        Self,
        LsmError,
    >)
        ensures
            match replay(log@, 0) {
                Ok(es) => r is Ok && r->Ok_0.max_ts == table::max_ts_of(es) && skiplist::versions(
                    *final(versions),
                ) == put_all(skiplist::versions(*old(versions)), es),
                Err(e) => r == Err::<Self, LsmError>(e),
            },
    {
        let len: usize = log.len();
        let mut start: usize = 0;
        let mut max_ts: u64 = 0;
        let ghost mut done: Seq<VEntry> = Seq::empty();
        proof {
            let p = replay(log@, 0);
            assert(continued(done, p) == p) by {
                if p is Ok {
                    assert(done + p->Ok_0 =~= p->Ok_0);
                }
            }
        }
        while start < len
            invariant
                start <= len == log@.len(),
                replay(log@, 0) == continued(done, replay(log@, start as int)),
                max_ts == table::max_ts_of(done),
                skiplist::versions(*versions) == put_all(skiplist::versions(*old(versions)), done),
            decreases len - start,
        {
            let raw_batch: Vec<u8> = match Self::read_next_raw_batch(log, start) {
                Ok(Some(body)) => body,
                Ok(None) => {
                    return Err(LsmError::UnexpectedEnd);
                },
                Err(e) => {
                    return Err(e);
                },
            };
            let records = match Self::try_parse_batch(raw_batch.as_slice()) {
                Some(records) => records,
                None => {
                    return Err(LsmError::Malformed);
                },
            };
            let ghost before = done;
            let ghost es = skiplist::entry_views(records@);
            let mut i: usize = 0;
            assert(before + es.take(0) =~= before);
            while i < records.len()
                invariant
                    i <= records@.len(),
                    es == skiplist::entry_views(records@),
                    max_ts == table::max_ts_of(before + es.take(i as int)),
                    skiplist::versions(*versions) == put_all(
                        skiplist::versions(*old(versions)),
                        before + es.take(i as int),
                    ),
                decreases records@.len() - i,
            {
                let key: KeySlice = records[i].0.as_key_slice();
                if key.ts() > max_ts {
                    max_ts = key.ts();
                }
                put_version(versions, key, records[i].1.as_slice());
                proof {
                    let now = before + es.take(i as int);
                    let e = es[i as int];
                    assert(before + es.take(i + 1) =~= now.push(e));
                    table::builder::lemma_max_ts_push(now, e);
                    lemma_put_all_push(skiplist::versions(*old(versions)), now, e);
                }
                i = i + 1;
            }
            proof {
                assert(es.take(i as int) =~= es);
                let rest = replay(log@, start + 8 + raw_batch@.len());
                if rest is Ok {
                    assert(before + (es + rest->Ok_0) =~= (before + es) + rest->Ok_0);
                }
                done = before + es;
            }
            start = start + BODY_LEN_SIZE + raw_batch.len() + CHECKSUM_SIZE;
        }
        assert(done + Seq::empty() =~= done);
        Ok(Wal { max_ts })
    }

    /// The largest timestamp in a log.
    pub fn read_max_ts(log: &[u8]) -> (r: Result<u64, LsmError>)
        ensures
            match replay(log@, 0) {
                Ok(es) => r == Ok::<u64, LsmError>(table::max_ts_of(es)),
                Err(e) => r == Err::<u64, LsmError>(e),
            },
    {
        let mut scratch = skiplist::new_versions();
        match Self::recover(log, &mut scratch) {
            Ok(wal) => Ok(wal.max_ts),
            Err(e) => Err(e),
        }
    }

    /// The bytes to append to the log for one entry.
    pub fn put(&mut self, key: KeySlice, value: &[u8]) -> (r: Vec<u8>)
        requires
            12 + key@.key.len() + value@.len() <= usize::MAX,
        ensures
            r@ == batch_bytes(seq![VEntry { key: key@, value: value@ }]),
            final(self).max_ts == if key@.ts > old(self).max_ts {
                key@.ts
            } else {
                old(self).max_ts
            },
    {
        let data: [(KeySlice, &[u8]); 1] = [(key, value)];
        let ghost e = VEntry { key: key@, value: value@ };
        proof {
            assert(batch_views(data@) =~= seq![e]);
            assert(record_chunks(seq![e]).drop_last() =~= Seq::empty());
            assert(seq![e].drop_last() =~= Seq::empty());
            assert(batch_body(seq![e]) =~= record_bytes(e)) by {
                assert(record_chunks(seq![e]).last() == record_bytes(e));
                assert(codec::concat(record_chunks(seq![e]).drop_last()) =~= Seq::empty());
            }
            assert(table::max_ts_of(Seq::<VEntry>::empty()) == 0);
        }
        self.put_batch(data.as_slice())
    }

    /// Appends the length of a batch's body.
    pub fn write_records_size(data: &[(KeySlice, &[u8])], writer: &mut Vec<u8>)
        requires
            batch_body(batch_views(data@)).len() <= usize::MAX,
        ensures
            final(writer)@ == old(writer)@ + codec::le(batch_body(batch_views(data@)).len(), 4),
    {
        let ghost es = batch_views(data@);
        let ghost chunks = record_chunks(es);
        let mut size: usize = 0;
        let mut i: usize = 0;
        proof {
            codec::lemma_chunk_start_ends(chunks);
        }
        while i < data.len()
            invariant
                i <= data@.len(),
                es == batch_views(data@),
                chunks == record_chunks(es),
                size == codec::chunk_start(chunks, i as int),
                codec::concat(chunks).len() <= usize::MAX,
            decreases data@.len() - i,
        {
            proof {
                codec::lemma_chunk_at(chunks, i as int);
                assert(chunks[i as int].len() == 12 + es[i as int].key.key.len()
                    + es[i as int].value.len());
            }
            let key: KeySlice = data[i].0;
            size = size + KEY_LEN_SIZE;
            size = size + key.key_len();
            size = size + TS_SIZE;
            size = size + VALUE_LEN_SIZE;
            size = size + data[i].1.len();
            i = i + 1;
        }
        proof {
            codec::lemma_chunk_start_ends(chunks);
        }
        put_le(writer, size as u64, BODY_LEN_SIZE);
    }

    /// Appends an entry of a batch.
    pub fn write_record(key: &KeySlice, value: &[u8], writer: &mut Vec<u8>)
        ensures
            final(writer)@ == old(writer)@ + record_bytes(VEntry { key: key@, value: value@ }),
    {
        put_le(writer, key.key_ref().len() as u64, KEY_LEN_SIZE);
        put_slice(writer, key.key_ref());
        put_le(writer, key.ts(), TS_SIZE);
        put_le(writer, value.len() as u64, VALUE_LEN_SIZE);
        put_slice(writer, value);
        assert(writer@ =~= old(writer)@ + record_bytes(VEntry { key: key@, value: value@ }));
    }

    /// The bytes to append to the log for a batch.
    pub fn put_batch(&mut self, data: &[(KeySlice, &[u8])]) -> (r: Vec<u8>)
        requires
            batch_body(batch_views(data@)).len() <= usize::MAX,
        ensures
            r@ == batch_bytes(batch_views(data@)),
            final(self).max_ts == if table::max_ts_of(batch_views(data@)) > old(self).max_ts {
                table::max_ts_of(batch_views(data@))
            } else {
                old(self).max_ts
            },
    {
        let ghost es = batch_views(data@);
        let ghost chunks = record_chunks(es);
        let mut out: Vec<u8> = Vec::new();
        Self::write_records_size(data, &mut out);

        let mut body: Vec<u8> = Vec::new();
        let mut max_ts: u64 = 0;
        let mut i: usize = 0;
        assert(body@ =~= codec::concat(chunks.take(0)));
        assert(es.take(0) =~= Seq::empty());
        while i < data.len()
            invariant
                i <= data@.len(),
                es == batch_views(data@),
                chunks == record_chunks(es),
                body@ == codec::concat(chunks.take(i as int)),
                max_ts == table::max_ts_of(es.take(i as int)),
            decreases data@.len() - i,
        {
            Self::write_record(&data[i].0, data[i].1, &mut body);
            if data[i].0.ts() > max_ts {
                max_ts = data[i].0.ts();
            }
            proof {
                let n = i as int;
                assert(chunks.take(n + 1) =~= chunks.take(n).push(chunks[n]));
                codec::lemma_concat_push(chunks.take(n), chunks[n]);
                assert(es.take(n + 1) =~= es.take(n).push(es[n]));
                table::builder::lemma_max_ts_push(es.take(n), es[n]);
            }
            i = i + 1;
        }
        assert(chunks.take(i as int) =~= chunks);
        assert(es.take(i as int) =~= es);
        if max_ts > self.max_ts {
            self.max_ts = max_ts;
        }
        let sum: u32 = checksum(body.as_slice());
        put_slice(&mut out, body.as_slice());
        put_le(&mut out, sum as u64, CHECKSUM_SIZE);
        assert(out@ =~= batch_bytes(es));
        out
    }
}

spec fn joined(done: Seq<VEntry>, rest: Option<Seq<VEntry>>) -> Option<Seq<VEntry>> {
    match rest {
        None => None,
        Some(rest) => Some(done + rest),
    }
}

spec fn continued(done: Seq<VEntry>, rest: Result<Seq<VEntry>, LsmError>) -> Result<
    Seq<VEntry>,
    LsmError,
> {
    match rest {
        Err(e) => Err(e),
        Ok(rest) => Ok(done + rest),
    }
}

} // verus!
