//! Bloom filters over key fingerprints.
use vstd::prelude::*;

use crate::codec::{copy_slice, get_u32_le, put_le, put_slice};
use crate::error::LsmError;
use crate::outside::{checksum, try_fingerprint};
use crate::{codec, outside};

verus! {

broadcast use crate::codec::lemma_le_len;

/// The largest number of probes a filter is built with.
pub const MAX_PROBES: u8 = 30;

/// A bloom filter.
pub struct Bloom {
    /// The bits of the filter, the low bit of each byte first.
    pub filter: Vec<u8>,
    /// The number of probes for each key.
    pub k: u8,
}

/// Bit `p` of a filter.
pub open spec fn bit_at(filter: Seq<u8>, p: int) -> bool {
    (filter[p / 8] >> ((p % 8) as u8)) & 1u8 == 1u8
}

/// The distance between the probes for a key: its fingerprint rotated by 15 bits.
pub open spec fn probe_delta(h: u32) -> u32 {
    (h >> 17u32) | (h << 15u32)
}

/// Probe `j` for a key, before it is reduced to the size of the filter.
pub open spec fn probe(h: u32, j: nat) -> u32
    decreases j,
{
    if j == 0 {
        h
    } else {
        ((probe(h, (j - 1) as nat) + probe_delta(h)) % 0x1_0000_0000) as u32
    }
}

/// The number of probes for each key: about ln 2 times the number of bits for each key.
pub open spec fn num_probes(bits_per_key: int) -> int {
    let k = bits_per_key * 69 / 100;
    if k < 1 {
        1
    } else if k > MAX_PROBES {
        MAX_PROBES as int
    } else {
        k
    }
}

/// The number of bytes of a filter for `n` keys.
pub open spec fn num_bytes(n: int, bits_per_key: int) -> int {
    ((if n * bits_per_key < 64 {
        64
    } else {
        n * bits_per_key
    }) + 7) / 8
}

/// A filter has at least the wanted number of bits for each key, and at least 64; it has less than a
/// byte more.
pub proof fn lemma_filter_bits(n: int, bits_per_key: int)
    requires
        0 <= n,
        0 <= bits_per_key,
    ensures
        num_bytes(n, bits_per_key) * 8 >= n * bits_per_key,
        num_bytes(n, bits_per_key) * 8 >= 64,
        num_bytes(n, bits_per_key) * 8 < n * bits_per_key + 8 || num_bytes(n, bits_per_key) * 8
            == 64,
{
}

/// The number of probes is the largest that is not above 0.69 times the number of bits for each key,
/// but at least 1 and at most 30.
pub proof fn lemma_probe_count(bits_per_key: int)
    requires
        0 <= bits_per_key,
    ensures
        1 <= num_probes(bits_per_key) <= 30,
        num_probes(bits_per_key) > 1 ==> num_probes(bits_per_key) * 100 <= bits_per_key * 69,
        num_probes(bits_per_key) < 30 ==> (num_probes(bits_per_key) + 1) * 100 > bits_per_key * 69,
{
}

proof fn lemma_rotated(h: u32)
    by (bit_vector)
    ensures
        (h >> 17u32) | (h << 15u32) == h / 131072 + (h % 131072) * 32768,
{
}

/// Probe `j` lies `j` times the fingerprint rotated by 15 bits behind the fingerprint, modulo 2 to
/// the 32.
pub proof fn lemma_probe_at(h: u32, j: nat)
    ensures
        probe(h, j) as int == (h + j * (h / 131072 + (h % 131072) * 32768)) % 0x1_0000_0000,
    decreases j,
{
    let d = h / 131072 + (h % 131072) * 32768;
    lemma_rotated(h);
    if j > 0 {
        lemma_probe_at(h, (j - 1) as nat);
        let x = h + (j - 1) * d;
        assert(h + j * d == x + d) by (nonlinear_arith)
            requires
                x == h + (j - 1) * d,
        ;
        assert((x % 0x1_0000_0000 + d) % 0x1_0000_0000 == (x + d) % 0x1_0000_0000);
    } else {
        assert(j * d == 0) by (nonlinear_arith)
            requires
                j == 0,
        ;
    }
}

/// Some key of `keys` sets bit `p` of a filter with `nbits` bits and `k` probes.
pub open spec fn sets_bit(keys: Seq<u32>, k: int, nbits: int, p: int) -> bool {
    exists|i: int, j: nat|
        0 <= i < keys.len() && j < k && #[trigger] probe(keys[i], j) as int % nbits == p
}

proof fn lemma_set_bit(b: u8, s: u8, t: u8)
    by (bit_vector)
    requires
        s < 8,
        t < 8,
    ensures
        ((b | (1u8 << s)) >> t) & 1u8 == 1u8 <==> (s == t || (b >> t) & 1u8 == 1u8),
{
}

proof fn lemma_zero_bit(t: u8)
    by (bit_vector)
    requires
        t < 8,
    ensures
        (0u8 >> t) & 1u8 == 0u8,
{
}

/// Sets bit `p`.
fn set_bit(filter: &mut Vec<u8>, p: usize)
    requires
        p < old(filter)@.len() * 8,
    ensures
        final(filter)@.len() == old(filter)@.len(),
        forall|q: int|
            0 <= q < old(filter)@.len() * 8 ==> (#[trigger] bit_at(final(filter)@, q) <==> (q == p
                || bit_at(old(filter)@, q))),
{
    let at: usize = p / 8;
    let shift: u8 = (p % 8) as u8;
    let b: u8 = filter[at];
    filter.set(at, b | (1u8 << shift));
    proof {
        assert forall|q: int| 0 <= q < old(filter)@.len() * 8 implies (#[trigger] bit_at(
            filter@,
            q,
        ) <==> (q == p || bit_at(old(filter)@, q))) by {
            lemma_set_bit(b, shift, (q % 8) as u8);
        }
    }
}

/// Reads bit `p`.
fn get_bit(filter: &Vec<u8>, p: usize) -> (r: bool)
    requires
        p < filter@.len() * 8,
    ensures
        r == bit_at(filter@, p as int),
{
    (filter[p / 8] >> ((p % 8) as u8)) & 1u8 == 1u8
}

impl Bloom {
    /// The filter has bits, and their number fits in a usize.
    pub open spec fn wf(&self) -> bool {
        0 < self.filter@.len() && self.filter@.len() * 8 <= usize::MAX
    }

    /// The filter has all probes for the key set. With more probes than filters are built with,
    /// it answers yes to every key.
    pub open spec fn contains(&self, h: u32) -> bool {
        self.k > MAX_PROBES || forall|j: nat|
            j < self.k ==> bit_at(
                self.filter@,
                #[trigger] probe(h, j) as int % (self.filter@.len() * 8) as int,
            )
    }

    /// The encoded filter: its bytes, the number of probes, and the checksum of both.
    pub open spec fn encoded(&self) -> Seq<u8> {
        let body = self.filter@.push(self.k);
        body + codec::le(outside::crc32(body) as nat, 4)
    }

    /// Build bloom filter from key hashes
    pub fn build_from_key_hashes(keys: &[u32], bits_per_key: usize) -> (r: Self)
        requires
            keys@.len() * bits_per_key + 7 <= usize::MAX,
            bits_per_key * 69 <= usize::MAX,
        ensures
            r.wf(),
            r.k == num_probes(bits_per_key as int),
            r.filter@.len() == num_bytes(keys@.len() as int, bits_per_key as int),
            forall|p: int|
                0 <= p < r.filter@.len() * 8 ==> (#[trigger] bit_at(r.filter@, p) <==> sets_bit(
                    keys@,
                    r.k as int,
                    (r.filter@.len() * 8) as int,
                    p,
                )),
            forall|i: int| 0 <= i < keys@.len() ==> r.contains(#[trigger] keys@[i]),
    {
        let scaled: usize = bits_per_key * 69 / 100;
        let k: u8 = if scaled < 1 {
            1
        } else if scaled > MAX_PROBES as usize {
            MAX_PROBES
        } else {
            scaled as u8
        };
        let wanted: usize = keys.len() * bits_per_key;
        let at_least: usize = if wanted < 64 {
            64
        } else {
            wanted
        };
        let nbytes: usize = (at_least + 7) / 8;
        let nbits: usize = nbytes * 8;
        let mut filter: Vec<u8> = vec![0u8; nbytes];
        proof {
            assert forall|p: int| 0 <= p < nbits implies !(#[trigger] bit_at(filter@, p)) by {
                lemma_zero_bit((p % 8) as u8);
            }
        }
        let mut i: usize = 0;
        while i < keys.len()
            invariant
                i <= keys@.len(),
                filter@.len() == nbytes,
                nbits == nbytes * 8,
                nbits > 0,
                forall|p: int|
                    0 <= p < nbits ==> (#[trigger] bit_at(filter@, p) <==> sets_bit(
                        keys@.take(i as int),
                        k as int,
                        nbits as int,
                        p,
                    )),
            decreases keys@.len() - i,
        {
            let ghost done = keys@.take(i as int);
            let ghost before = filter@;
            let first: u32 = keys[i];
            let mut h: u32 = first;
            let delta: u32 = (h >> 17u32) | (h << 15u32);
            let mut j: u8 = 0;
            while j < k
                invariant
                    j <= k,
                    filter@.len() == nbytes,
                    nbits == nbytes * 8,
                    nbits > 0,
                    delta == probe_delta(first),
                    h == probe(first, j as nat),
                    forall|p: int|
                        0 <= p < nbits ==> (#[trigger] bit_at(filter@, p) <==> (bit_at(before, p)
                            || exists|m: nat|
                            m < j && #[trigger] probe(first, m) as int % nbits as int == p)),
                decreases k - j,
            {
                let ghost inner = filter@;
                let pos: usize = (h as usize) % nbits;
                set_bit(&mut filter, pos);
                proof {
                    assert(probe(first, j as nat) as int % nbits as int == pos);
                    assert forall|p: int| 0 <= p < nbits implies (#[trigger] bit_at(filter@, p)
                        <==> (bit_at(before, p) || exists|m: nat|
                        m < j + 1 && #[trigger] probe(first, m) as int % nbits as int == p)) by {
                        assert(bit_at(filter@, p) <==> (p == pos || bit_at(inner, p)));
                        if exists|m: nat|
                            m < j && #[trigger] probe(first, m) as int % nbits as int == p {
                            let m = choose|m: nat|
                                m < j && #[trigger] probe(first, m) as int % nbits as int == p;
                            assert(m < j + 1 && probe(first, m) as int % nbits as int == p);
                        }
                        if exists|m: nat|
                            m < j + 1 && #[trigger] probe(first, m) as int % nbits as int == p {
                            let m = choose|m: nat|
                                m < j + 1 && #[trigger] probe(first, m) as int % nbits as int == p;
                            if m < j {
                                assert(m < j && probe(first, m) as int % nbits as int == p);
                            }
                        }
                    }
                }
                h = h.wrapping_add(delta);
                j = j + 1;
            }
            proof {
                let next = keys@.take(i + 1);
                assert(next =~= done.push(first));
                assert forall|p: int| 0 <= p < nbits implies (#[trigger] bit_at(filter@, p)
                    <==> sets_bit(next, k as int, nbits as int, p)) by {
                    if bit_at(before, p) {
                        let (a, m) = choose|a: int, m: nat|
                            0 <= a < done.len() && m < k && #[trigger] probe(done[a], m) as int
                                % nbits as int == p;
                        assert(next[a] == done[a]);
                    }
                    if exists|m: nat| m < k && #[trigger] probe(first, m) as int % nbits as int == p {
                        let m = choose|m: nat|
                            m < k && #[trigger] probe(first, m) as int % nbits as int == p;
                        assert(next[i as int] == first);
                        assert(probe(next[i as int], m) as int % nbits as int == p);
                    }
                    if sets_bit(next, k as int, nbits as int, p) {
                        let (a, m) = choose|a: int, m: nat|
                            0 <= a < next.len() && m < k && #[trigger] probe(next[a], m) as int
                                % nbits as int == p;
                        if a < i {
                            assert(probe(done[a], m) as int % nbits as int == p);
                        }
                    }
                }
            }
            i = i + 1;
        }
        let r = Self { filter, k };
        proof {
            assert(keys@.take(i as int) =~= keys@);
            assert forall|a: int| 0 <= a < keys@.len() implies r.contains(#[trigger] keys@[a]) by {
                assert forall|j: nat| j < r.k implies bit_at(
                    r.filter@,
                    #[trigger] probe(keys@[a], j) as int % (r.filter@.len() * 8) as int,
                ) by {
                    let p = probe(keys@[a], j) as int % nbits as int;
                    assert(sets_bit(keys@, k as int, nbits as int, p));
                    assert(bit_at(r.filter@, p));
                }
            }
        }
        r
    }

    /// The filter does not rule out the key. It says nothing about keys without a fingerprint.
    pub open spec fn covers(&self, key: Seq<u8>) -> bool {
        outside::hashable(key) ==> self.contains(outside::fingerprint(key))
    }

    /// Whether the filter does not rule out the key.
    pub fn may_cover(&self, key: &[u8]) -> (r: bool)
        requires
            self.wf(),
        ensures
            r == self.covers(key@),
    {
        match try_fingerprint(key) {
            Some(hash) => self.may_contain(hash),
            None => true,
        }
    }

    /// Check if a bloom filter may contain some data
    pub fn may_contain(&self, h: u32) -> (r: bool)
        requires
            self.wf(),
        ensures
            r == self.contains(h),
    {
        if self.k > MAX_PROBES {
            return true;
        }
        let nbits: usize = self.filter.len() * 8;
        let delta: u32 = (h >> 17u32) | (h << 15u32);
        let mut cur: u32 = h;
        let mut j: u8 = 0;
        while j < self.k
            invariant
                self.wf(),
                self.k <= MAX_PROBES,
                j <= self.k,
                nbits == self.filter@.len() * 8,
                delta == probe_delta(h),
                cur == probe(h, j as nat),
                forall|m: nat|
                    m < j ==> bit_at(self.filter@, #[trigger] probe(h, m) as int % nbits as int),
            decreases self.k - j,
        {
            let pos: usize = (cur as usize) % nbits;
            if !get_bit(&self.filter, pos) {
                assert(!bit_at(self.filter@, probe(h, j as nat) as int % nbits as int));
                return false;
            }
            cur = cur.wrapping_add(delta);
            j = j + 1;
        }
        true
    }

    /// Encode a bloom filter
    pub fn encode(&self, buf: &mut Vec<u8>)
        ensures
            final(buf)@ == old(buf)@ + self.encoded(),
    {
        let mut body: Vec<u8> = copy_slice(self.filter.as_slice());
        body.push(self.k);
        let sum: u32 = checksum(body.as_slice());
        put_slice(buf, body.as_slice());
        put_le(buf, sum as u64, 4);
        assert(buf@ =~= old(buf)@ + self.encoded());
    }

    /// Decode a bloom filter
    pub fn decode(buf: &[u8]) -> (r: Result<Self, LsmError>)
        ensures
            decodes_to(buf@) == match r {
                Ok(b) => Ok((b.filter@, b.k)),
                Err(e) => Err(e),
            },
            r matches Ok(b) ==> b.wf(),
    {
        let len: usize = buf.len();
        if len < 6 || (len - 5) > usize::MAX / 8 {
            return Err(LsmError::Malformed);
        }
        let body: &[u8] = vstd::slice::slice_subrange(buf, 0, len - 4);
        let sum: u32 = get_u32_le(buf, len - 4);
        if sum != checksum(body) {
            return Err(LsmError::BloomChecksumMismatch);
        }
        let filter: Vec<u8> = copy_slice(vstd::slice::slice_subrange(buf, 0, len - 5));
        Ok(Self { filter, k: buf[len - 5] })
    }
}

/// One probe of a key that hits a bit that is not set rules the key out.
pub proof fn lemma_ruled_out(b: Bloom, h: u32, j: nat)
    requires
        b.wf(),
        j < b.k <= 30,
        !bit_at(
            b.filter@,
            ((h + j * (h / 131072 + (h % 131072) * 32768)) % 0x1_0000_0000) % ((b.filter@.len()
                * 8) as int),
        ),
    ensures
        !b.contains(h),
{
    lemma_probe_at(h, j);
}

/// A filter with no bit set rules out every key.
pub proof fn lemma_empty_filter(b: Bloom, h: u32)
    requires
        b.wf(),
        0 < b.k <= 30,
        forall|p: int| 0 <= p < b.filter@.len() * 8 ==> !(#[trigger] bit_at(b.filter@, p)),
    ensures
        !b.contains(h),
{
    assert(0 * (h / 131072 + (h % 131072) * 32768) == 0);
    let p = h as int % (b.filter@.len() * 8) as int;
    assert(0 <= p < b.filter@.len() * 8) by (nonlinear_arith)
        requires
            p == h as int % (b.filter@.len() * 8) as int,
            b.filter@.len() > 0,
    ;
    assert(!bit_at(b.filter@, p));
    assert(probe(h, 0) == h);
}

/// What decoding gives: the bits and the number of probes where the bytes hold at least one byte
/// of filter and their checksum matches.
pub open spec fn decodes_to(buf: Seq<u8>) -> Result<(Seq<u8>, u8), LsmError> {
    let n = buf.len() as int;
    if n < 6 || n - 5 > usize::MAX as int / 8 {
        Err(LsmError::Malformed)
    } else if codec::from_le(buf.subrange(n - 4, n)) != outside::crc32(buf.subrange(0, n - 4)) {
        Err(LsmError::BloomChecksumMismatch)
    } else {
        Ok((buf.subrange(0, n - 5), buf[n - 5]))
    }
}

/// A filter that can be decoded is undamaged: the bytes are the filter, the number of probes and the
/// checksum of both.
pub proof fn lemma_decoded_is_whole(buf: Seq<u8>)
    requires
        decodes_to(buf) is Ok,
    ensures
        ({
            let (filter, k) = decodes_to(buf)->Ok_0;
            let body = filter.push(k);
            buf == body + codec::le(outside::crc32(body) as nat, 4)
        }),
{
    let n = buf.len() as int;
    let (filter, k) = decodes_to(buf)->Ok_0;
    codec::lemma_le_of_from_le(buf.subrange(n - 4, n));
    assert(buf.subrange(0, n - 4) =~= filter.push(k));
    assert(buf =~= buf.subrange(0, n - 4) + buf.subrange(n - 4, n));
}

/// Decoding an encoded filter gives the filter back.
pub proof fn lemma_bloom_round_trip(b: Bloom)
    requires
        b.wf(),
    ensures
        decodes_to(b.encoded()) == Ok::<(Seq<u8>, u8), LsmError>((b.filter@, b.k)),
{
    let body = b.filter@.push(b.k);
    let buf = b.encoded();
    let n = buf.len() as int;
    codec::lemma_pow256();
    codec::lemma_from_le_of_le(outside::crc32(body) as nat, 4);
    assert(buf.subrange(0, n - 4) =~= body);
    assert(buf.subrange(n - 4, n) =~= codec::le(outside::crc32(body) as nat, 4));
    assert(buf.subrange(0, n - 5) =~= b.filter@);
}

} // verus!
