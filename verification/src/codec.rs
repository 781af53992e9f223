//! Fixed-width integers in byte buffers.
use vstd::prelude::*;

verus! {

/// The `n` low-order bytes of `x`, least significant byte first.
pub open spec fn le(x: nat, n: nat) -> Seq<u8>
    decreases n,
{
    if n == 0 {
        Seq::empty()
    } else {
        seq![(x % 256) as u8] + le(x / 256, (n - 1) as nat)
    }
}

/// The number whose little-endian bytes are `s`.
pub open spec fn from_le(s: Seq<u8>) -> nat
    decreases s.len(),
{
    if s.len() == 0 {
        0
    } else {
        s[0] as nat + 256 * from_le(s.drop_first())
    }
}

/// The `n` low-order bytes of `x`, most significant byte first.
pub open spec fn be(x: nat, n: nat) -> Seq<u8> {
    le(x, n).reverse()
}

/// The number whose big-endian bytes are `s`.
pub open spec fn from_be(s: Seq<u8>) -> nat {
    from_le(s.reverse())
}

/// 256 to the power of `n`.
pub open spec fn pow256(n: nat) -> nat
    decreases n,
{
    if n == 0 {
        1
    } else {
        256 * pow256((n - 1) as nat)
    }
}

pub proof fn lemma_pow256()
    ensures
        pow256(2) == 0x1_0000,
        pow256(4) == 0x1_0000_0000,
        pow256(8) == 0x1_0000_0000_0000_0000,
{
    reveal_with_fuel(pow256, 9);
    assert(pow256(4) == 0x1_0000_0000);
}

pub broadcast proof fn lemma_le_len(x: nat, n: nat)
    ensures
        #[trigger] le(x, n).len() == n,
    decreases n,
{
    if n > 0 {
        lemma_le_len(x / 256, (n - 1) as nat);
    }
}

/// Reading back the low-order bytes gives the number, reduced to the width.
pub proof fn lemma_from_le_of_le(x: nat, n: nat)
    requires
        x < pow256(n),
    ensures
        from_le(le(x, n)) == x,
    decreases n,
{
    if n > 0 {
        assert(x / 256 < pow256((n - 1) as nat));
        lemma_from_le_of_le(x / 256, (n - 1) as nat);
        let s = le(x, n);
        assert(s.drop_first() =~= le(x / 256, (n - 1) as nat));
        assert(s[0] == (x % 256) as u8);
    }
}

/// A number read from `n` bytes is below 256 to the power of `n`.
pub proof fn lemma_from_le_bound(s: Seq<u8>)
    ensures
        from_le(s) < pow256(s.len()),
    decreases s.len(),
{
    if s.len() > 0 {
        lemma_from_le_bound(s.drop_first());
    }
}

/// Writing a number read from bytes gives the bytes back.
pub proof fn lemma_le_of_from_le(s: Seq<u8>)
    ensures
        le(from_le(s), s.len()) == s,
    decreases s.len(),
{
    if s.len() > 0 {
        lemma_le_of_from_le(s.drop_first());
        let x = from_le(s);
        assert(x % 256 == s[0] as nat);
        assert(x / 256 == from_le(s.drop_first()));
        assert(le(x, s.len()) =~= s);
    } else {
        assert(le(from_le(s), s.len()) =~= s);
    }
}

/// The chunks one after another.
pub open spec fn concat(chunks: Seq<Seq<u8>>) -> Seq<u8>
    decreases chunks.len(),
{
    if chunks.len() == 0 {
        Seq::empty()
    } else {
        concat(chunks.drop_last()) + chunks.last()
    }
}

/// Where chunk `i` starts in the concatenation.
pub open spec fn chunk_start(chunks: Seq<Seq<u8>>, i: int) -> int {
    concat(chunks.take(i)).len() as int
}

pub proof fn lemma_concat_push(chunks: Seq<Seq<u8>>, c: Seq<u8>)
    ensures
        concat(chunks.push(c)) == concat(chunks) + c,
{
    assert(chunks.push(c).drop_last() =~= chunks);
}

pub proof fn lemma_concat_front(c: Seq<u8>, chunks: Seq<Seq<u8>>)
    ensures
        concat(seq![c] + chunks) == c + concat(chunks),
    decreases chunks.len(),
{
    let all = seq![c] + chunks;
    if chunks.len() == 0 {
        assert(all.drop_last() =~= Seq::empty());
        assert(concat(all.drop_last()) =~= Seq::empty());
        assert(concat(chunks) =~= Seq::empty());
        assert(concat(all) =~= c + concat(chunks));
    } else {
        lemma_concat_front(c, chunks.drop_last());
        assert(all.drop_last() =~= seq![c] + chunks.drop_last());
        assert(concat(all) =~= c + concat(chunks));
    }
}

/// Chunk `i` is found in the concatenation between its start and the start of the next.
pub proof fn lemma_chunk_at(chunks: Seq<Seq<u8>>, i: int)
    requires
        0 <= i < chunks.len(),
    ensures
        chunk_start(chunks, i + 1) == chunk_start(chunks, i) + chunks[i].len(),
        chunk_start(chunks, i + 1) <= concat(chunks).len(),
        concat(chunks).subrange(chunk_start(chunks, i), chunk_start(chunks, i + 1)) == chunks[i],
    decreases chunks.len(),
{
    let front = chunks.drop_last();
    assert(chunks.take(i + 1).drop_last() =~= chunks.take(i));
    assert(chunks.take(i + 1).last() == chunks[i]);
    assert(chunks.take(chunks.len() as int) =~= chunks);
    if i == chunks.len() - 1 {
        assert(front =~= chunks.take(i));
        assert(concat(chunks).subrange(chunk_start(chunks, i), chunk_start(chunks, i + 1)) =~= chunks[i]);
    } else {
        lemma_chunk_at(front, i);
        assert(front.take(i) =~= chunks.take(i));
        assert(front.take(i + 1) =~= chunks.take(i + 1));
        assert(concat(chunks).subrange(chunk_start(chunks, i), chunk_start(chunks, i + 1))
            =~= concat(front).subrange(chunk_start(chunks, i), chunk_start(chunks, i + 1)));
    }
}

pub proof fn lemma_chunk_start_ends(chunks: Seq<Seq<u8>>)
    ensures
        chunk_start(chunks, 0) == 0,
        chunk_start(chunks, chunks.len() as int) == concat(chunks).len(),
{
    assert(chunks.take(chunks.len() as int) =~= chunks);
}

/// A 64-bit number survives a big-endian round trip.
pub proof fn lemma_from_be_of_be(x: u64)
    ensures
        from_be(be(x as nat, 8)) == x,
        be(x as nat, 8).len() == 8,
{
    lemma_pow256();
    lemma_from_le_of_le(x as nat, 8);
    lemma_le_len(x as nat, 8);
    assert(le(x as nat, 8).reverse().reverse() =~= le(x as nat, 8));
}

/// Numbers read from two, four and eight bytes fit in the type of that width.
pub proof fn lemma_read_bounds(s: Seq<u8>)
    ensures
        s.len() == 2 ==> from_le(s) <= u16::MAX,
        s.len() == 4 ==> from_le(s) <= u32::MAX,
        s.len() == 8 ==> from_le(s) <= u64::MAX,
        s.len() == 8 ==> from_be(s) <= u64::MAX,
{
    lemma_pow256();
    lemma_from_le_bound(s);
    lemma_from_le_bound(s.reverse());
}

/// Appends the `n` low-order bytes of `x`, least significant first.
pub fn put_le(buf: &mut Vec<u8>, x: u64, n: usize)
    ensures
        final(buf)@ == old(buf)@ + le(x as nat, n as nat),
{
    let mut rest: u64 = x;
    let mut i: usize = 0;
    assert(buf@ + le(x as nat, n as nat) =~= old(buf)@ + le(x as nat, n as nat));
    while i < n
        invariant
            i <= n,
            buf@ + le(rest as nat, (n - i) as nat) == old(buf)@ + le(x as nat, n as nat),
        decreases n - i,
    {
        let ghost before = buf@;
        let low: u8 = (rest % 256) as u8;
        buf.push(low);
        proof {
            let tail = le((rest / 256) as nat, (n - i - 1) as nat);
            assert(le(rest as nat, (n - i) as nat) == seq![low] + tail);
            assert(buf@ + tail =~= before + (seq![low] + tail));
        }
        rest = rest / 256;
        i = i + 1;
    }
    assert(buf@ + le(rest as nat, 0) =~= buf@);
}

/// Appends the eight bytes of `x`, most significant first.
pub fn put_u64_be(buf: &mut Vec<u8>, x: u64)
    ensures
        final(buf)@ == old(buf)@ + be(x as nat, 8),
{
    let mut bytes: Vec<u8> = Vec::new();
    put_le(&mut bytes, x, 8);
    let ghost all = le(x as nat, 8);
    proof {
        lemma_le_len(x as nat, 8);
        assert(bytes@ =~= all);
    }
    let mut i: usize = 8;
    while i > 0
        invariant
            i <= 8,
            bytes@ == all,
            all.len() == 8,
            buf@ =~= old(buf)@ + all.reverse().take(8 - i),
        decreases i,
    {
        i = i - 1;
        buf.push(bytes[i]);
    }
    assert(all.reverse().take(8) =~= all.reverse());
}

/// Reads a two-byte little-endian number.
pub fn get_u16_le(buf: &[u8], at: usize) -> (x: usize)
    requires
        at + 2 <= buf@.len(),
    ensures
        x == from_le(buf@.subrange(at as int, at + 2)),
        x <= u16::MAX,
{
    let ghost s = buf@.subrange(at as int, at + 2);
    proof {
        reveal_with_fuel(from_le, 3);
        assert(s.drop_first()[0] == buf@[at + 1]);
    }
    buf[at] as usize + 256 * (buf[at + 1] as usize)
}

/// Reads a four-byte little-endian number.
pub fn get_u32_le(buf: &[u8], at: usize) -> (x: u32)
    requires
        at + 4 <= buf@.len(),
    ensures
        x == from_le(buf@.subrange(at as int, at + 4)),
{
    let ghost s = buf@.subrange(at as int, at + 4);
    proof {
        reveal_with_fuel(from_le, 5);
        assert(s.drop_first()[0] == buf@[at + 1]);
        assert(s.drop_first().drop_first()[0] == buf@[at + 2]);
        assert(s.drop_first().drop_first().drop_first()[0] == buf@[at + 3]);
    }
    buf[at] as u32 + 256 * (buf[at + 1] as u32 + 256 * (buf[at + 2] as u32 + 256 * (buf[at + 3] as u32)))
}

/// Reads an eight-byte little-endian number.
pub fn get_u64_le(buf: &[u8], at: usize) -> (x: u64)
    requires
        at + 8 <= buf@.len(),
    ensures
        x == from_le(buf@.subrange(at as int, at + 8)),
{
    let mut x: u64 = 0;
    let mut i: usize = 8;
    let len: usize = buf.len();
    let ghost s = buf@.subrange(at as int, at + 8);
    while i > 0
        invariant
            i <= 8,
            at + 8 <= len == buf@.len(),
            s == buf@.subrange(at as int, at + 8),
            x == from_le(s.skip(i as int)),
        decreases i,
    {
        proof {
            assert(s.skip(i - 1).drop_first() =~= s.skip(i as int));
            assert(s.skip(i - 1)[0] == buf@[at + i - 1]);
            lemma_from_le_bound(s.skip(i - 1));
            assert(pow256((9 - i) as nat) <= pow256(8)) by {
                reveal_with_fuel(pow256, 9);
            }
            lemma_pow256();
        }
        i = i - 1;
        x = buf[at + i] as u64 + 256 * x;
    }
    assert(s.skip(0) =~= s);
    x
}

/// Reads an eight-byte big-endian number.
pub fn get_u64_be(buf: &[u8], at: usize) -> (x: u64)
    requires
        at + 8 <= buf@.len(),
    ensures
        x == from_be(buf@.subrange(at as int, at + 8)),
{
    let mut reversed: Vec<u8> = Vec::new();
    let len: usize = buf.len();
    let ghost s = buf@.subrange(at as int, at + 8);
    let mut i: usize = 8;
    while i > 0
        invariant
            i <= 8,
            at + 8 <= len == buf@.len(),
            s == buf@.subrange(at as int, at + 8),
            reversed@ =~= s.reverse().take(8 - i),
        decreases i,
    {
        i = i - 1;
        reversed.push(buf[at + i]);
    }
    assert(reversed@ =~= s.reverse());
    assert(reversed@.subrange(0, 8) =~= reversed@);
    get_u64_le(reversed.as_slice(), 0)
}

/// Appends a slice to a buffer.
pub fn put_slice(buf: &mut Vec<u8>, s: &[u8])
    ensures
        final(buf)@ == old(buf)@ + s@,
{
    buf.extend_from_slice(s);
    assert(buf@ =~= old(buf)@ + s@);
}

/// Copies a slice into a buffer of its own.
pub fn copy_slice(s: &[u8]) -> (v: Vec<u8>)
    ensures
        v@ == s@,
{
    let mut v: Vec<u8> = Vec::new();
    v.extend_from_slice(s);
    assert(v@ =~= s@);
    v
}

/// Whether two slices hold the same bytes.
pub fn same_bytes(a: &[u8], b: &[u8]) -> (r: bool)
    ensures
        r == (a@ == b@),
{
    if a.len() != b.len() {
        return false;
    }
    let mut i: usize = 0;
    while i < a.len()
        invariant
            a@.len() == b@.len(),
            i <= a@.len(),
            forall|j: int| 0 <= j < i ==> a@[j] == b@[j],
        decreases a@.len() - i,
    {
        if a[i] != b[i] {
            return false;
        }
        i = i + 1;
    }
    assert(a@ =~= b@);
    true
}

} // verus!
