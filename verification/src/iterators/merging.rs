//! What merging sorted sequences of entries gives.
use vstd::prelude::*;

use crate::bound::Bound;
use crate::key::{VEntry, VKey};
use crate::{block, bound, key};

verus! {

/// Merges two sorted sequences. Of two entries with one key the one from `a` is kept.
pub open spec fn merge2(a: Seq<VEntry>, b: Seq<VEntry>) -> Seq<VEntry>
    decreases a.len() + b.len(),
{
    if a.len() == 0 {
        b
    } else if b.len() == 0 {
        a
    } else if key::key_lt(a[0].key, b[0].key) {
        seq![a[0]] + merge2(a.drop_first(), b)
    } else if key::key_lt(b[0].key, a[0].key) {
        seq![b[0]] + merge2(a, b.drop_first())
    } else {
        seq![a[0]] + merge2(a.drop_first(), b.drop_first())
    }
}

/// Merges sorted sequences. Of entries with one key the one from the first sequence is kept.
pub open spec fn merge_all(seqs: Seq<Seq<VEntry>>) -> Seq<VEntry>
    decreases seqs.len(),
{
    if seqs.len() == 0 {
        Seq::empty()
    } else {
        merge2(seqs[0], merge_all(seqs.drop_first()))
    }
}

/// What the entries say about each key. The first of several entries with one key counts.
pub open spec fn to_map(s: Seq<VEntry>) -> Map<VKey, Seq<u8>>
    decreases s.len(),
{
    if s.len() == 0 {
        Map::empty()
    } else {
        to_map(s.drop_first()).insert(s[0].key, s[0].value)
    }
}

/// All keys are behind `k`.
pub open spec fn all_after(s: Seq<VEntry>, k: VKey) -> bool {
    forall|i: int| 0 <= i < s.len() ==> key::key_lt(k, (#[trigger] s[i]).key)
}

/// The sequence without its first entry, where that has key `k`.
pub open spec fn advance(s: Seq<VEntry>, k: VKey) -> Seq<VEntry> {
    if s.len() > 0 && s[0].key == k {
        s.drop_first()
    } else {
        s
    }
}

/// All sequences advanced past `k`.
pub open spec fn advance_all(seqs: Seq<Seq<VEntry>>, k: VKey) -> Seq<Seq<VEntry>> {
    Seq::new(seqs.len(), |i: int| advance(seqs[i], k))
}

pub open spec fn all_sorted(seqs: Seq<Seq<VEntry>>) -> bool {
    forall|i: int| 0 <= i < seqs.len() ==> key::sorted(#[trigger] seqs[i])
}

/// No sequence has an entry before `k`.
pub open spec fn none_before(seqs: Seq<Seq<VEntry>>, k: VKey) -> bool {
    forall|i: int|
        0 <= i < seqs.len() && (#[trigger] seqs[i]).len() > 0 ==> key::key_le(k, seqs[i][0].key)
}

/// Some sequence begins with `k`.
pub open spec fn some_begins(seqs: Seq<Seq<VEntry>>, k: VKey) -> bool {
    exists|i: int| 0 <= i < seqs.len() && (#[trigger] seqs[i]).len() > 0 && seqs[i][0].key == k
}

pub proof fn lemma_sorted_parts(s: Seq<VEntry>)
    requires
        key::sorted(s),
        s.len() > 0,
    ensures
        key::sorted(s.drop_first()),
        all_after(s.drop_first(), s[0].key),
{
    let r = s.drop_first();
    assert forall|i: int| 0 <= i < r.len() implies key::key_lt(s[0].key, (#[trigger] r[i]).key) by {
        assert(r[i] == s[i + 1]);
    }
    assert forall|i: int, j: int| #![trigger r[i], r[j]] 0 <= i < j < r.len() implies key::key_lt(
        r[i].key,
        r[j].key,
    ) by {
        assert(r[i] == s[i + 1]);
        assert(r[j] == s[j + 1]);
    }
}

pub proof fn lemma_sorted_cons(e: VEntry, s: Seq<VEntry>)
    requires
        key::sorted(s),
        all_after(s, e.key),
    ensures
        key::sorted(seq![e] + s),
{
    let r = seq![e] + s;
    assert forall|i: int, j: int| #![trigger r[i], r[j]] 0 <= i < j < r.len() implies key::key_lt(
        r[i].key,
        r[j].key,
    ) by {
        assert(r[j] == s[j - 1]);
        if i > 0 {
            assert(r[i] == s[i - 1]);
        }
    }
}

pub proof fn lemma_after_weaken(s: Seq<VEntry>, k: VKey, l: VKey)
    requires
        all_after(s, l),
        key::key_le(k, l),
    ensures
        all_after(s, k),
{
    assert forall|i: int| 0 <= i < s.len() implies key::key_lt(k, (#[trigger] s[i]).key) by {
        if k != l {
            key::lemma_key_lt_transitive(k, l, s[i].key);
        }
    }
}

pub proof fn lemma_merge2_after(a: Seq<VEntry>, b: Seq<VEntry>, k: VKey)
    requires
        all_after(a, k),
        all_after(b, k),
    ensures
        all_after(merge2(a, b), k),
    decreases a.len() + b.len(),
{
    if a.len() > 0 && b.len() > 0 {
        let ra = a.drop_first();
        let rb = b.drop_first();
        assert(all_after(ra, k)) by {
            assert forall|i: int| 0 <= i < ra.len() implies key::key_lt(k, (#[trigger] ra[i]).key) by {
                assert(ra[i] == a[i + 1]);
            }
        }
        assert(all_after(rb, k)) by {
            assert forall|i: int| 0 <= i < rb.len() implies key::key_lt(k, (#[trigger] rb[i]).key) by {
                assert(rb[i] == b[i + 1]);
            }
        }
        let (h, rest) = if key::key_lt(a[0].key, b[0].key) {
            lemma_merge2_after(ra, b, k);
            (a[0], merge2(ra, b))
        } else if key::key_lt(b[0].key, a[0].key) {
            lemma_merge2_after(a, rb, k);
            (b[0], merge2(a, rb))
        } else {
            lemma_merge2_after(ra, rb, k);
            (a[0], merge2(ra, rb))
        };
        let m = merge2(a, b);
        assert(m == seq![h] + rest);
        assert forall|i: int| 0 <= i < m.len() implies key::key_lt(k, (#[trigger] m[i]).key) by {
            if i > 0 {
                assert(m[i] == rest[i - 1]);
            }
        }
    }
}

/// Merging sorted sequences gives a sorted sequence.
pub proof fn lemma_merge2_sorted(a: Seq<VEntry>, b: Seq<VEntry>)
    requires
        key::sorted(a),
        key::sorted(b),
    ensures
        key::sorted(merge2(a, b)),
    decreases a.len() + b.len(),
{
    if a.len() > 0 && b.len() > 0 {
        let ra = a.drop_first();
        let rb = b.drop_first();
        lemma_sorted_parts(a);
        lemma_sorted_parts(b);
        if key::key_lt(a[0].key, b[0].key) {
            lemma_merge2_sorted(ra, b);
            lemma_head_after(b, a[0].key);
            lemma_merge2_after(ra, b, a[0].key);
            lemma_sorted_cons(a[0], merge2(ra, b));
        } else if key::key_lt(b[0].key, a[0].key) {
            lemma_merge2_sorted(a, rb);
            lemma_head_after(a, b[0].key);
            lemma_merge2_after(a, rb, b[0].key);
            lemma_sorted_cons(b[0], merge2(a, rb));
        } else {
            lemma_merge2_sorted(ra, rb);
            key::lemma_key_total(a[0].key, b[0].key);
            lemma_merge2_after(ra, rb, a[0].key);
            lemma_sorted_cons(a[0], merge2(ra, rb));
        }
    }
}

/// A sorted sequence whose first key is behind `k` is all behind `k`.
pub proof fn lemma_head_after(s: Seq<VEntry>, k: VKey)
    requires
        key::sorted(s),
        s.len() > 0 ==> key::key_lt(k, s[0].key),
    ensures
        all_after(s, k),
{
    assert forall|i: int| 0 <= i < s.len() implies key::key_lt(k, (#[trigger] s[i]).key) by {
        if i > 0 {
            key::lemma_key_lt_transitive(k, s[0].key, s[i].key);
        }
    }
}

/// Merging a sequence with nothing gives the sequence.
pub proof fn lemma_merge2_empty(a: Seq<VEntry>)
    ensures
        merge2(a, Seq::empty()) == a,
        merge2(Seq::empty(), a) == a,
{
    if a.len() == 0 {
        assert(a =~= Seq::empty());
    }
}

/// Taking the first entry off both sides of a merge that have it takes it off the merge.
pub proof fn lemma_merge2_step(a: Seq<VEntry>, b: Seq<VEntry>, k: VKey)
    requires
        key::sorted(a),
        key::sorted(b),
        a.len() > 0 ==> key::key_le(k, a[0].key),
        b.len() > 0 ==> key::key_le(k, b[0].key),
        (a.len() > 0 && a[0].key == k) || (b.len() > 0 && b[0].key == k),
    ensures
        merge2(a, b).len() > 0,
        merge2(a, b)[0] == if a.len() > 0 && a[0].key == k {
            a[0]
        } else {
            b[0]
        },
        merge2(a, b).drop_first() == merge2(advance(a, k), advance(b, k)),
{
    key::lemma_key_lt_irreflexive(k);
    let m = merge2(a, b);
    if a.len() == 0 {
        lemma_merge2_empty(b.drop_first());
        assert(advance(a, k) =~= Seq::empty());
        assert(m.drop_first() =~= b.drop_first());
    } else if b.len() == 0 {
        lemma_merge2_empty(a.drop_first());
        assert(advance(b, k) =~= Seq::empty());
        assert(m.drop_first() =~= a.drop_first());
    } else if key::key_lt(a[0].key, b[0].key) {
        key::lemma_key_lt_irreflexive(a[0].key);
        if a[0].key != k {
            key::lemma_key_lt_transitive(a[0].key, k, a[0].key);
        }
        assert(m.drop_first() =~= merge2(a.drop_first(), b));
    } else if key::key_lt(b[0].key, a[0].key) {
        key::lemma_key_lt_irreflexive(b[0].key);
        if b[0].key != k {
            key::lemma_key_lt_transitive(b[0].key, k, b[0].key);
        }
        assert(m.drop_first() =~= merge2(a, b.drop_first()));
    } else {
        key::lemma_key_total(a[0].key, b[0].key);
        assert(m.drop_first() =~= merge2(a.drop_first(), b.drop_first()));
    }
}

/// Merging sorted sequences gives a sorted sequence.
pub proof fn lemma_merge_all_sorted(seqs: Seq<Seq<VEntry>>)
    requires
        all_sorted(seqs),
    ensures
        key::sorted(merge_all(seqs)),
    decreases seqs.len(),
{
    if seqs.len() > 0 {
        let rest = seqs.drop_first();
        assert forall|i: int| 0 <= i < rest.len() implies key::sorted(#[trigger] rest[i]) by {
            assert(rest[i] == seqs[i + 1]);
        }
        lemma_merge_all_sorted(rest);
        assert(key::sorted(seqs[0]));
        lemma_merge2_sorted(seqs[0], merge_all(rest));
    }
}

/// Where no sequence has an entry before `k`, the merge has none; it begins with `k` exactly where
/// some sequence does.
proof fn lemma_merge_all_head(seqs: Seq<Seq<VEntry>>, k: VKey)
    requires
        all_sorted(seqs),
        none_before(seqs, k),
    ensures
        merge_all(seqs).len() > 0 ==> key::key_le(k, merge_all(seqs)[0].key),
        some_begins(seqs, k) <==> merge_all(seqs).len() > 0 && merge_all(seqs)[0].key == k,
    decreases seqs.len(),
{
    if seqs.len() > 0 {
        let first = seqs[0];
        let rest = seqs.drop_first();
        let m = merge_all(rest);
        assert forall|i: int| 0 <= i < rest.len() implies key::sorted(#[trigger] rest[i]) && (
        rest[i].len() > 0 ==> key::key_le(k, rest[i][0].key)) by {
            assert(rest[i] == seqs[i + 1]);
        }
        lemma_merge_all_head(rest, k);
        lemma_merge_all_sorted(rest);
        assert(key::sorted(first));
        assert(some_begins(seqs, k) <==> (first.len() > 0 && first[0].key == k) || some_begins(
            rest,
            k,
        )) by {
            if some_begins(seqs, k) {
                let i = choose|i: int|
                    0 <= i < seqs.len() && (#[trigger] seqs[i]).len() > 0 && seqs[i][0].key == k;
                if i > 0 {
                    assert(rest[i - 1] == seqs[i]);
                }
            }
            if some_begins(rest, k) {
                let i = choose|i: int|
                    0 <= i < rest.len() && (#[trigger] rest[i]).len() > 0 && rest[i][0].key == k;
                assert(rest[i] == seqs[i + 1]);
            }
        }
        if (first.len() > 0 && first[0].key == k) || (m.len() > 0 && m[0].key == k) {
            lemma_merge2_step(first, m, k);
        }
    }
}

/// Advancing all sequences past the first key takes the first entry off the merge. That entry is
/// the one of the first sequence that begins with the key.
pub proof fn lemma_merge_all_step(seqs: Seq<Seq<VEntry>>, c: int)
    requires
        all_sorted(seqs),
        0 <= c < seqs.len(),
        seqs[c].len() > 0,
        none_before(seqs, seqs[c][0].key),
        forall|i: int|
            0 <= i < c && (#[trigger] seqs[i]).len() > 0 ==> seqs[i][0].key != seqs[c][0].key,
    ensures
        merge_all(seqs).len() > 0,
        merge_all(seqs)[0] == seqs[c][0],
        merge_all(seqs).drop_first() == merge_all(advance_all(seqs, seqs[c][0].key)),
    decreases seqs.len(),
{
    let k = seqs[c][0].key;
    let first = seqs[0];
    let rest = seqs.drop_first();
    let m = merge_all(rest);
    assert forall|i: int| 0 <= i < rest.len() implies key::sorted(#[trigger] rest[i]) && (
    rest[i].len() > 0 ==> key::key_le(k, rest[i][0].key)) by {
        assert(rest[i] == seqs[i + 1]);
    }
    lemma_merge_all_sorted(rest);
    lemma_merge_all_head(rest, k);
    assert(key::sorted(first));
    if c > 0 {
        assert(rest[c - 1] == seqs[c]);
        assert(some_begins(rest, k));
    }
    lemma_merge2_step(first, m, k);
    let next = advance_all(seqs, k);
    assert(next.drop_first() =~= advance_all(rest, k));
    lemma_advance_merge(rest, k);
    if c > 0 {
        assert(rest[c - 1] == seqs[c]);
        assert forall|i: int| 0 <= i < c - 1 && (#[trigger] rest[i]).len() > 0 implies rest[i][0].key
            != rest[c - 1][0].key by {
            assert(rest[i] == seqs[i + 1]);
        }
        lemma_merge_all_step(rest, c - 1);
    }
}

/// Advancing all sequences past `k` advances the merge past `k`.
proof fn lemma_advance_merge(seqs: Seq<Seq<VEntry>>, k: VKey)
    requires
        all_sorted(seqs),
        none_before(seqs, k),
    ensures
        advance(merge_all(seqs), k) == merge_all(advance_all(seqs, k)),
    decreases seqs.len(),
{
    if seqs.len() > 0 {
        let first = seqs[0];
        let rest = seqs.drop_first();
        let m = merge_all(rest);
        assert forall|i: int| 0 <= i < rest.len() implies key::sorted(#[trigger] rest[i]) && (
        rest[i].len() > 0 ==> key::key_le(k, rest[i][0].key)) by {
            assert(rest[i] == seqs[i + 1]);
        }
        lemma_advance_merge(rest, k);
        lemma_merge_all_sorted(rest);
        lemma_merge_all_head(rest, k);
        lemma_merge_all_head(seqs, k);
        assert(key::sorted(first));
        assert(advance_all(seqs, k).drop_first() =~= advance_all(rest, k));
        if (first.len() > 0 && first[0].key == k) || (m.len() > 0 && m[0].key == k) {
            lemma_merge2_step(first, m, k);
        }
    }
}

/// A sequence without entries can be left out of a merge.
pub proof fn lemma_merge_all_without(seqs: Seq<Seq<VEntry>>, i: int)
    requires
        0 <= i < seqs.len(),
        seqs[i].len() == 0,
    ensures
        merge_all(seqs.remove(i)) == merge_all(seqs),
    decreases seqs.len(),
{
    if i == 0 {
        assert(seqs.remove(0) =~= seqs.drop_first());
    } else {
        let rest = seqs.drop_first();
        assert(rest[i - 1] == seqs[i]);
        lemma_merge_all_without(rest, i - 1);
        assert(seqs.remove(i).drop_first() =~= rest.remove(i - 1));
        assert(seqs.remove(i)[0] == seqs[0]);
    }
}

/// Keys all behind `k` leave nothing said about `k`.
pub proof fn lemma_to_map_after(s: Seq<VEntry>, k: VKey)
    requires
        all_after(s, k),
    ensures
        !to_map(s).contains_key(k),
    decreases s.len(),
{
    if s.len() > 0 {
        let r = s.drop_first();
        assert forall|i: int| 0 <= i < r.len() implies key::key_lt(k, (#[trigger] r[i]).key) by {
            assert(r[i] == s[i + 1]);
        }
        lemma_to_map_after(r, k);
        key::lemma_key_lt_irreflexive(k);
        assert(key::key_lt(k, s[0].key));
    }
}

/// What sorted entries say about each key.
pub proof fn lemma_to_map_contains(s: Seq<VEntry>, k: VKey)
    requires
        key::sorted(s),
    ensures
        to_map(s).contains_key(k) <==> exists|i: int|
            0 <= i < s.len() && (#[trigger] s[i]).key == k,
        forall|i: int|
            0 <= i < s.len() && (#[trigger] s[i]).key == k
                ==> to_map(s)[k] == s[i].value,
    decreases s.len(),
{
    if s.len() > 0 {
        let r = s.drop_first();
        lemma_sorted_parts(s);
        lemma_to_map_contains(r, k);
        let m = to_map(s);
        if m.contains_key(k) && k != s[0].key {
            let i = choose|i: int| 0 <= i < r.len() && (#[trigger] r[i]).key == k;
            assert(s[i + 1].key == k);
        }
        assert forall|i: int| 0 <= i < s.len() && (#[trigger] s[i]).key == k implies m.contains_key(k)
            && m[k] == s[i].value by {
            if i > 0 {
                assert(r[i - 1] == s[i]);
                assert(key::key_lt(s[0].key, s[i].key));
                key::lemma_key_lt_irreflexive(k);
            }
        }
    }
}

/// A merge says about each key what `a` says, and where `a` says nothing, what `b` says.
pub proof fn lemma_merge2_map(a: Seq<VEntry>, b: Seq<VEntry>)
    requires
        key::sorted(a),
        key::sorted(b),
    ensures
        to_map(merge2(a, b)) == to_map(b).union_prefer_right(to_map(a)),
    decreases a.len() + b.len(),
{
    let m = merge2(a, b);
    let u = to_map(b).union_prefer_right(to_map(a));
    if a.len() == 0 || b.len() == 0 {
        assert(to_map(m) =~= u);
    } else {
        let ra = a.drop_first();
        let rb = b.drop_first();
        lemma_sorted_parts(a);
        lemma_sorted_parts(b);
        if key::key_lt(a[0].key, b[0].key) {
            lemma_merge2_map(ra, b);
            assert(m.drop_first() =~= merge2(ra, b));
            assert(to_map(m) =~= u);
        } else if key::key_lt(b[0].key, a[0].key) {
            lemma_merge2_map(a, rb);
            assert(m.drop_first() =~= merge2(a, rb));
            lemma_head_after(a, b[0].key);
            lemma_to_map_after(a, b[0].key);
            assert(to_map(m) =~= u);
        } else {
            key::lemma_key_total(a[0].key, b[0].key);
            lemma_merge2_map(ra, rb);
            assert(m.drop_first() =~= merge2(ra, rb));
            assert(to_map(m) =~= u);
        }
    }
}

/// What several maps say about each key: the first that says something counts.
pub open spec fn union_layers(layers: Seq<Map<VKey, Seq<u8>>>) -> Map<VKey, Seq<u8>>
    decreases layers.len(),
{
    if layers.len() == 0 {
        Map::empty()
    } else {
        union_layers(layers.drop_first()).union_prefer_right(layers[0])
    }
}

/// What each of several sequences says.
pub open spec fn maps_of(seqs: Seq<Seq<VEntry>>) -> Seq<Map<VKey, Seq<u8>>> {
    Seq::new(seqs.len(), |i: int| to_map(seqs[i]))
}

/// A merge of several sequences says about each key what the first that says something says.
pub proof fn lemma_merge_all_map(seqs: Seq<Seq<VEntry>>)
    requires
        all_sorted(seqs),
    ensures
        to_map(merge_all(seqs)) == union_layers(maps_of(seqs)),
    decreases seqs.len(),
{
    if seqs.len() > 0 {
        let rest = seqs.drop_first();
        assert forall|i: int| 0 <= i < rest.len() implies key::sorted(#[trigger] rest[i]) by {
            assert(rest[i] == seqs[i + 1]);
        }
        lemma_merge_all_map(rest);
        lemma_merge_all_sorted(rest);
        assert(key::sorted(seqs[0]));
        lemma_merge2_map(seqs[0], merge_all(rest));
        assert(maps_of(seqs).drop_first() =~= maps_of(rest));
    }
}

/// Layers can be united in two steps.
pub proof fn lemma_union_concat(a: Seq<Map<VKey, Seq<u8>>>, b: Seq<Map<VKey, Seq<u8>>>)
    ensures
        union_layers(a + b) == union_layers(b).union_prefer_right(union_layers(a)),
    decreases a.len(),
{
    if a.len() == 0 {
        assert(a + b =~= b);
        assert(union_layers(b).union_prefer_right(union_layers(a)) =~= union_layers(b));
    } else {
        lemma_union_concat(a.drop_first(), b);
        assert((a + b).drop_first() =~= a.drop_first() + b);
        assert(union_layers(a + b) =~= union_layers(b).union_prefer_right(union_layers(a)));
    }
}

/// One more layer at the end counts only where no other says something.
pub proof fn lemma_union_push(a: Seq<Map<VKey, Seq<u8>>>, m: Map<VKey, Seq<u8>>)
    ensures
        union_layers(a.push(m)) == m.union_prefer_right(union_layers(a)),
{
    lemma_union_concat(a, seq![m]);
    assert(a + seq![m] =~= a.push(m));
    assert(seq![m].drop_first() =~= Seq::empty());
    assert(union_layers(seq![m].drop_first()) =~= Map::empty());
    assert(union_layers(seq![m]) =~= m);
}

/// A key that no layer speaks of is not in the union, and every key of the union is in some layer.
pub proof fn lemma_union_contains(layers: Seq<Map<VKey, Seq<u8>>>, k: VKey)
    ensures
        union_layers(layers).contains_key(k) <==> exists|i: int|
            0 <= i < layers.len() && (#[trigger] layers[i]).contains_key(k),
    decreases layers.len(),
{
    if layers.len() > 0 {
        let rest = layers.drop_first();
        lemma_union_contains(rest, k);
        if union_layers(layers).contains_key(k) && !layers[0].contains_key(k) {
            let i = choose|i: int| 0 <= i < rest.len() && (#[trigger] rest[i]).contains_key(k);
            assert(layers[i + 1].contains_key(k));
        }
        if exists|i: int| 0 <= i < layers.len() && (#[trigger] layers[i]).contains_key(k) {
            let i = choose|i: int| 0 <= i < layers.len() && (#[trigger] layers[i]).contains_key(k);
            if i > 0 {
                assert(rest[i - 1] == layers[i]);
            }
        }
    }
}

/// Of a key, the union says what the first layer says that has it.
pub proof fn lemma_union_first(layers: Seq<Map<VKey, Seq<u8>>>, k: VKey, i: int)
    requires
        0 <= i < layers.len(),
        layers[i].contains_key(k),
        forall|j: int| 0 <= j < i ==> !(#[trigger] layers[j]).contains_key(k),
    ensures
        union_layers(layers).contains_key(k),
        union_layers(layers)[k] == layers[i][k],
    decreases layers.len(),
{
    if i > 0 {
        let rest = layers.drop_first();
        assert(!layers[0].contains_key(k));
        assert forall|j: int| 0 <= j < i - 1 implies !(#[trigger] rest[j]).contains_key(k) by {
            assert(rest[j] == layers[j + 1]);
        }
        lemma_union_first(rest, k, i - 1);
    }
}

/// `out` goes through all keys of the sequences, each once and in ascending order, and gives each the
/// value of the first sequence that has it.
pub open spec fn prefers_first(out: Seq<VEntry>, seqs: Seq<Seq<VEntry>>) -> bool {
    let m = to_map(out);
    &&& key::sorted(out)
    &&& forall|k: VKey| #[trigger]
        m.contains_key(k) <==> exists|i: int|
            0 <= i < seqs.len() && to_map(#[trigger] seqs[i]).contains_key(k)
    &&& forall|k: VKey, i: int|
        0 <= i < seqs.len() && #[trigger] to_map(seqs[i]).contains_key(k) && (forall|j: int|
            0 <= j < i ==> !to_map(#[trigger] seqs[j]).contains_key(k)) ==> m[k] == to_map(
            seqs[i],
        )[k]
}

/// A merge of sorted sequences goes through all of their keys, each once and in ascending order, and
/// gives each the value of the first sequence that has it.
pub proof fn lemma_merge_prefers_first(seqs: Seq<Seq<VEntry>>)
    requires
        all_sorted(seqs),
    ensures
        prefers_first(merge_all(seqs), seqs),
{
    let maps = maps_of(seqs);
    let m = to_map(merge_all(seqs));
    lemma_merge_all_sorted(seqs);
    lemma_merge_all_map(seqs);
    assert forall|k: VKey| #[trigger] m.contains_key(k) <==> exists|i: int|
        0 <= i < seqs.len() && to_map(#[trigger] seqs[i]).contains_key(k) by {
        lemma_union_contains(maps, k);
        if m.contains_key(k) {
            let i = choose|i: int| 0 <= i < maps.len() && (#[trigger] maps[i]).contains_key(k);
            assert(to_map(seqs[i]).contains_key(k));
        }
        if exists|i: int| 0 <= i < seqs.len() && to_map(#[trigger] seqs[i]).contains_key(k) {
            let i = choose|i: int|
                0 <= i < seqs.len() && to_map(#[trigger] seqs[i]).contains_key(k);
            assert(maps[i].contains_key(k));
        }
    }
    assert forall|k: VKey, i: int|
        0 <= i < seqs.len() && #[trigger] to_map(seqs[i]).contains_key(k) && (forall|j: int|
            0 <= j < i ==> !to_map(#[trigger] seqs[j]).contains_key(k)) implies m[k] == to_map(
        seqs[i],
    )[k] by {
        assert(maps[i].contains_key(k));
        assert forall|j: int| 0 <= j < i implies !(#[trigger] maps[j]).contains_key(k) by {
            assert(!to_map(seqs[j]).contains_key(k));
        }
        lemma_union_first(maps, k, i);
    }
}

/// A merge of two sorted sequences goes through all of their keys, each once and in ascending order.
/// Where both have a key, the entry of the first one counts.
pub proof fn lemma_merge2_prefers_first(a: Seq<VEntry>, b: Seq<VEntry>)
    requires
        key::sorted(a),
        key::sorted(b),
    ensures
        prefers_first(merge2(a, b), seq![a, b]),
{
    let seqs = seq![a, b];
    lemma_merge_prefers_first(seqs);
    assert(seqs.drop_first() =~= seq![b]);
    assert(seq![b].drop_first() =~= Seq::empty());
    lemma_merge2_empty(b);
    assert(merge_all(seq![b].drop_first()) =~= Seq::empty());
    assert(merge_all(seq![b]) =~= b);
    assert(merge_all(seqs) == merge2(a, b));
}

/// Two maps say the same about every version of the user keys between two ends.
pub open spec fn agree(
    a: Map<VKey, Seq<u8>>,
    b: Map<VKey, Seq<u8>>,
    lower: Bound<Seq<u8>>,
    upper: Bound<Seq<u8>>,
) -> bool {
    forall|k: VKey|
        #![trigger a.contains_key(k)]
        #![trigger b.contains_key(k)]
        bound::above(lower, k.key) && bound::below(upper, k.key) ==> (a.contains_key(k)
            <==> b.contains_key(k)) && (a.contains_key(k) ==> a[k] == b[k])
}

/// Maps that agree pairwise agree when united.
pub proof fn lemma_agree_union(
    a: Map<VKey, Seq<u8>>,
    b: Map<VKey, Seq<u8>>,
    c: Map<VKey, Seq<u8>>,
    d: Map<VKey, Seq<u8>>,
    lower: Bound<Seq<u8>>,
    upper: Bound<Seq<u8>>,
)
    requires
        agree(a, b, lower, upper),
        agree(c, d, lower, upper),
    ensures
        agree(a.union_prefer_right(c), b.union_prefer_right(d), lower, upper),
{
    let x = a.union_prefer_right(c);
    let y = b.union_prefer_right(d);
    assert forall|k: VKey|
        #![trigger x.contains_key(k)]
        #![trigger y.contains_key(k)]
        bound::above(lower, k.key) && bound::below(upper, k.key) implies (x.contains_key(k)
        <==> y.contains_key(k)) && (x.contains_key(k) ==> x[k] == y[k]) by {
        assert(a.contains_key(k) <==> b.contains_key(k));
        assert(c.contains_key(k) <==> d.contains_key(k));
    }
}

/// Sorted sequences that say the same about all keys are equal.
pub proof fn lemma_sorted_unique(a: Seq<VEntry>, b: Seq<VEntry>)
    requires
        key::sorted(a),
        key::sorted(b),
        to_map(a) == to_map(b),
    ensures
        a == b,
    decreases a.len() + b.len(),
{
    if a.len() == 0 && b.len() == 0 {
        assert(a =~= b);
    } else if a.len() == 0 {
        assert(to_map(b).contains_key(b[0].key));
    } else if b.len() == 0 {
        assert(to_map(a).contains_key(a[0].key));
    } else {
        let ra = a.drop_first();
        let rb = b.drop_first();
        lemma_sorted_parts(a);
        lemma_sorted_parts(b);
        assert(to_map(a).contains_key(a[0].key));
        assert(to_map(b).contains_key(b[0].key));
        key::lemma_key_total(a[0].key, b[0].key);
        if key::key_lt(a[0].key, b[0].key) {
            lemma_head_after(b, a[0].key);
            lemma_to_map_after(b, a[0].key);
        } else if key::key_lt(b[0].key, a[0].key) {
            lemma_head_after(a, b[0].key);
            lemma_to_map_after(a, b[0].key);
        }
        lemma_to_map_after(ra, a[0].key);
        lemma_to_map_after(rb, b[0].key);
        assert(to_map(ra) =~= to_map(a).remove(a[0].key));
        assert(to_map(rb) =~= to_map(b).remove(b[0].key));
        lemma_sorted_unique(ra, rb);
        assert(to_map(a)[a[0].key] == a[0].value);
        assert(to_map(b)[b[0].key] == b[0].value);
        assert(a =~= seq![a[0]] + ra);
        assert(b =~= seq![b[0]] + rb);
        assert(a[0] =~= b[0]);
    }
}

/// The sorted entries that say what the map says.
pub open spec fn sorted_entries(m: Map<VKey, Seq<u8>>) -> Seq<VEntry> {
    choose|s: Seq<VEntry>| key::sorted(s) && #[trigger] to_map(s) == m
}

/// There is only one way to sort entries.
pub proof fn lemma_sorted_entries(s: Seq<VEntry>)
    requires
        key::sorted(s),
    ensures
        sorted_entries(to_map(s)) == s,
{
    let t = sorted_entries(to_map(s));
    assert(key::sorted(s) && to_map(s) == to_map(s));
    lemma_sorted_unique(t, s);
}

/// The entries with a value.
pub open spec fn live(s: Seq<VEntry>) -> Seq<VEntry>
    decreases s.len(),
{
    if s.len() == 0 {
        s
    } else if s[0].value.len() == 0 {
        live(s.drop_first())
    } else {
        seq![s[0]] + live(s.drop_first())
    }
}

/// Entries with a value stay in order, behind what all entries are behind.
pub proof fn lemma_live(s: Seq<VEntry>)
    requires
        key::sorted(s),
    ensures
        key::sorted(live(s)),
        forall|k: VKey| all_after(s, k) ==> #[trigger] all_after(live(s), k),
        forall|k: VKey| #[trigger]
            to_map(live(s)).contains_key(k) <==> to_map(s).contains_key(k)
                && to_map(s)[k].len() > 0,
        forall|k: VKey| #[trigger]
            to_map(live(s)).contains_key(k) ==> to_map(live(s))[k]
                == to_map(s)[k],
    decreases s.len(),
{
    if s.len() > 0 {
        let r = s.drop_first();
        lemma_sorted_parts(s);
        lemma_live(r);
        lemma_to_map_after(r, s[0].key);
        assert forall|k: VKey| all_after(s, k) implies #[trigger] all_after(
            live(s),
            k,
        ) by {
            assert forall|i: int| 0 <= i < r.len() implies key::key_lt(
                k,
                (#[trigger] r[i]).key,
            ) by {
                assert(r[i] == s[i + 1]);
            }
            assert(all_after(r, k));
            assert(all_after(live(r), k));
            if s[0].value.len() > 0 {
                let l = live(s);
                assert forall|i: int| 0 <= i < l.len() implies key::key_lt(
                    k,
                    (#[trigger] l[i]).key,
                ) by {
                    if i > 0 {
                        assert(l[i] == live(r)[i - 1]);
                    } else {
                        assert(key::key_lt(k, s[0].key));
                    }
                }
            }
        }
        if s[0].value.len() > 0 {
            assert(all_after(live(r), s[0].key));
            lemma_sorted_cons(s[0], live(r));
            assert(live(s).drop_first() =~= live(r));
        }
        let a = to_map(s);
        let b = to_map(live(s));
        assert forall|k: VKey|
            (#[trigger] b.contains_key(k) <==> a.contains_key(k) && a[k].len() > 0) && (
            b.contains_key(k) ==> b[k] == a[k]) by {
            assert(to_map(live(r)).contains_key(k) <==> to_map(r).contains_key(k)
                && to_map(r)[k].len() > 0);
        }
    }
}

/// Which entries have a value does not depend on what stands before them.
pub proof fn lemma_live_concat(a: Seq<VEntry>, b: Seq<VEntry>)
    ensures
        live(a + b) == live(a) + live(b),
    decreases a.len(),
{
    if a.len() == 0 {
        assert(a + b =~= b);
        assert(live(a) + live(b) =~= live(b));
    } else {
        lemma_live_concat(a.drop_first(), b);
        assert((a + b).drop_first() =~= a.drop_first() + b);
        assert(live(a + b) =~= live(a) + live(b));
    }
}

pub proof fn lemma_live_len(s: Seq<VEntry>)
    ensures
        live(s).len() <= s.len(),
    decreases s.len(),
{
    if s.len() > 0 {
        lemma_live_len(s.drop_first());
    }
}

/// Merging adds no entries.
pub proof fn lemma_merge2_fits(a: Seq<VEntry>, b: Seq<VEntry>)
    requires
        block::entries_fit(a),
        block::entries_fit(b),
    ensures
        block::entries_fit(merge2(a, b)),
    decreases a.len() + b.len(),
{
    if a.len() > 0 && b.len() > 0 {
        let ra = a.drop_first();
        let rb = b.drop_first();
        assert(block::entry_fits(a[0]));
        assert(block::entry_fits(b[0]));
        assert forall|i: int| 0 <= i < ra.len() implies block::entry_fits(#[trigger] ra[i]) by {
            assert(ra[i] == a[i + 1]);
        }
        assert forall|i: int| 0 <= i < rb.len() implies block::entry_fits(#[trigger] rb[i]) by {
            assert(rb[i] == b[i + 1]);
        }
        let m = merge2(a, b);
        if key::key_lt(a[0].key, b[0].key) {
            lemma_merge2_fits(ra, b);
            lemma_cons_fits(a[0], merge2(ra, b));
        } else if key::key_lt(b[0].key, a[0].key) {
            lemma_merge2_fits(a, rb);
            lemma_cons_fits(b[0], merge2(a, rb));
        } else {
            lemma_merge2_fits(ra, rb);
            lemma_cons_fits(a[0], merge2(ra, rb));
        }
    }
}

proof fn lemma_cons_fits(e: VEntry, s: Seq<VEntry>)
    requires
        block::entry_fits(e),
        block::entries_fit(s),
    ensures
        block::entries_fit(seq![e] + s),
{
    let all = seq![e] + s;
    assert forall|i: int| 0 <= i < all.len() implies block::entry_fits(#[trigger] all[i]) by {
        if i > 0 {
            assert(all[i] == s[i - 1]);
        }
    }
}

pub proof fn lemma_merge_all_fits(seqs: Seq<Seq<VEntry>>)
    requires
        forall|i: int| 0 <= i < seqs.len() ==> block::entries_fit(#[trigger] seqs[i]),
    ensures
        block::entries_fit(merge_all(seqs)),
    decreases seqs.len(),
{
    if seqs.len() > 0 {
        let rest = seqs.drop_first();
        assert forall|i: int| 0 <= i < rest.len() implies block::entries_fit(#[trigger] rest[i]) by {
            assert(rest[i] == seqs[i + 1]);
        }
        lemma_merge_all_fits(rest);
        assert(block::entries_fit(seqs[0]));
        lemma_merge2_fits(seqs[0], merge_all(rest));
    }
}

} // verus!
