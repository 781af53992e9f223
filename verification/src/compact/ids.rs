//! Lists of table ids.
use vstd::prelude::*;

verus! {

/// The ids of `s` that are in `t`, in the order of `s`.
pub open spec fn common(s: Seq<usize>, t: Seq<usize>) -> Seq<usize>
    decreases s.len(),
{
    if s.len() == 0 {
        Seq::empty()
    } else if t.contains(s.last()) {
        common(s.drop_last(), t).push(s.last())
    } else {
        common(s.drop_last(), t)
    }
}

/// The ids of `s` that are not in `t`, in the order of `s`.
pub open spec fn without(s: Seq<usize>, t: Seq<usize>) -> Seq<usize>
    decreases s.len(),
{
    if s.len() == 0 {
        Seq::empty()
    } else if t.contains(s.last()) {
        without(s.drop_last(), t)
    } else {
        without(s.drop_last(), t).push(s.last())
    }
}

/// The ids of all tiers, one tier after another.
pub open spec fn tier_ids(tiers: Seq<(usize, Vec<usize>)>) -> Seq<usize>
    decreases tiers.len(),
{
    if tiers.len() == 0 {
        Seq::empty()
    } else {
        tier_ids(tiers.drop_last()) + tiers.last().1@
    }
}

/// Levels of which only the numbers and the ids count.
pub open spec fn same_levels(a: Seq<(usize, Vec<usize>)>, b: Seq<(usize, Vec<usize>)>) -> bool {
    a.len() == b.len() && forall|i: int|
        0 <= i < a.len() ==> (#[trigger] a[i]).0 == b[i].0 && a[i].1@ == b[i].1@
}

/// Which ids stay when others are left out.
pub proof fn lemma_without(s: Seq<usize>, t: Seq<usize>, x: usize)
    ensures
        without(s, t).contains(x) <==> s.contains(x) && !t.contains(x),
        common(s, t).contains(x) <==> s.contains(x) && t.contains(x),
    decreases s.len(),
{
    if s.len() > 0 {
        lemma_without(s.drop_last(), t, x);
        let l = s.last();
        assert(s =~= s.drop_last().push(l));
        assert(s.contains(x) <==> s.drop_last().contains(x) || x == l) by {
            if s.contains(x) && x != l {
                let i = s.index_of(x);
                assert(s.drop_last()[i] == x);
            }
            if s.drop_last().contains(x) {
                let i = s.drop_last().index_of(x);
                assert(s[i] == x);
            }
            assert(s[s.len() - 1] == l);
        }
        let w = without(s.drop_last(), t);
        let c = common(s.drop_last(), t);
        assert(w.push(l).contains(x) <==> w.contains(x) || x == l) by {
            lemma_push_contains(w, l, x);
        }
        assert(c.push(l).contains(x) <==> c.contains(x) || x == l) by {
            lemma_push_contains(c, l, x);
        }
    }
}

pub proof fn lemma_push_contains(s: Seq<usize>, l: usize, x: usize)
    ensures
        s.push(l).contains(x) <==> s.contains(x) || x == l,
{
    let p = s.push(l);
    assert(p[s.len() as int] == l);
    if s.contains(x) {
        let i = s.index_of(x);
        assert(p[i] == x);
    }
    if p.contains(x) && x != l {
        let i = p.index_of(x);
        assert(s[i] == x);
    }
}

/// Whether the list holds the id.
pub fn contains_id(ids: &Vec<usize>, id: usize) -> (r: bool)
    ensures
        r == ids@.contains(id),
{
    let mut i: usize = 0;
    while i < ids.len()
        invariant
            i <= ids@.len(),
            forall|j: int| 0 <= j < i ==> ids@[j] != id,
        decreases ids@.len() - i,
    {
        if ids[i] == id {
            assert(ids@[i as int] == id);
            return true;
        }
        i = i + 1;
    }
    false
}

/// A copy of a list of ids.
pub fn copy_ids(ids: &[usize]) -> (r: Vec<usize>)
    ensures
        r@ == ids@,
{
    let mut out: Vec<usize> = Vec::new();
    out.extend_from_slice(ids);
    assert(out@ =~= ids@);
    out
}

/// Appends a list of ids to another.
pub fn append_ids(to: &mut Vec<usize>, ids: &[usize])
    ensures
        final(to)@ == old(to)@ + ids@,
{
    to.extend_from_slice(ids);
    assert(to@ =~= old(to)@ + ids@);
}

/// The ids of `s` that are in `t` and those that are not.
pub fn partition_ids(s: &Vec<usize>, t: &Vec<usize>) -> (r: (Vec<usize>, Vec<usize>))
    ensures
        r.0@ == common(s@, t@),
        r.1@ == without(s@, t@),
{
    let mut in_t: Vec<usize> = Vec::new();
    let mut not_in_t: Vec<usize> = Vec::new();
    let mut i: usize = 0;
    assert(s@.take(0) =~= Seq::empty());
    while i < s.len()
        invariant
            i <= s@.len(),
            in_t@ == common(s@.take(i as int), t@),
            not_in_t@ == without(s@.take(i as int), t@),
        decreases s@.len() - i,
    {
        assert(s@.take(i + 1).drop_last() =~= s@.take(i as int));
        if contains_id(t, s[i]) {
            in_t.push(s[i]);
        } else {
            not_in_t.push(s[i]);
        }
        i = i + 1;
    }
    assert(s@.take(i as int) =~= s@);
    (in_t, not_in_t)
}

/// The ids of all tiers, one tier after another.
pub fn collect_tier_ids(tiers: &[(usize, Vec<usize>)]) -> (r: Vec<usize>)
    ensures
        r@ == tier_ids(tiers@),
{
    let mut out: Vec<usize> = Vec::new();
    let mut i: usize = 0;
    assert(tiers@.take(0) =~= Seq::empty());
    while i < tiers.len()
        invariant
            i <= tiers@.len(),
            out@ == tier_ids(tiers@.take(i as int)),
        decreases tiers@.len() - i,
    {
        append_ids(&mut out, tiers[i].1.as_slice());
        assert(tiers@.take(i + 1).drop_last() =~= tiers@.take(i as int));
        i = i + 1;
    }
    assert(tiers@.take(i as int) =~= tiers@);
    out
}

/// A copy of the first `n` levels.
pub fn copy_levels(levels: &Vec<(usize, Vec<usize>)>, n: usize) -> (r: Vec<(usize, Vec<usize>)>)
    requires
        n <= levels@.len(),
    ensures
        same_levels(r@, levels@.take(n as int)),
{
    let mut out: Vec<(usize, Vec<usize>)> = Vec::new();
    let mut i: usize = 0;
    while i < n
        invariant
            i <= n <= levels@.len(),
            out@.len() == i,
            forall|j: int|
                0 <= j < i ==> (#[trigger] out@[j]).0 == levels@[j].0 && out@[j].1@ == levels@[j].1@,
        decreases n - i,
    {
        out.push((levels[i].0, copy_ids(levels[i].1.as_slice())));
        i = i + 1;
    }
    out
}

} // verus!
