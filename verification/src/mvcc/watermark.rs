//! Which timestamps are being read at.
use vstd::prelude::*;

verus! {

/// The timestamps of the readers that are not done yet.
pub struct Watermark {
    pub readers: Vec<u64>,
}

/// The readers without the first one at `ts`.
pub open spec fn without_one(readers: Seq<u64>, ts: u64) -> Seq<u64> {
    if readers.contains(ts) {
        readers.remove(readers.index_of_first(ts)->0)
    } else {
        readers
    }
}

/// A reader that has come and gone leaves the readers that there were.
pub proof fn lemma_reader_leaves(readers: Seq<u64>, ts: u64)
    ensures
        without_one(readers.push(ts), ts).to_multiset() == readers.to_multiset(),
{
    let more = readers.push(ts);
    assert(more[readers.len() as int] == ts);
    more.index_of_first_ensures(ts);
    let i = more.index_of_first(ts)->0;
    readers.to_multiset_ensures();
    more.to_multiset_ensures();
    assert(more.remove(i).to_multiset() =~= more.to_multiset().remove(ts));
    assert(without_one(more, ts).to_multiset() =~= readers.to_multiset());
}

/// One reader at the timestamp leaves, where there is one, and no other.
pub proof fn lemma_one_leaves(readers: Seq<u64>, ts: u64)
    ensures
        !readers.contains(ts) ==> without_one(readers, ts) == readers,
        readers.contains(ts) ==> without_one(readers, ts).to_multiset()
            == readers.to_multiset().remove(ts),
        readers.contains(ts) ==> without_one(readers, ts).len() == readers.len() - 1,
        forall|t: u64|
            #![trigger readers.contains(t)]
            t != ts ==> (without_one(readers, ts).contains(t) <==> readers.contains(t)),
{
    readers.to_multiset_ensures();
    readers.index_of_first_ensures(ts);
    if readers.contains(ts) {
        let i = readers.index_of_first(ts)->0;
        let left = readers.remove(i);
        assert(left.to_multiset() =~= readers.to_multiset().remove(ts));
        assert forall|t: u64| #![trigger readers.contains(t)] t != ts implies (
        left.contains(t) <==> readers.contains(t)) by {
            if readers.contains(t) {
                let j = readers.index_of(t);
                if j < i {
                    assert(left[j] == t);
                } else {
                    assert(left[j - 1] == t);
                }
            }
            if left.contains(t) {
                let j = left.index_of(t);
                if j < i {
                    assert(readers[j] == t);
                } else {
                    assert(readers[j + 1] == t);
                }
            }
        }
    }
}

impl Watermark {
    pub fn new() -> (r: Self)
        ensures
            r.readers@ == Seq::<u64>::empty(),
    {
        Self { readers: Vec::new() }
    }

    /// One more reader at `ts`.
    pub fn add_reader(&mut self, ts: u64)
        ensures
            final(self).readers@ == old(self).readers@.push(ts),
    {
        self.readers.push(ts);
    }

    /// One reader less at `ts`, where there is one.
    pub fn remove_reader(&mut self, ts: u64)
        ensures
            final(self).readers@ == without_one(old(self).readers@, ts),
    {
        let mut i: usize = 0;
        while i < self.readers.len()
            invariant
                i <= self.readers@.len(),
                self.readers@ == old(self).readers@,
                forall|j: int| 0 <= j < i ==> self.readers@[j] != ts,
            decreases self.readers@.len() - i,
        {
            if self.readers[i] == ts {
                proof {
                    assert(self.readers@[i as int] == ts);
                    self.readers@.index_of_first_ensures(ts);
                }
                self.readers.remove(i);
                return;
            }
            i = i + 1;
        }
    }

    /// The lowest timestamp that is being read at.
    pub fn watermark(&self) -> (r: Option<u64>)
        ensures
            r is None <==> self.readers@.len() == 0,
            r matches Some(ts) ==> self.readers@.contains(ts) && forall|i: int|
                0 <= i < self.readers@.len() ==> ts <= #[trigger] self.readers@[i],
    {
        if self.readers.len() == 0 {
            return None;
        }
        let mut lowest: u64 = self.readers[0];
        let mut i: usize = 1;
        assert(self.readers@[0] == lowest);
        while i < self.readers.len()
            invariant
                1 <= i <= self.readers@.len(),
                self.readers@.contains(lowest),
                forall|j: int| 0 <= j < i ==> lowest <= #[trigger] self.readers@[j],
            decreases self.readers@.len() - i,
        {
            if self.readers[i] < lowest {
                lowest = self.readers[i];
                assert(self.readers@[i as int] == lowest);
            }
            i = i + 1;
        }
        Some(lowest)
    }
}

} // verus!
