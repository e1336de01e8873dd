use vstd::prelude::*;
use vstd::multiset::Multiset;

use crate::scored_candidate::{scores_descending, sort_descending, ScoredCandidate};

verus! {

broadcast use vstd::seq_lib::group_to_multiset_ensures, vstd::multiset::group_multiset_axioms;

/// Keeps the `length` highest-scoring candidates pushed into it.
pub struct FixedLengthPriorityQueue {
    heap: Vec<ScoredCandidate>,
    length: usize,
}

/// `c` is in `m` and no candidate of `m` scores lower.
pub open spec fn is_lowest(m: Multiset<ScoredCandidate>, c: ScoredCandidate) -> bool {
    &&& m.count(c) > 0
    &&& forall|x: ScoredCandidate| m.count(x) > 0 ==> c.score <= x.score
}

impl FixedLengthPriorityQueue {
    /// The candidates kept.
    pub closed spec fn contents(&self) -> Multiset<ScoredCandidate> {
        self.heap@.to_multiset()
    }

    /// How many candidates are kept at most.
    pub closed spec fn capacity(&self) -> nat {
        self.length as nat
    }

    /// At most `capacity` candidates, and a capacity of at least one.
    pub open spec fn wf(&self) -> bool {
        &&& self.capacity() > 0
        &&& self.contents().len() <= self.capacity()
    }

    pub fn new(length: usize) -> (r: FixedLengthPriorityQueue)
        requires
            length > 0,
        ensures
            r.wf(),
            r.contents() == Multiset::<ScoredCandidate>::empty(),
            r.capacity() == length,
    {
        let r = FixedLengthPriorityQueue { heap: Vec::new(), length };
        assert(r.heap@ =~= Seq::<ScoredCandidate>::empty());
        r
    }

    /// Offers a candidate. Below capacity it is kept and `None` comes back. At capacity it
    /// replaces a lowest-scoring kept candidate if it scores higher than that one, which
    /// comes back; otherwise it is refused and comes back itself.
    pub fn push(&mut self, value: ScoredCandidate) -> (r: Option<ScoredCandidate>)
        requires
            old(self).wf(),
        ensures
            final(self).wf(),
            final(self).capacity() == old(self).capacity(),
            old(self).contents().len() < old(self).capacity() ==> {
                &&& r is None
                &&& final(self).contents() == old(self).contents().insert(value)
            },
            old(self).contents().len() >= old(self).capacity() ==> (exists|m: ScoredCandidate|
                {
                    &&& is_lowest(old(self).contents(), m)
                    &&& if m.score < value.score {
                        &&& r == Some(m)
                        &&& final(self).contents() == old(self).contents().insert(value).remove(m)
                    } else {
                        &&& r == Some(value)
                        &&& final(self).contents() == old(self).contents()
                    }
                }),
    {
        proof {
            vstd::seq_lib::to_multiset_len(self.heap@);
        }
        if self.heap.len() < self.length {
            self.heap.push(value);
            proof {
                vstd::seq_lib::to_multiset_len(self.heap@);
            }
            return None;
        }
        let idx = self.lowest_index();
        let m = self.heap[idx];
        let ghost s = self.heap@;
        proof {
            assert(s.contains(m));
            assert forall|x: ScoredCandidate| s.to_multiset().count(x) > 0 implies m.score <= x.score by {
                assert(s.contains(x));
            }
            assert(is_lowest(s.to_multiset(), m));
        }
        if m.score < value.score {
            self.heap.set(idx, value);
            proof {
                vstd::seq_lib::to_multiset_len(self.heap@);
                assert(s.update(idx as int, value) == self.heap@);
                assert(self.heap@.to_multiset() == s.to_multiset().insert(value).remove(m));
            }
            Some(m)
        } else {
            Some(value)
        }
    }

    /// The position of a lowest-scoring candidate.
    fn lowest_index(&self) -> (r: usize)
        requires
            self.heap.len() > 0,
        ensures
            r < self.heap.len(),
            forall|k: int| 0 <= k < self.heap.len() ==> self.heap@[r as int].score <= (#[trigger] self.heap@[k]).score,
    {
        let mut best: usize = 0;
        let mut i: usize = 1;
        while i < self.heap.len()
            invariant
                1 <= i <= self.heap.len(),
                best < self.heap.len(),
                forall|k: int| 0 <= k < i ==> self.heap@[best as int].score <= (#[trigger] self.heap@[k]).score,
            decreases self.heap.len() - i,
        {
            if self.heap[i].score < self.heap[best].score {
                best = i;
            }
            i += 1;
        }
        best
    }

    /// Consumes the queue; its candidates, highest score first.
    pub fn into_vec(self) -> (r: Vec<ScoredCandidate>)
        ensures
            r@.to_multiset() == self.contents(),
            scores_descending(r@),
    {
        let mut v = self.heap;
        sort_descending(&mut v);
        v
    }

    /// A lowest-scoring kept candidate: the score a new one must beat once the queue is full.
    pub fn top(&self) -> (r: Option<ScoredCandidate>)
        ensures
            self.contents().len() == 0 <==> r is None,
            r matches Some(c) ==> is_lowest(self.contents(), c),
    {
        proof {
            vstd::seq_lib::to_multiset_len(self.heap@);
        }
        if self.heap.len() == 0 {
            return None;
        }
        let idx = self.lowest_index();
        let m = self.heap[idx];
        proof {
            let s = self.heap@;
            assert(s.contains(m));
            assert forall|x: ScoredCandidate| s.to_multiset().count(x) > 0 implies m.score <= x.score by {
                assert(s.contains(x));
            }
        }
        Some(m)
    }

    /// The number of candidates kept.
    pub fn len(&self) -> (r: usize)
        ensures
            r == self.contents().len(),
    {
        proof {
            vstd::seq_lib::to_multiset_len(self.heap@);
        }
        self.heap.len()
    }
}

} // verus!
