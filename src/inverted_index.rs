use vstd::prelude::*;
use std::collections::HashMap;

use crate::posting::{ids_ascending, max_next_correct, PostingElement, PostingList};
use crate::types::DimId;

verus! {

broadcast use vstd::std_specs::hash::group_hash_axioms;

/// A valid posting list: ids strictly ascending, every `max_next_weight` correct.
pub open spec fn posting_wf(s: Seq<PostingElement>) -> bool {
    ids_ascending(s) && max_next_correct(s)
}

/// Posting lists held densely: the list of dimension `d` stands at position `d`.
pub struct InvertedIndexRam {
    pub postings: Vec<PostingList>,
}

impl InvertedIndexRam {
    /// Every posting list is valid.
    pub open spec fn wf(&self) -> bool {
        forall|d: int| 0 <= d < self.postings.len() ==> #[trigger] self.postings[d].wf()
    }

    /// The entries of dimension `d`, or `None` past the end of the table.
    pub open spec fn spec_get(&self, d: DimId) -> Option<Seq<PostingElement>> {
        if (d as int) < self.postings.len() {
            Some(self.postings[d as int].elements@)
        } else {
            None
        }
    }

    /// The posting list of dimension `id`, or `None` past the end of the table.
    pub fn get(&self, id: &DimId) -> (r: Option<&PostingList>)
        ensures
            match r {
                Some(p) => (*id as int) < self.postings.len() && p == &self.postings[*id as int],
                None => (*id as int) >= self.postings.len(),
            },
    {
        if (*id as usize) < self.postings.len() {
            Some(&self.postings[*id as usize])
        } else {
            None
        }
    }
}

/// Collects one posting list per dimension, in any order, and lays them out densely.
pub struct InvertedIndexBuilder {
    postings: HashMap<DimId, PostingList>,
    size: u64,
}

/// The length of the dense table for the dimensions in `dims`: one past the largest,
/// and one for no dimension at all.
pub open spec fn table_len(dims: Set<DimId>) -> int {
    if dims.is_empty() {
        1
    } else {
        (choose|m: DimId| dims.contains(m) && forall|k: DimId| dims.contains(k) ==> k <= m) + 1
    }
}

impl View for InvertedIndexBuilder {
    type V = Map<DimId, Seq<PostingElement>>;

    /// The posting list added for each dimension.
    closed spec fn view(&self) -> Map<DimId, Seq<PostingElement>> {
        self.postings@.map_values(|p: PostingList| p.elements@)
    }
}

impl InvertedIndexBuilder {
    /// `size` is one past the largest dimension added, zero when none was.
    pub closed spec fn wf(&self) -> bool {
        &&& (self.size == 0 <==> self.postings@.dom().is_empty())
        &&& forall|k: DimId| #[trigger] self.postings@.contains_key(k) ==> (k as int) < self.size
        &&& self.size > 0 ==> self.postings@.contains_key((self.size - 1) as DimId)
        &&& self.size <= 0x1_0000_0000
    }

    pub fn new() -> (r: InvertedIndexBuilder)
        ensures
            r.wf(),
            r@ == Map::<DimId, Seq<PostingElement>>::empty(),
    {
        let r = InvertedIndexBuilder { postings: HashMap::new(), size: 0 };
        assert(r@ =~= Map::<DimId, Seq<PostingElement>>::empty());
        r
    }

    /// Sets the posting list of dimension `id`, replacing one added before.
    pub fn add(&mut self, id: DimId, posting: PostingList) -> (r: &mut Self)
        requires
            old(self).wf(),
        ensures
            r.wf(),
            r@ == old(self)@.insert(id, posting.elements@),
            *final(self) == *final(r),
    {
        let ghost elements = posting.elements@;
        self.postings.insert(id, posting);
        if id as u64 >= self.size {
            self.size = id as u64 + 1;
        }
        assert(self@ =~= old(self)@.insert(id, elements));
        self
    }

    /// Lays the posting lists out densely; dimensions without a list get an empty one.
    /// The builder is left empty.
    pub fn build(&mut self) -> (r: InvertedIndexRam)
        requires
            old(self).wf(),
        ensures
            r.postings.len() == table_len(old(self)@.dom()),
            forall|d: DimId| #[trigger] old(self)@.contains_key(d) ==> (d as int) < r.postings.len(),
            forall|d: int|
                0 <= d < r.postings.len() ==> (#[trigger] r.postings[d]).elements@ == (if old(
                    self,
                )@.contains_key(d as DimId) {
                    old(self)@[d as DimId]
                } else {
                    Seq::<PostingElement>::empty()
                }),
            (forall|d: DimId| #[trigger] old(self)@.contains_key(d) ==> posting_wf(old(self)@[d]))
                ==> r.wf(),
            final(self).wf(),
            final(self)@ == Map::<DimId, Seq<PostingElement>>::empty(),
    {
        let ghost m0 = old(self).postings@;
        let ghost m = old(self)@;
        let size = self.size;
        let mut postings: Vec<PostingList> = Vec::new();
        let mut d: u64 = 0;
        while d < size
            invariant
                old(self).wf(),
                size == old(self).size,
                m0 == old(self).postings@,
                m == old(self)@,
                d <= size,
                postings.len() == d,
                forall|k: DimId| #[trigger] self.postings@.contains_key(k) ==> (k as int) >= d && m0.contains_key(k),
                forall|k: DimId| (k as int) >= d ==> (#[trigger] self.postings@.contains_key(k) <==> m0.contains_key(k)),
                forall|k: DimId| (k as int) >= d && #[trigger] self.postings@.contains_key(k) ==> self.postings@[k] == m0[k],
                forall|k: int|
                    0 <= k < d ==> (#[trigger] postings[k]).elements@ == (if m.contains_key(k as DimId) {
                        m[k as DimId]
                    } else {
                        Seq::<PostingElement>::empty()
                    }),
            decreases size - d,
        {
            let key = d as DimId;
            match self.postings.remove(&key) {
                Some(p) => postings.push(p),
                None => postings.push(PostingList::empty()),
            }
            d += 1;
        }
        self.size = 0;
        proof {
            assert(self.postings@.dom() =~= Set::<DimId>::empty());
            assert(self@ =~= Map::<DimId, Seq<PostingElement>>::empty());
            if !m.dom().is_empty() {
                let top = (size - 1) as DimId;
                assert(m.dom().contains(top));
                assert(forall|k: DimId| m.dom().contains(k) ==> k <= top);
                let c = choose|c: DimId| m.dom().contains(c) && forall|k: DimId| m.dom().contains(k) ==> k <= c;
                assert(c <= top && top <= c);
            } else {
                assert(m0.dom().is_empty()) by {
                    if !m0.dom().is_empty() {
                        let k = m0.dom().choose();
                        assert(m.dom().contains(k));
                    }
                }
            }
        }
        if postings.len() == 0 {
            postings.push(PostingList::empty());
        }
        InvertedIndexRam { postings }
    }
}

} // verus!
