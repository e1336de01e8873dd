use vstd::prelude::*;
use std::collections::HashMap;

use crate::types::{DimId, RecordId};
use crate::vector::SparseVector;

verus! {

broadcast use vstd::std_specs::hash::group_hash_axioms;

/// For each dimension, the records that populate it, in the order they were added.
pub struct MutableSparseVectorIndex {
    pub map: HashMap<DimId, Vec<RecordId>>,
    dims: Vec<DimId>,
}

/// The records listed under `d`, empty where `d` has no list.
pub open spec fn ids_under(m: Map<DimId, Seq<RecordId>>, d: DimId) -> Seq<RecordId> {
    if m.contains_key(d) {
        m[d]
    } else {
        Seq::empty()
    }
}

impl View for MutableSparseVectorIndex {
    type V = Map<DimId, Seq<RecordId>>;

    /// The list of records under each dimension.
    closed spec fn view(&self) -> Map<DimId, Seq<RecordId>> {
        self.map@.map_values(|v: Vec<RecordId>| v@)
    }
}

impl MutableSparseVectorIndex {
    /// The dimensions that have a list, each once.
    pub closed spec fn dims(&self) -> Seq<DimId> {
        self.dims@
    }

    /// `dims` lists exactly the dimensions of the map, each once.
    pub closed spec fn wf(&self) -> bool {
        &&& self.dims@.no_duplicates()
        &&& forall|d: DimId| self.map@.contains_key(d) <==> self.dims@.contains(d)
    }

    pub fn new() -> (r: MutableSparseVectorIndex)
        ensures
            r.wf(),
            r@ == Map::<DimId, Seq<RecordId>>::empty(),
            r.dims() == Seq::<DimId>::empty(),
    {
        let r = MutableSparseVectorIndex { map: HashMap::new(), dims: Vec::new() };
        assert(r@ =~= Map::<DimId, Seq<RecordId>>::empty());
        r
    }

    /// The records listed under dimension `index`.
    pub fn get(&self, index: &DimId) -> (r: Option<&Vec<RecordId>>)
        ensures
            match r {
                Some(v) => self@.contains_key(*index) && v@ == self@[*index],
                None => !self@.contains_key(*index),
            },
    {
        self.map.get(index)
    }

    /// The dimensions that have a list.
    pub fn dimensions(&self) -> (r: &Vec<DimId>)
        requires
            self.wf(),
        ensures
            r@ == self.dims(),
            r@.no_duplicates(),
            forall|d: DimId| self@.contains_key(d) <==> r@.contains(d),
    {
        &self.dims
    }

    /// Appends `vector_id` to the list of every dimension the vector populates.
    pub fn add(&mut self, vector_id: RecordId, sparse_vector: &SparseVector)
        requires
            old(self).wf(),
            sparse_vector.wf(),
        ensures
            final(self).wf(),
            forall|d: DimId|
                #[trigger] final(self)@.contains_key(d) <==> (old(self)@.contains_key(d)
                    || sparse_vector.indices@.contains(d)),
            forall|d: DimId|
                #[trigger] ids_under(final(self)@, d) == if sparse_vector.indices@.contains(d) {
                    ids_under(old(self)@, d).push(vector_id)
                } else {
                    ids_under(old(self)@, d)
                },
    {
        let mut i: usize = 0;
        while i < sparse_vector.indices.len()
            invariant
                sparse_vector.wf(),
                self.wf(),
                i <= sparse_vector.indices.len(),
                forall|d: DimId|
                    #[trigger] self@.contains_key(d) <==> (old(self)@.contains_key(d)
                        || sparse_vector.indices@.subrange(0, i as int).contains(d)),
                forall|d: DimId|
                    #[trigger] ids_under(self@, d) == if sparse_vector.indices@.subrange(0, i as int).contains(d) {
                        ids_under(old(self)@, d).push(vector_id)
                    } else {
                        ids_under(old(self)@, d)
                    },
            decreases sparse_vector.indices.len() - i,
        {
            let index = sparse_vector.indices[i];
            let ghost before = self@;
            proof {
                let pre = sparse_vector.indices@.subrange(0, i as int);
                assert(!pre.contains(index)) by {
                    if pre.contains(index) {
                        let j = choose|j: int| 0 <= j < pre.len() && pre[j] == index;
                        assert(sparse_vector.indices@[j] < sparse_vector.indices@[i as int]);
                    }
                }
            }
            let ghost map_before = self.map@;
            match self.map.remove(&index) {
                Some(mut ids) => {
                    assert(ids@ == ids_under(before, index));
                    ids.push(vector_id);
                    self.map.insert(index, ids);
                    assert(self.map@.dom() =~= map_before.dom());
                },
                None => {
                    assert(!self.dims@.contains(index));
                    let mut ids: Vec<RecordId> = Vec::new();
                    ids.push(vector_id);
                    assert(ids@ =~= ids_under(before, index).push(vector_id));
                    self.map.insert(index, ids);
                    let ghost dims_before = self.dims@;
                    self.dims.push(index);
                    assert forall|d: DimId| self.map@.contains_key(d) <==> self.dims@.contains(d) by {
                        if self.dims@.contains(d) && d != index {
                            let j = choose|j: int| 0 <= j < self.dims@.len() && self.dims@[j] == d;
                            assert(dims_before[j] == d);
                        }
                        if dims_before.contains(d) {
                            let j = choose|j: int| 0 <= j < dims_before.len() && dims_before[j] == d;
                            assert(self.dims@[j] == d);
                        }
                        if d == index {
                            assert(self.dims@[self.dims@.len() - 1] == d);
                        }
                    }
                },
            }
            proof {
                let pre = sparse_vector.indices@.subrange(0, i as int);
                let post = sparse_vector.indices@.subrange(0, i + 1);
                assert(post == pre.push(index));
                assert forall|d: DimId| post.contains(d) <==> (pre.contains(d) || d == index) by {
                    if post.contains(d) {
                        let j = choose|j: int| 0 <= j < post.len() && post[j] == d;
                        if j < pre.len() {
                            assert(pre[j] == d);
                        }
                    }
                    if pre.contains(d) {
                        let j = choose|j: int| 0 <= j < pre.len() && pre[j] == d;
                        assert(post[j] == d);
                    }
                    if d == index {
                        assert(post[i as int] == d);
                    }
                }
                assert(self@ =~= before.insert(index, ids_under(before, index).push(vector_id)));
                assert forall|d: DimId|
                    #[trigger] ids_under(self@, d) == if post.contains(d) {
                        ids_under(old(self)@, d).push(vector_id)
                    } else {
                        ids_under(old(self)@, d)
                    } by {
                    if d == index {
                        assert(ids_under(before, d) == ids_under(old(self)@, d));
                    } else {
                        assert(ids_under(self@, d) == ids_under(before, d));
                    }
                }
            }
            i += 1;
        }
        assert(sparse_vector.indices@.subrange(0, sparse_vector.indices.len() as int) =~= sparse_vector.indices@);
    }
}

} // verus!
