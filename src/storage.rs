use vstd::prelude::*;
use vstd::multiset::Multiset;

use crate::inverted_index::{posting_wf, InvertedIndexBuilder, InvertedIndexRam};
use crate::mutable_index::{ids_under, MutableSparseVectorIndex};
use crate::posting::{has_entry, has_pair, same_records, PostingBuilder, PostingElement, PostingList};
use crate::scored_candidate::{
    lemma_counts_no_dup, lemma_no_dup_counts, scores_descending, sort_descending, ScoredCandidate,
};
use crate::search_context::{
    candidate_ids, fresh_search, full_candidate, full_contribution, full_score, query_nonnegative, top_best, top_shape,
    listed_in, offsets_distinct, IndexedPostingListIterator, SearchContext,
};
use crate::types::{DimId, DimWeight, RecordId, Score};
use crate::vector::{dot_prefix, lemma_weight_found, SparseVector};

verus! {

broadcast use vstd::seq_lib::group_to_multiset_ensures, vstd::multiset::group_multiset_axioms;

/// The stored vectors by record id, the mutable index over them, and, once built, the
/// immutable index.
pub struct SparseVectorStorage {
    vectors: Vec<Option<SparseVector>>,
    mutable_index: MutableSparseVectorIndex,
    immutable_index: Option<InvertedIndexRam>,
}

/// Record `rid` is stored and populates dimension `d`.
pub open spec fn stored_with(vectors: Seq<Option<SparseVector>>, rid: RecordId, d: DimId) -> bool {
    &&& (rid as int) < vectors.len()
    &&& vectors[rid as int] matches Some(v) && v.indices@.contains(d)
}

/// The weight that stored record `rid` gives dimension `d`.
pub open spec fn stored_weight(vectors: Seq<Option<SparseVector>>, rid: RecordId, d: DimId) -> int {
    match vectors[rid as int] {
        Some(v) => v.weight(d),
        None => 0,
    }
}

/// Entry `k` of vector `v`, stored as record `rid`, stands in its dimension's posting list.
pub open spec fn entry_indexed(ix: InvertedIndexRam, v: SparseVector, rid: RecordId, k: int) -> bool {
    let d = v.indices@[k];
    &&& (d as int) < ix.postings.len()
    &&& has_entry(ix.postings[d as int].elements@, rid, v.weights@[k])
}

/// Every stored (record, dimension, weight) stands in the posting list of that dimension.
pub open spec fn index_complete(ix: InvertedIndexRam, vectors: Seq<Option<SparseVector>>) -> bool {
    forall|rid: RecordId, k: int|
        (rid as int) < vectors.len() && vectors[rid as int] is Some && 0 <= k
            < vectors[rid as int].unwrap().indices.len() ==> #[trigger] entry_indexed(
            ix,
            vectors[rid as int].unwrap(),
            rid,
            k,
        )
}

/// Every entry of every posting list is a stored (record, dimension, weight).
pub open spec fn index_sound(ix: InvertedIndexRam, vectors: Seq<Option<SparseVector>>) -> bool {
    forall|d: int, i: int|
        0 <= d < ix.postings.len() && 0 <= i < ix.postings[d].elements.len() ==> {
            let e = #[trigger] ix.postings[d].elements@[i];
            &&& stored_with(vectors, e.id, d as DimId)
            &&& stored_weight(vectors, e.id, d as DimId) == e.weight
        }
}

/// The pairs of dimension `d`: each record of `ids` with the weight it stores there.
pub open spec fn pairs_for(ids: Seq<RecordId>, vectors: Seq<Option<SparseVector>>, d: DimId) -> Seq<
    (RecordId, DimWeight),
> {
    ids.map_values(|rid: RecordId| (rid, stored_weight(vectors, rid, d) as DimWeight))
}

/// The full-scan candidates: each stored record among the first `n` slots, scored
/// against query `q`, in record-id order.
pub open spec fn scan(vectors: Seq<Option<SparseVector>>, q: SparseVector, n: int) -> Seq<ScoredCandidate>
    decreases n,
{
    if n <= 0 {
        Seq::empty()
    } else {
        let prev = scan(vectors, q, n - 1);
        match vectors[n - 1] {
            Some(v) => prev.push(ScoredCandidate { score: q.spec_dot(&v) as Score, vector_id: (n - 1) as RecordId }),
            None => prev,
        }
    }
}

/// Each record of `ids` scored against query `q`.
pub open spec fn scored(vectors: Seq<Option<SparseVector>>, q: SparseVector, ids: Seq<RecordId>) -> Seq<ScoredCandidate> {
    ids.map_values(|rid: RecordId| ScoredCandidate { score: q.spec_dot(&vectors[rid as int].unwrap()) as Score, vector_id: rid })
}

/// Stored record `rid` populates one of the query's dimensions.
pub open spec fn touches(vectors: Seq<Option<SparseVector>>, q: SparseVector, rid: RecordId) -> bool {
    exists|k: int| 0 <= k < q.indices.len() && stored_with(vectors, rid, #[trigger] q.indices@[k])
}

/// Record ids strictly ascend.
pub open spec fn record_ids_ascending(ids: Seq<RecordId>) -> bool {
    forall|i: int, j: int| 0 <= i < j < ids.len() ==> ids[i] < ids[j]
}

/// `r` is the first `limit` candidates of `s` (all of them where there are fewer).
pub open spec fn first_of(s: Seq<ScoredCandidate>, limit: int, r: Seq<ScoredCandidate>) -> bool {
    r == s.take(if limit < s.len() { limit } else { s.len() as int })
}

/// Relies on `slice::sort_unstable`: afterwards the ids do not decrease, and they are those
/// from before, only reordered.
#[verifier::external_body]
fn sort_record_ids(v: &mut Vec<RecordId>)
    ensures
        final(v)@.to_multiset() == old(v)@.to_multiset(),
        forall|i: int, j: int| 0 <= i < j < final(v)@.len() ==> final(v)@[i] <= final(v)@[j],
{
    v.sort_unstable();
}

/// The ids of a non-decreasing list, each once, in ascending order.
fn dedup_sorted(v: &Vec<RecordId>) -> (r: Vec<RecordId>)
    requires
        forall|i: int, j: int| 0 <= i < j < v@.len() ==> v@[i] <= v@[j],
    ensures
        record_ids_ascending(r@),
        forall|x: RecordId| r@.contains(x) <==> v@.contains(x),
{
    let mut r: Vec<RecordId> = Vec::new();
    let mut i: usize = 0;
    while i < v.len()
        invariant
            i <= v.len(),
            forall|i: int, j: int| 0 <= i < j < v@.len() ==> v@[i] <= v@[j],
            record_ids_ascending(r@),
            forall|x: RecordId| r@.contains(x) <==> v@.subrange(0, i as int).contains(x),
            i > 0 ==> r@.len() > 0 && r@[r@.len() - 1] == v@[i - 1],
            i == 0 ==> r@.len() == 0,
        decreases v.len() - i,
    {
        let x = v[i];
        let ghost before = r@;
        if r.len() == 0 || r[r.len() - 1] != x {
            r.push(x);
            assert forall|a: int, b: int| 0 <= a < b < r@.len() implies r@[a] < r@[b] by {
                if b == r@.len() - 1 && a < b {
                    if i > 0 {
                        assert(v@[i - 1] <= x);
                        assert(before[before.len() - 1] < x);
                        if a < before.len() - 1 {
                            assert(before[a] < before[before.len() - 1]);
                        }
                    }
                }
            }
        }
        proof {
            let pre = v@.subrange(0, i as int);
            let post = v@.subrange(0, i + 1);
            assert(post == pre.push(x));
            assert forall|y: RecordId| r@.contains(y) <==> post.contains(y) by {
                if post.contains(y) {
                    let j = choose|j: int| 0 <= j < post.len() && post[j] == y;
                    if j < pre.len() {
                        assert(pre[j] == y);
                        assert(before.contains(y));
                        let k = choose|k: int| 0 <= k < before.len() && before[k] == y;
                        assert(r@[k] == y);
                    } else {
                        assert(r@[r@.len() - 1] == y);
                    }
                }
                if r@.contains(y) {
                    let k = choose|k: int| 0 <= k < r@.len() && r@[k] == y;
                    if k < before.len() {
                        assert(before[k] == y);
                        assert(before.contains(y));
                        let j = choose|j: int| 0 <= j < pre.len() && pre[j] == y;
                        assert(post[j] == y);
                    } else {
                        assert(post[i as int] == y);
                    }
                }
            }
        }
        i += 1;
    }
    assert(v@.subrange(0, v.len() as int) =~= v@);
    r
}

/// The position of `d` among `indices`.
fn position_of(indices: &Vec<DimId>, d: DimId) -> (r: Option<usize>)
    ensures
        match r {
            Some(k) => k < indices.len() && indices@[k as int] == d,
            None => !indices@.contains(d),
        },
{
    let mut k: usize = 0;
    while k < indices.len()
        invariant
            k <= indices.len(),
            forall|j: int| 0 <= j < k ==> indices@[j] != d,
        decreases indices.len() - k,
    {
        if indices[k] == d {
            return Some(k);
        }
        k += 1;
    }
    None
}

impl SparseVectorStorage {
    /// The stored vectors by record id.
    pub closed spec fn stored(&self) -> Seq<Option<SparseVector>> {
        self.vectors@
    }

    /// The records listed under each dimension by the mutable index.
    pub closed spec fn listed(&self) -> Map<DimId, Seq<RecordId>> {
        self.mutable_index@
    }

    /// The immutable index, once built.
    pub closed spec fn built(&self) -> Option<InvertedIndexRam> {
        self.immutable_index
    }

    /// Stored vectors are valid; the mutable index lists, under each dimension, exactly the
    /// stored records that populate it, each once; a built index matches the store.
    pub closed spec fn wf(&self) -> bool {
        &&& self.vectors.len() <= 0x1_0000_0000
        &&& self.mutable_index.wf()
        &&& forall|rid: int| 0 <= rid < self.vectors.len() && #[trigger] self.vectors@[rid] is Some
            ==> self.vectors@[rid].unwrap().wf()
        &&& forall|d: DimId, rid: RecordId|
            #[trigger] ids_under(self.mutable_index@, d).contains(rid) <==> stored_with(self.vectors@, rid, d)
        &&& forall|d: DimId| #[trigger] ids_under(self.mutable_index@, d).no_duplicates()
        &&& self.immutable_index matches Some(ix) ==> {
            &&& ix.wf()
            &&& index_complete(ix, self.vectors@)
            &&& index_sound(ix, self.vectors@)
        }
    }

    pub fn new() -> (r: SparseVectorStorage)
        ensures
            r.wf(),
            r.stored() == Seq::<Option<SparseVector>>::empty(),
            r.built() is None,
    {
        let r = SparseVectorStorage {
            vectors: Vec::new(),
            mutable_index: MutableSparseVectorIndex::new(),
            immutable_index: None,
        };
        assert forall|d: DimId| #[trigger] ids_under(r.mutable_index@, d).no_duplicates() by {
            assert(ids_under(r.mutable_index@, d) == Seq::<RecordId>::empty());
        }
        r
    }

    /// Stores `sparse_vector` under `vector_id` and appends `vector_id` to the mutable
    /// index's list of each dimension the vector populates; other lists stay as they were.
    /// No record is stored twice, and nothing is added once the immutable index is built.
    pub fn add(&mut self, vector_id: usize, sparse_vector: SparseVector)
        requires
            old(self).wf(),
            old(self).built() is None,
            sparse_vector.wf(),
            vector_id <= 0xffff_ffff,
            vector_id >= old(self).stored().len() || old(self).stored()[vector_id as int] is None,
        ensures
            final(self).wf(),
            final(self).built() is None,
            final(self).stored().len() == if vector_id < old(self).stored().len() {
                old(self).stored().len() as int
            } else {
                vector_id + 1
            },
            final(self).stored()[vector_id as int] == Some(sparse_vector),
            forall|rid: int|
                0 <= rid < final(self).stored().len() && rid != vector_id ==> #[trigger] final(self).stored()[rid]
                    == if rid < old(self).stored().len() {
                    old(self).stored()[rid]
                } else {
                    None
                },
            forall|d: DimId|
                #[trigger] ids_under(final(self).listed(), d) == if sparse_vector.indices@.contains(d) {
                    ids_under(old(self).listed(), d).push(vector_id as RecordId)
                } else {
                    ids_under(old(self).listed(), d)
                },
            forall|d: DimId|
                #[trigger] final(self).listed().contains_key(d) <==> (old(self).listed().contains_key(d)
                    || sparse_vector.indices@.contains(d)),
    {
        let ghost old_vectors = self.vectors@;
        let ghost old_map = self.mutable_index@;
        self.mutable_index.add(vector_id as RecordId, &sparse_vector);
        let ghost new_map = self.mutable_index@;
        assert(forall|d: DimId| #[trigger] ids_under(new_map, d) == if sparse_vector.indices@.contains(d) {
            ids_under(old_map, d).push(vector_id as RecordId)
        } else {
            ids_under(old_map, d)
        });
        if vector_id < self.vectors.len() {
            self.vectors.set(vector_id, Some(sparse_vector));
        } else {
            while self.vectors.len() < vector_id
                invariant
                    self.mutable_index@ == new_map,
                    self.mutable_index.wf(),
                    self.immutable_index == old(self).immutable_index,
                    old_vectors.len() <= self.vectors.len() <= vector_id,
                    forall|rid: int| 0 <= rid < old_vectors.len() ==> #[trigger] self.vectors@[rid] == old_vectors[rid],
                    forall|rid: int| old_vectors.len() <= rid < self.vectors.len() ==> #[trigger] self.vectors@[rid] is None,
                decreases vector_id - self.vectors.len(),
            {
                self.vectors.push(None);
            }
            self.vectors.push(Some(sparse_vector));
        }
        proof {
            let vs = self.vectors@;
            let vid = vector_id as RecordId;
            assert(self.mutable_index@ == new_map);
            assert forall|d: DimId, rid: RecordId|
                #[trigger] ids_under(self.mutable_index@, d).contains(rid) <==> stored_with(vs, rid, d) by {
                let before = ids_under(old_map, d);
                assert(ids_under(new_map, d) == if sparse_vector.indices@.contains(d) {
                    before.push(vid)
                } else {
                    before
                });
                if sparse_vector.indices@.contains(d) {
                    if ids_under(self.mutable_index@, d).contains(rid) && rid != vid {
                        let j = choose|j: int| 0 <= j < before.len() + 1 && before.push(vid)[j] == rid;
                        assert(before[j] == rid);
                    }
                    if before.contains(rid) {
                        let j = choose|j: int| 0 <= j < before.len() && before[j] == rid;
                        assert(before.push(vid)[j] == rid);
                    }
                    if rid == vid {
                        assert(before.push(vid)[before.len() as int] == rid);
                    }
                }
                assert(ids_under(old_map, d).contains(rid) <==> stored_with(old_vectors, rid, d));
            }
            assert forall|d: DimId| #[trigger] ids_under(self.mutable_index@, d).no_duplicates() by {
                let before = ids_under(old_map, d);
                assert(before.no_duplicates());
                assert(!before.contains(vid)) by {
                    assert(ids_under(old_map, d).contains(vid) <==> stored_with(old_vectors, vid, d));
                }
                if sparse_vector.indices@.contains(d) {
                    let after = before.push(vid);
                    assert forall|i: int, j: int| 0 <= i < after.len() && 0 <= j < after.len() && i != j implies after[i] != after[j] by {
                        if i == before.len() {
                            assert(after[j] == before[j]);
                        } else if j == before.len() {
                            assert(after[i] == before[i]);
                        }
                    }
                }
            }
        }
    }

    /// The slot of record `vector_id`: the vector, or `None` where no vector was stored there.
    pub fn get(&self, vector_id: RecordId) -> (r: &Option<SparseVector>)
        requires
            (vector_id as int) < self.stored().len(),
        ensures
            *r == self.stored()[vector_id as int],
    {
        &self.vectors[vector_id as usize]
    }

    /// Top-`top` search of `query_vector` over the immutable index.
    pub fn query_immutable_index(&self, top: usize, query_vector: SparseVector) -> (r: Vec<ScoredCandidate>)
        requires
            self.wf(),
            self.built() is Some,
            query_vector.wf(),
            top > 0,
        ensures
            scores_descending(r@),
            r@.len() <= top,
            dot_shape(r@.to_multiset(), touched_ids(self.stored(), query_vector), self.stored(), query_vector, top as nat),
            weights_nonnegative(query_vector) ==> best_top(
                r@.to_multiset(),
                touched_ids(self.stored(), query_vector),
                self.stored(),
                query_vector,
                top as nat,
            ),
    {
        let index = match &self.immutable_index {
            Some(index) => index,
            None => {
                return Vec::new();
            },
        };
        let ghost q = query_vector;
        let mut search_context = SearchContext::new(query_vector, top, index);
        let ghost its = search_context.iterators();
        let ghost found = search_context.found();
        let r = search_context.search();
        proof {
            self.lemma_search_matches_dot(q, its, found, r@.to_multiset(), top as nat);
        }
        r
    }
}

impl SparseVectorStorage {
    /// The posting list of dimension `d` from the records `ids` listed under it, with the
    /// weights the store holds.
    fn posting_for(&self, d: DimId, ids: &Vec<RecordId>) -> (r: PostingList)
        requires
            self.wf(),
            ids@ == ids_under(self.mutable_index@, d),
        ensures
            posting_wf(r.elements@),
            same_records(r.elements@, pairs_for(ids@, self.vectors@, d)),
    {
        let ghost vs = self.vectors@;
        let mut builder = PostingBuilder::new();
        let mut s: usize = 0;
        while s < ids.len()
            invariant
                self.wf(),
                vs == self.vectors@,
                ids@ == ids_under(self.mutable_index@, d),
                s <= ids.len(),
                builder@ == pairs_for(ids@.subrange(0, s as int), vs, d),
            decreases ids.len() - s,
        {
            let rid = ids[s];
            assert(ids@.contains(rid));
            assert(stored_with(vs, rid, d));
            let ghost next = pairs_for(ids@.subrange(0, s + 1), vs, d);
            match &self.vectors[rid as usize] {
                Some(v) => {
                    assert(v.wf());
                    match position_of(&v.indices, d) {
                        Some(k) => {
                            proof {
                                lemma_weight_found(v.indices@, v.weights@, k as int);
                            }
                            builder.add(rid, v.weights[k]);
                            assert(builder@ =~= next);
                        },
                        None => {
                            proof {
                                assert(false);
                            }
                        },
                    }
                },
                None => {
                    proof {
                        assert(false);
                    }
                },
            }
            s += 1;
        }
        assert(ids@.subrange(0, ids.len() as int) =~= ids@);
        proof {
            let p = builder@;
            assert(ids@.no_duplicates());
            assert forall|i: int, j: int| 0 <= i < p.len() && 0 <= j < p.len() && i != j implies p[i].0 != p[j].0 by {
                assert(p[i].0 == ids@[i]);
                assert(p[j].0 == ids@[j]);
            }
        }
        let r = builder.build();
        r
    }

    /// Builds the immutable index from the mutable one, taking each weight from the store.
    pub fn build_immutable_index(&mut self)
        requires
            old(self).wf(),
        ensures
            final(self).wf(),
            final(self).stored() == old(self).stored(),
            final(self).listed() == old(self).listed(),
            final(self).built() is Some,
            final(self).built().unwrap().wf(),
            index_complete(final(self).built().unwrap(), final(self).stored()),
            index_sound(final(self).built().unwrap(), final(self).stored()),
    {
        let ghost vs = self.vectors@;
        let ghost mi = self.mutable_index@;
        let mut builder = InvertedIndexBuilder::new();
        let dims = self.mutable_index.dimensions();
        let mut t: usize = 0;
        while t < dims.len()
            invariant
                self.wf(),
                vs == self.vectors@,
                mi == self.mutable_index@,
                builder.wf(),
                t <= dims.len(),
                forall|d: DimId| self.mutable_index@.contains_key(d) <==> dims@.contains(d),
                forall|j: int| 0 <= j < t ==> builder@.contains_key(#[trigger] dims@[j]),
                forall|d: DimId|
                    #[trigger] builder@.contains_key(d) ==> posting_wf(builder@[d]) && same_records(
                        builder@[d],
                        pairs_for(ids_under(mi, d), vs, d),
                    ),
            decreases dims.len() - t,
        {
            let d = dims[t];
            assert(dims@.contains(d));
            let ghost before = builder@;
            match self.mutable_index.get(&d) {
                Some(ids) => {
                    let posting = self.posting_for(d, ids);
                    builder.add(d, posting);
                },
                None => {
                    proof {
                        assert(false);
                    }
                },
            }
            assert forall|j: int| 0 <= j < t + 1 implies builder@.contains_key(#[trigger] dims@[j]) by {
                if j < t {
                    assert(before.contains_key(dims@[j]));
                }
            }
            t += 1;
        }
        let ghost bm = builder@;
        let index = builder.build();
        proof {
            assert forall|d: DimId| #[trigger] mi.contains_key(d) implies bm.contains_key(d) by {
                assert(dims@.contains(d));
                let j = choose|j: int| 0 <= j < dims@.len() && dims@[j] == d;
                assert(bm.contains_key(dims@[j]));
            }
            self.lemma_index_complete(index, bm);
            self.lemma_index_sound(index, bm);
        }
        self.immutable_index = Some(index);
    }
}

impl SparseVectorStorage {
    /// A dense index laid out from `bm`, which holds a list for every listed dimension built
    /// from the store, holds every stored entry.
    proof fn lemma_index_complete(&self, index: InvertedIndexRam, bm: Map<DimId, Seq<PostingElement>>)
        requires
            self.wf(),
            forall|d: DimId| #[trigger] self.mutable_index@.contains_key(d) ==> bm.contains_key(d),
            forall|d: DimId|
                #[trigger] bm.contains_key(d) ==> posting_wf(bm[d]) && same_records(
                    bm[d],
                    pairs_for(ids_under(self.mutable_index@, d), self.vectors@, d),
                ),
            forall|d: DimId| #[trigger] bm.contains_key(d) ==> (d as int) < index.postings.len(),
            forall|d: int|
                0 <= d < index.postings.len() ==> (#[trigger] index.postings[d]).elements@ == (if bm.contains_key(
                    d as DimId,
                ) {
                    bm[d as DimId]
                } else {
                    Seq::<PostingElement>::empty()
                }),
        ensures
            index_complete(index, self.vectors@),
    {
        let vs = self.vectors@;
        let mi = self.mutable_index@;
        assert forall|rid: RecordId, k: int|
            (rid as int) < vs.len() && vs[rid as int] is Some && 0 <= k < vs[rid as int].unwrap().indices.len()
                implies #[trigger] entry_indexed(index, vs[rid as int].unwrap(), rid, k) by {
            let v = vs[rid as int].unwrap();
            assert(v.wf());
            let d = v.indices@[k];
            assert(v.indices@.contains(d));
            assert(stored_with(vs, rid, d));
            let ids = ids_under(mi, d);
            assert(ids.contains(rid));
            assert(mi.contains_key(d));
            assert(bm.contains_key(d));
            lemma_weight_found(v.indices@, v.weights@, k);
            let s = choose|s: int| 0 <= s < ids.len() && ids[s] == rid;
            let pairs = pairs_for(ids, vs, d);
            assert(pairs[s] == (rid, v.weights@[k]));
            assert(index.postings[d as int].elements@ == bm[d]);
        }
    }

    /// Every entry of a dense index laid out from lists built from the store is stored.
    proof fn lemma_index_sound(&self, index: InvertedIndexRam, bm: Map<DimId, Seq<PostingElement>>)
        requires
            self.wf(),
            forall|d: DimId|
                #[trigger] bm.contains_key(d) ==> posting_wf(bm[d]) && same_records(
                    bm[d],
                    pairs_for(ids_under(self.mutable_index@, d), self.vectors@, d),
                ),
            forall|d: int|
                0 <= d < index.postings.len() ==> (#[trigger] index.postings[d]).elements@ == (if bm.contains_key(
                    d as DimId,
                ) {
                    bm[d as DimId]
                } else {
                    Seq::<PostingElement>::empty()
                }),
        ensures
            index_sound(index, self.vectors@),
    {
        let vs = self.vectors@;
        let mi = self.mutable_index@;
        assert forall|d: int, i: int|
            0 <= d < index.postings.len() && 0 <= i < index.postings[d].elements.len() implies {
                let e = #[trigger] index.postings[d].elements@[i];
                &&& stored_with(vs, e.id, d as DimId)
                &&& stored_weight(vs, e.id, d as DimId) == e.weight
            } by {
            let dd = d as DimId;
            assert(index.postings[d].elements@ == bm[dd]);
            let e = index.postings[d].elements@[i];
            let ids = ids_under(mi, dd);
            let pairs = pairs_for(ids, vs, dd);
            assert(has_pair(pairs, bm[dd][i].id, bm[dd][i].weight));
            let s = choose|s: int| 0 <= s < pairs.len() && pairs[s] == (e.id, e.weight);
            assert(ids[s] == e.id);
            assert(ids.contains(e.id));
            assert(stored_with(vs, e.id, dd));
            let v = vs[e.id as int].unwrap();
            assert(v.wf());
            let j = choose|j: int| 0 <= j < v.indices@.len() && v.indices@[j] == dd;
            lemma_weight_found(v.indices@, v.weights@, j);
        }
    }
}

impl SparseVectorStorage {
    /// Scores every stored vector against `query_vector` and returns the `limit` best,
    /// highest score first.
    pub fn query_full_scan(&self, limit: usize, query_vector: &SparseVector) -> (r: Vec<ScoredCandidate>)
        requires
            self.wf(),
            query_vector.wf(),
        ensures
            exists|s: Seq<ScoredCandidate>|
                {
                    &&& s.to_multiset() == scan(self.stored(), *query_vector, self.stored().len() as int).to_multiset()
                    &&& scores_descending(s)
                    &&& first_of(s, limit as int, r@)
                },
    {
        let ghost vs = self.vectors@;
        let mut scored_candidates: Vec<ScoredCandidate> = Vec::new();
        let mut id: usize = 0;
        while id < self.vectors.len()
            invariant
                self.wf(),
                query_vector.wf(),
                vs == self.vectors@,
                id <= self.vectors.len(),
                scored_candidates@ == scan(vs, *query_vector, id as int),
            decreases self.vectors.len() - id,
        {
            match &self.vectors[id] {
                Some(vector) => {
                    assert(vs[id as int] is Some);
                    let score = query_vector.dot_product(vector);
                    scored_candidates.push(ScoredCandidate { score, vector_id: id as RecordId });
                },
                None => {},
            }
            id += 1;
        }
        sort_descending(&mut scored_candidates);
        let ghost s = scored_candidates@;
        scored_candidates.truncate(limit);
        proof {
            let n = if (limit as int) < s.len() {
                limit as int
            } else {
                s.len() as int
            };
            assert(scored_candidates@ =~= s.take(n));
        }
        scored_candidates
    }

    /// Scores the stored vectors that populate a query dimension, found through the mutable
    /// index, and returns the `top` best, highest score first.
    pub fn query_mutable_index(&self, top: usize, query_vector: &SparseVector) -> (r: Vec<ScoredCandidate>)
        requires
            self.wf(),
            query_vector.wf(),
        ensures
            exists|ids: Seq<RecordId>, s: Seq<ScoredCandidate>|
                {
                    &&& record_ids_ascending(ids)
                    &&& forall|rid: RecordId| ids.contains(rid) <==> touches(self.stored(), *query_vector, rid)
                    &&& s.to_multiset() == scored(self.stored(), *query_vector, ids).to_multiset()
                    &&& scores_descending(s)
                    &&& first_of(s, top as int, r@)
                },
    {
        let ghost vs = self.vectors@;
        let ghost q = *query_vector;
        let mut candidates: Vec<RecordId> = Vec::new();
        let mut k: usize = 0;
        while k < query_vector.indices.len()
            invariant
                self.wf(),
                vs == self.vectors@,
                k <= query_vector.indices.len(),
                forall|rid: RecordId| candidates@.contains(rid) <==> exists|j: int| 0 <= j < k && stored_with(vs, rid, #[trigger] query_vector.indices@[j]),
            decreases query_vector.indices.len() - k,
        {
            let index = query_vector.indices[k];
            let ghost before = candidates@;
            if let Some(posting) = self.mutable_index.get(&index) {
                let mut t: usize = 0;
                while t < posting.len()
                    invariant
                        self.wf(),
                        vs == self.vectors@,
                        posting@ == ids_under(self.mutable_index@, index),
                        t <= posting.len(),
                        candidates@ == before + posting@.subrange(0, t as int),
                    decreases posting.len() - t,
                {
                    candidates.push(posting[t]);
                    t += 1;
                    assert(candidates@ =~= before + posting@.subrange(0, t as int));
                }
                assert(posting@.subrange(0, posting.len() as int) =~= posting@);
            }
            proof {
                let ids = ids_under(self.mutable_index@, index);
                assert(self.mutable_index@.contains_key(index) ==> candidates@ == before + ids);
                assert(!self.mutable_index@.contains_key(index) ==> candidates@ == before);
                assert forall|rid: RecordId| candidates@.contains(rid) <==> exists|j: int| 0 <= j < k + 1 && stored_with(vs, rid, #[trigger] query_vector.indices@[j]) by {
                    let here = stored_with(vs, rid, index);
                    assert(ids.contains(rid) <==> here);
                    if candidates@.contains(rid) {
                        let p = choose|p: int| 0 <= p < candidates@.len() && candidates@[p] == rid;
                        if p < before.len() {
                            assert(before[p] == rid);
                            assert(before.contains(rid));
                        } else {
                            assert(ids[p - before.len()] == rid);
                            assert(ids.contains(rid));
                            assert(stored_with(vs, rid, query_vector.indices@[k as int]));
                        }
                    }
                    if exists|j: int| 0 <= j < k + 1 && stored_with(vs, rid, #[trigger] query_vector.indices@[j]) {
                        let j = choose|j: int| 0 <= j < k + 1 && stored_with(vs, rid, #[trigger] query_vector.indices@[j]);
                        if j < k {
                            assert(before.contains(rid));
                            let p = choose|p: int| 0 <= p < before.len() && before[p] == rid;
                            assert(candidates@[p] == rid);
                        } else {
                            assert(ids.contains(rid));
                            let p = choose|p: int| 0 <= p < ids.len() && ids[p] == rid;
                            assert(candidates@[before.len() + p] == rid);
                        }
                    }
                }
            }
            k += 1;
        }
        let ghost unsorted = candidates@;
        sort_record_ids(&mut candidates);
        let unique = dedup_sorted(&candidates);
        proof {
            assert forall|rid: RecordId| unique@.contains(rid) <==> touches(vs, q, rid) by {
                assert(candidates@.contains(rid) <==> candidates@.to_multiset().count(rid) > 0);
                assert(unsorted.contains(rid) <==> unsorted.to_multiset().count(rid) > 0);
                if touches(vs, q, rid) {
                    let j = choose|j: int| 0 <= j < q.indices.len() && stored_with(vs, rid, #[trigger] q.indices@[j]);
                    assert(stored_with(vs, rid, query_vector.indices@[j]));
                }
            }
        }
        let mut scored_candidates: Vec<ScoredCandidate> = Vec::new();
        let mut t: usize = 0;
        while t < unique.len()
            invariant
                self.wf(),
                query_vector.wf(),
                q == *query_vector,
                vs == self.vectors@,
                t <= unique.len(),
                forall|rid: RecordId| unique@.contains(rid) <==> touches(vs, q, rid),
                scored_candidates@ == scored(vs, q, unique@.subrange(0, t as int)),
            decreases unique.len() - t,
        {
            let vector_id = unique[t];
            assert(unique@.contains(vector_id));
            assert(touches(vs, q, vector_id));
            proof {
                let j = choose|j: int| 0 <= j < q.indices.len() && stored_with(vs, vector_id, #[trigger] q.indices@[j]);
            }
            match self.get(vector_id) {
                Some(vector) => {
                    assert(vector.wf());
                    let score = query_vector.dot_product(vector);
                    scored_candidates.push(ScoredCandidate { score, vector_id });
                    assert(scored_candidates@ =~= scored(vs, q, unique@.subrange(0, t + 1)));
                },
                None => {
                    proof {
                        assert(false);
                    }
                },
            }
            t += 1;
        }
        assert(unique@.subrange(0, unique.len() as int) =~= unique@);
        sort_descending(&mut scored_candidates);
        let ghost s = scored_candidates@;
        scored_candidates.truncate(top);
        proof {
            let n = if (top as int) < s.len() {
                top as int
            } else {
                s.len() as int
            };
            assert(scored_candidates@ =~= s.take(n));
        }
        scored_candidates
    }
}

impl SparseVectorStorage {
    /// The immutable index, once built.
    pub fn immutable_index(&self) -> (r: Option<&InvertedIndexRam>)
        ensures
            match r {
                Some(ix) => self.built() == Some(*ix),
                None => self.built() is None,
            },
    {
        match &self.immutable_index {
            Some(ix) => Some(ix),
            None => None,
        }
    }

    /// The mutable index.
    pub fn mutable_index(&self) -> (r: &MutableSparseVectorIndex)
        ensures
            r@ == self.listed(),
    {
        &self.mutable_index
    }

    /// The number of record-id slots, stored or not.
    pub fn len(&self) -> (r: usize)
        ensures
            r == self.stored().len(),
    {
        self.vectors.len()
    }
}

/// Once the immutable index is built, each weight that record `rid` stores, at entry `k` of
/// its vector, stands in the posting list of that entry's dimension exactly once: one
/// element there has id `rid` and that weight, and no other element has id `rid`.
pub proof fn lemma_build_completeness(storage: &SparseVectorStorage, rid: RecordId, k: int)
    requires
        storage.wf(),
        storage.built() is Some,
        (rid as int) < storage.stored().len(),
        storage.stored()[rid as int] is Some,
        0 <= k < storage.stored()[rid as int].unwrap().indices.len(),
    ensures
        ({
            let ix = storage.built().unwrap();
            let v = storage.stored()[rid as int].unwrap();
            let d = v.indices@[k] as int;
            &&& d < ix.postings.len()
            &&& exists|i: int|
                0 <= i < ix.postings[d].elements.len() && ix.postings[d].elements@[i].id == rid
                    && ix.postings[d].elements@[i].weight == v.weights@[k] && forall|j: int|
                    0 <= j < ix.postings[d].elements.len() && ix.postings[d].elements@[j].id == rid ==> j == i
        }),
{
    let ix = storage.built().unwrap();
    let v = storage.stored()[rid as int].unwrap();
    let d = v.indices@[k] as int;
    assert(entry_indexed(ix, v, rid, k));
    assert(ix.postings[d].wf());
    let s = ix.postings[d].elements@;
    let i = choose|i: int| 0 <= i < s.len() && s[i].id == rid && s[i].weight == v.weights@[k];
    assert forall|j: int| 0 <= j < s.len() && s[j].id == rid implies j == i by {
        if j < i {
            assert(s[j].id < s[i].id);
        } else if j > i {
            assert(s[i].id < s[j].id);
        }
    }
}

/// Once the immutable index is built, every element of every posting list is a weight that
/// a stored record holds in that list's dimension.
pub proof fn lemma_build_soundness(storage: &SparseVectorStorage, d: int, i: int)
    requires
        storage.wf(),
        storage.built() is Some,
        0 <= d < storage.built().unwrap().postings.len(),
        0 <= i < storage.built().unwrap().postings[d].elements.len(),
    ensures
        ({
            let e = storage.built().unwrap().postings[d].elements@[i];
            &&& stored_with(storage.stored(), e.id, d as DimId)
            &&& storage.stored()[e.id as int].unwrap().weight(d as DimId) == e.weight
        }),
{
    let ix = storage.built().unwrap();
    let e = ix.postings[d].elements@[i];
    assert(index_sound(ix, storage.vectors@));
    assert(stored_with(storage.vectors@, e.id, d as DimId));
    assert(stored_weight(storage.vectors@, e.id, d as DimId) == e.weight);
}

/// No query weight is negative.
pub open spec fn weights_nonnegative(q: SparseVector) -> bool {
    forall|k: int| 0 <= k < q.weights.len() ==> q.weights@[k] >= 0
}

/// The stored records that populate a query dimension.
pub open spec fn touched_ids(vectors: Seq<Option<SparseVector>>, q: SparseVector) -> Set<RecordId> {
    Set::new(|r: RecordId| touches(vectors, q, r))
}

/// Record `r` scored by its dot product with the query.
pub open spec fn dot_candidate(vectors: Seq<Option<SparseVector>>, q: SparseVector, r: RecordId) -> ScoredCandidate {
    ScoredCandidate { score: q.spec_dot(&vectors[r as int].unwrap()) as Score, vector_id: r }
}

/// Each candidate in `found` is one of the records `ids` with its dot product, none twice
/// (so no record twice), and `found` holds `k` of them, or all where there are fewer.
pub open spec fn dot_shape(
    found: Multiset<ScoredCandidate>,
    ids: Set<RecordId>,
    vectors: Seq<Option<SparseVector>>,
    q: SparseVector,
    k: nat,
) -> bool {
    &&& forall|c: ScoredCandidate| #[trigger] found.count(c) > 0 ==> ids.contains(c.vector_id) && c
        == dot_candidate(vectors, q, c.vector_id)
    &&& forall|c: ScoredCandidate| #[trigger] found.count(c) <= 1
    &&& found.len() == if k < ids.len() { k } else { ids.len() }
}

/// `found` holds a best `k` of the records `ids` scored by dot product: it has the shape of
/// `dot_shape`, and a record left out scores no higher than any candidate kept.
pub open spec fn best_top(
    found: Multiset<ScoredCandidate>,
    ids: Set<RecordId>,
    vectors: Seq<Option<SparseVector>>,
    q: SparseVector,
    k: nat,
) -> bool {
    &&& dot_shape(found, ids, vectors, q, k)
    &&& forall|r: RecordId|
        #[trigger] ids.contains(r) && found.count(dot_candidate(vectors, q, r)) == 0 ==> found.len() == k
            && forall|c: ScoredCandidate| #[trigger] found.count(c) > 0 ==> q.spec_dot(&vectors[r as int].unwrap()) <= c.score
}

/// The query term of position `k` for vector `v`.
pub open spec fn term(q: SparseVector, v: SparseVector, k: int) -> int {
    q.weights@[k] * v.weight(q.indices@[k])
}

/// The sum of the terms at the query positions of the first `n` cursors that lie below `m`.
pub open spec fn offset_sum(its: Seq<IndexedPostingListIterator>, q: SparseVector, v: SparseVector, n: int, m: int) -> int
    decreases n,
{
    if n <= 0 {
        0
    } else {
        offset_sum(its, q, v, n - 1, m) + if (its[n - 1].query_weight_offset as int) < m {
            term(q, v, its[n - 1].query_weight_offset as int)
        } else {
            0
        }
    }
}

/// Raising the bound from `m` to `m + 1` adds the term of `m` once if a cursor sits there.
proof fn lemma_offset_sum_step(its: Seq<IndexedPostingListIterator>, q: SparseVector, v: SparseVector, n: int, m: int)
    requires
        0 <= n <= its.len(),
        offsets_distinct(its),
    ensures
        offset_sum(its, q, v, n, m + 1) == offset_sum(its, q, v, n, m) + if exists|i: int|
            0 <= i < n && (#[trigger] its[i]).query_weight_offset == m {
            term(q, v, m)
        } else {
            0
        },
    decreases n,
{
    if n > 0 {
        lemma_offset_sum_step(its, q, v, n - 1, m);
        if its[n - 1].query_weight_offset == m {
            assert(!exists|i: int| 0 <= i < n - 1 && (#[trigger] its[i]).query_weight_offset == m);
        } else if exists|i: int| 0 <= i < n && (#[trigger] its[i]).query_weight_offset == m {
            let i = choose|i: int| 0 <= i < n && (#[trigger] its[i]).query_weight_offset == m;
            assert(i < n - 1);
        }
    }
}

/// A dot product whose terms vanish at the positions without a cursor is the sum of the
/// terms at the cursors' positions.
proof fn lemma_dot_offset_sum(its: Seq<IndexedPostingListIterator>, q: SparseVector, v: SparseVector, m: int)
    requires
        0 <= m <= q.indices.len(),
        q.indices.len() == q.weights.len(),
        offsets_distinct(its),
        forall|k: int|
            0 <= k < q.indices.len() && !(exists|i: int| 0 <= i < its.len() && (#[trigger] its[i]).query_weight_offset == k)
                ==> #[trigger] term(q, v, k) == 0,
    ensures
        dot_prefix(q.indices@, q.weights@, v.indices@, v.weights@, m) == offset_sum(its, q, v, its.len() as int, m),
    decreases m,
{
    if m == 0 {
        lemma_offset_sum_zero(its, q, v, its.len() as int);
    } else {
        lemma_dot_offset_sum(its, q, v, m - 1);
        lemma_offset_sum_step(its, q, v, its.len() as int, m - 1);
        assert(term(q, v, m - 1) == q.weights@[m - 1] * v.weight(q.indices@[m - 1]));
    }
}

proof fn lemma_offset_sum_zero(its: Seq<IndexedPostingListIterator>, q: SparseVector, v: SparseVector, n: int)
    requires
        0 <= n <= its.len(),
    ensures
        offset_sum(its, q, v, n, 0) == 0,
    decreases n,
{
    if n > 0 {
        lemma_offset_sum_zero(its, q, v, n - 1);
    }
}

/// The full score over the cursors sums each cursor's term.
proof fn lemma_full_score_offset_sum(
    its: Seq<IndexedPostingListIterator>,
    q: SparseVector,
    v: SparseVector,
    r: RecordId,
    n: int,
)
    requires
        0 <= n <= its.len(),
        forall|i: int| 0 <= i < its.len() ==> (#[trigger] its[i]).query_weight_offset < q.indices.len(),
        forall|i: int|
            0 <= i < its.len() ==> full_contribution(#[trigger] its[i], q.weights@, r) == term(
                q,
                v,
                its[i].query_weight_offset as int,
            ),
    ensures
        full_score(its, q.weights@, r, n) == offset_sum(its, q, v, n, q.indices.len() as int),
    decreases n,
{
    if n > 0 {
        lemma_full_score_offset_sum(its, q, v, r, n - 1);
    }
}

impl SparseVectorStorage {
    /// The search over the cursors that `SearchContext::new` opens for a query holds the
    /// touched records with their dot products; with no negative query weight, a best top.
    proof fn lemma_search_matches_dot(
        &self,
        q: SparseVector,
        its: Seq<IndexedPostingListIterator>,
        found: Multiset<ScoredCandidate>,
        result: Multiset<ScoredCandidate>,
        top: nat,
    )
        requires
            self.wf(),
            self.built() is Some,
            q.wf(),
            top > 0,
            found == Multiset::<ScoredCandidate>::empty(),
            offsets_distinct(its),
            forall|i: int|
                0 <= i < its.len() ==> {
                    let it = #[trigger] its[i];
                    let k = it.query_weight_offset as int;
                    &&& 0 <= k < q.indices.len()
                    &&& (q.indices[k] as int) < self.built().unwrap().postings.len()
                    &&& it.posting_list_iterator.elements() == self.built().unwrap().postings[q.indices[k] as int].elements@
                    &&& it.posting_list_iterator.position() == 0
                    &&& it.posting_list_iterator.elements().len() > 0
                },
            forall|k: int|
                0 <= k < q.indices.len() && (q.indices[k] as int) < self.built().unwrap().postings.len()
                    && self.built().unwrap().postings[q.indices[k] as int].elements.len() > 0 ==> exists|i: int|
                    0 <= i < its.len() && (#[trigger] its[i]).query_weight_offset == k,
            fresh_search(its, found) ==> top_shape(result, candidate_ids(its), its, q.weights@, top),
            fresh_search(its, found) && query_nonnegative(q.weights@) ==> top_best(
                result,
                candidate_ids(its),
                its,
                q.weights@,
                top,
            ),
        ensures
            dot_shape(result, touched_ids(self.stored(), q), self.stored(), q, top),
            weights_nonnegative(q) ==> best_top(result, touched_ids(self.stored(), q), self.stored(), q, top),
    {
        let ix = self.built().unwrap();
        let vs = self.vectors@;
        let n = its.len() as int;
        assert(fresh_search(its, found));
        let ids = touched_ids(vs, q);
        // the listed records are the touched ones
        assert forall|r: RecordId| candidate_ids(its).contains(r) <==> ids.contains(r) by {
            if candidate_ids(its).contains(r) {
                let i = choose|i: int| 0 <= i < its.len() && listed_in(#[trigger] its[i], r);
                let k = its[i].query_weight_offset as int;
                let d = q.indices@[k] as int;
                let e = its[i].posting_list_iterator.elements();
                let j = choose|j: int| 0 <= j < e.len() && #[trigger] e[j].id == r;
                assert(index_sound(ix, vs));
                assert(ix.postings[d].elements@[j] == e[j]);
                assert(stored_with(vs, r, q.indices@[k]));
            }
            if ids.contains(r) {
                let k = choose|k: int| 0 <= k < q.indices.len() && stored_with(vs, r, #[trigger] q.indices@[k]);
                let v = vs[r as int].unwrap();
                let j = choose|j: int| 0 <= j < v.indices.len() && v.indices@[j] == q.indices@[k];
                assert(entry_indexed(ix, v, r, j));
                let d = q.indices@[k] as int;
                let pe = choose|pe: int| 0 <= pe < ix.postings[d].elements.len() && ix.postings[d].elements@[pe].id == r
                    && ix.postings[d].elements@[pe].weight == v.weights@[j];
                let i = choose|i: int| 0 <= i < its.len() && (#[trigger] its[i]).query_weight_offset == k;
                assert(its[i].posting_list_iterator.elements()[pe].id == r);
                assert(listed_in(its[i], r));
            }
        }
        assert(candidate_ids(its) =~= ids);
        // full scores are dot products
        assert forall|r: RecordId| #[trigger] ids.contains(r) implies full_score(its, q.weights@, r, n) == q.spec_dot(&vs[r as int].unwrap())
            by {
            self.lemma_full_score_is_dot(q, its, r);
        }
        assert forall|c: ScoredCandidate| #[trigger] result.count(c) > 0 implies ids.contains(c.vector_id) && c
            == dot_candidate(vs, q, c.vector_id) by {
            assert(full_score(its, q.weights@, c.vector_id, n) == q.spec_dot(&vs[c.vector_id as int].unwrap()));
        }
        if weights_nonnegative(q) {
            assert(query_nonnegative(q.weights@));
            assert forall|r: RecordId|
                #[trigger] ids.contains(r) && result.count(dot_candidate(vs, q, r)) == 0 implies result.len() == top
                && forall|c: ScoredCandidate| #[trigger] result.count(c) > 0 ==> q.spec_dot(&vs[r as int].unwrap()) <= c.score by {
                assert(full_candidate(its, q.weights@, r) == dot_candidate(vs, q, r));
            }
        }
    }

    /// For a touched record, the full score over the query's cursors is its dot product
    /// with the query.
    proof fn lemma_full_score_is_dot(&self, q: SparseVector, its: Seq<IndexedPostingListIterator>, r: RecordId)
        requires
            self.wf(),
            self.built() is Some,
            q.wf(),
            offsets_distinct(its),
            touches(self.vectors@, q, r),
            forall|i: int|
                0 <= i < its.len() ==> {
                    let it = #[trigger] its[i];
                    let k = it.query_weight_offset as int;
                    &&& 0 <= k < q.indices.len()
                    &&& (q.indices[k] as int) < self.built().unwrap().postings.len()
                    &&& it.posting_list_iterator.elements() == self.built().unwrap().postings[q.indices[k] as int].elements@
                },
            forall|k: int|
                0 <= k < q.indices.len() && (q.indices[k] as int) < self.built().unwrap().postings.len()
                    && self.built().unwrap().postings[q.indices[k] as int].elements.len() > 0 ==> exists|i: int|
                    0 <= i < its.len() && (#[trigger] its[i]).query_weight_offset == k,
        ensures
            full_score(its, q.weights@, r, its.len() as int) == q.spec_dot(&self.vectors@[r as int].unwrap()),
    {
        let ix = self.built().unwrap();
        let vs = self.vectors@;
        let n = its.len() as int;
        let k0 = choose|k: int| 0 <= k < q.indices.len() && stored_with(vs, r, #[trigger] q.indices@[k]);
        let v = vs[r as int].unwrap();
        assert(v.wf());
        // each cursor adds the vector's weight in its dimension times the query weight
        assert forall|i: int| 0 <= i < n implies full_contribution(#[trigger] its[i], q.weights@, r)
            == term(q, v, its[i].query_weight_offset as int) by {
            let k = its[i].query_weight_offset as int;
            let d = q.indices@[k];
            let e = its[i].posting_list_iterator.elements();
            if listed_in(its[i], r) {
                let j = choose|j: int| 0 <= j < e.len() && #[trigger] e[j].id == r;
                assert(index_sound(ix, vs));
                assert(ix.postings[d as int].elements@[j] == e[j]);
                assert(stored_weight(vs, r, d) == e[j].weight);
                assert(v.weight(d) == e[j].weight);
                assert(full_contribution(its[i], q.weights@, r) == e[j].weight * q.weights@[k]);
                assert(e[j].weight * q.weights@[k] == q.weights@[k] * e[j].weight) by (nonlinear_arith);
            } else {
                if v.weight(d) != 0 {
                    assert(exists|j: int| 0 <= j < v.indices.len() && v.indices@[j] == d);
                    let j = choose|j: int| 0 <= j < v.indices.len() && v.indices@[j] == d;
                    assert(entry_indexed(ix, v, r, j));
                    let pe = choose|pe: int| 0 <= pe < ix.postings[d as int].elements.len()
                        && ix.postings[d as int].elements@[pe].id == r && ix.postings[d as int].elements@[pe].weight == v.weights@[j];
                    assert(e[pe].id == r);
                }
                assert(full_contribution(its[i], q.weights@, r) == 0);
                assert(q.weights@[k] * v.weight(d) == 0) by (nonlinear_arith)
                    requires
                        v.weight(d) == 0,
                ;
            }
        }
        // positions without a cursor add nothing
        assert forall|k: int|
            0 <= k < q.indices.len() && !(exists|i: int| 0 <= i < its.len() && (#[trigger] its[i]).query_weight_offset == k)
                implies #[trigger] term(q, v, k) == 0 by {
            let d = q.indices@[k];
            if v.weight(d) != 0 {
                assert(exists|j: int| 0 <= j < v.indices.len() && v.indices@[j] == d);
                let j = choose|j: int| 0 <= j < v.indices.len() && v.indices@[j] == d;
                assert(entry_indexed(ix, v, r, j));
            }
            assert(q.weights@[k] * v.weight(d) == 0) by (nonlinear_arith)
                requires
                    v.weight(d) == 0,
            ;
        }
        lemma_dot_offset_sum(its, q, v, q.indices.len() as int);
        lemma_full_score_offset_sum(its, q, v, r, n);
    }
}

/// The first `k` of a descending arrangement of the touched records, each scored by dot
/// product, are a best `k` of them.
pub proof fn lemma_prefix_is_best(
    vectors: Seq<Option<SparseVector>>,
    q: SparseVector,
    ids: Seq<RecordId>,
    s: Seq<ScoredCandidate>,
    k: nat,
    r: Seq<ScoredCandidate>,
)
    requires
        q.wf(),
        forall|rid: int| 0 <= rid < vectors.len() && #[trigger] vectors[rid] is Some ==> vectors[rid].unwrap().wf(),
        record_ids_ascending(ids),
        forall|rid: RecordId| ids.contains(rid) <==> touches(vectors, q, rid),
        s.to_multiset() == scored(vectors, q, ids).to_multiset(),
        scores_descending(s),
        first_of(s, k as int, r),
    ensures
        best_top(r.to_multiset(), touched_ids(vectors, q), vectors, q, k),
{
    let sc = scored(vectors, q, ids);
    let touched = touched_ids(vectors, q);
    assert(ids.no_duplicates()) by {
        assert forall|i: int, j: int| 0 <= i < ids.len() && 0 <= j < ids.len() && i != j implies ids[i] != ids[j] by {
            if i < j {
                assert(ids[i] < ids[j]);
            } else {
                assert(ids[j] < ids[i]);
            }
        }
    }
    assert(sc.no_duplicates()) by {
        assert forall|i: int, j: int| 0 <= i < sc.len() && 0 <= j < sc.len() && i != j implies sc[i] != sc[j] by {
            assert(sc[i].vector_id == ids[i]);
            assert(sc[j].vector_id == ids[j]);
        }
    }
    lemma_no_dup_counts(sc);
    lemma_counts_no_dup(s);
    vstd::seq_lib::to_multiset_len(s);
    vstd::seq_lib::to_multiset_len(sc);
    assert(touched =~= ids.to_set());
    ids.unique_seq_to_set();
    assert(r.no_duplicates());
    lemma_no_dup_counts(r);
    vstd::seq_lib::to_multiset_len(r);
    let t = r.len() as int;
    assert forall|c: ScoredCandidate| #[trigger] r.to_multiset().count(c) > 0 implies touched.contains(c.vector_id)
        && c == dot_candidate(vectors, q, c.vector_id) by {
        assert(r.contains(c));
        let i = choose|i: int| 0 <= i < r.len() && r[i] == c;
        assert(s[i] == c);
        assert(s.contains(c));
        assert(s.to_multiset().count(c) > 0);
        assert(sc.contains(c));
        let j = choose|j: int| 0 <= j < sc.len() && sc[j] == c;
        assert(ids.contains(ids[j]));
    }
    assert forall|rid: RecordId|
        #[trigger] touched.contains(rid) && r.to_multiset().count(dot_candidate(vectors, q, rid)) == 0 implies r.to_multiset().len()
        == k && forall|c: ScoredCandidate| #[trigger] r.to_multiset().count(c) > 0 ==> q.spec_dot(&vectors[rid as int].unwrap()) <= c.score by {
        let dc = dot_candidate(vectors, q, rid);
        assert(ids.contains(rid));
        let j = choose|j: int| 0 <= j < ids.len() && ids[j] == rid;
        assert(sc[j] == dc);
        assert(sc.contains(dc));
        assert(s.to_multiset().count(dc) > 0);
        assert(s.contains(dc));
        let p = choose|p: int| 0 <= p < s.len() && s[p] == dc;
        if p < t {
            assert(r[p] == dc);
            assert(r.contains(dc));
        }
        let v = vectors[rid as int].unwrap();
        assert(stored_with(vectors, rid, q.indices@[choose|kk: int| 0 <= kk < q.indices.len() && stored_with(vectors, rid, #[trigger] q.indices@[kk])]));
        q.lemma_dot_fits(&v);
        assert forall|c: ScoredCandidate| #[trigger] r.to_multiset().count(c) > 0 implies q.spec_dot(&v) <= c.score by {
            assert(r.contains(c));
            let i = choose|i: int| 0 <= i < r.len() && r[i] == c;
            assert(s[i] == c);
            assert(s[i].score >= s[p].score);
        }
    }
}

/// Two descending sequences that each hold a best `k` of the same scored records have the
/// same length and the same score at every position; they differ at most in which of
/// several equally scored records they name.
pub proof fn lemma_best_scores_agree(
    x: Seq<ScoredCandidate>,
    y: Seq<ScoredCandidate>,
    vectors: Seq<Option<SparseVector>>,
    q: SparseVector,
    k: nat,
)
    requires
        q.wf(),
        forall|rid: int| 0 <= rid < vectors.len() && #[trigger] vectors[rid] is Some ==> vectors[rid].unwrap().wf(),
        scores_descending(x),
        scores_descending(y),
        best_top(x.to_multiset(), touched_ids(vectors, q), vectors, q, k),
        best_top(y.to_multiset(), touched_ids(vectors, q), vectors, q, k),
    ensures
        x.len() == y.len(),
        forall|i: int| 0 <= i < x.len() ==> #[trigger] x[i].score == y[i].score,
{
    vstd::seq_lib::to_multiset_len(x);
    vstd::seq_lib::to_multiset_len(y);
    assert forall|i: int| 0 <= i < x.len() implies #[trigger] x[i].score == y[i].score by {
        if x[i].score > y[i].score {
            lemma_not_above(x, y, vectors, q, k, i);
        } else if x[i].score < y[i].score {
            lemma_not_above(y, x, vectors, q, k, i);
        }
    }
}

/// At no position can one best arrangement score above the other.
proof fn lemma_not_above(
    x: Seq<ScoredCandidate>,
    y: Seq<ScoredCandidate>,
    vectors: Seq<Option<SparseVector>>,
    q: SparseVector,
    k: nat,
    i: int,
)
    requires
        q.wf(),
        forall|rid: int| 0 <= rid < vectors.len() && #[trigger] vectors[rid] is Some ==> vectors[rid].unwrap().wf(),
        scores_descending(x),
        scores_descending(y),
        best_top(x.to_multiset(), touched_ids(vectors, q), vectors, q, k),
        best_top(y.to_multiset(), touched_ids(vectors, q), vectors, q, k),
        x.len() == y.len(),
        0 <= i < x.len(),
    ensures
        x[i].score <= y[i].score,
{
    if x[i].score > y[i].score {
        let t = x[i].score;
        lemma_counts_no_dup(x);
        let xs = x.take(i + 1);
        let ys = y.take(i);
        assert(xs.no_duplicates());
        xs.unique_seq_to_set();
        ys.lemma_cardinality_of_set();
        // every candidate among the first i + 1 of x is among the first i of y
        assert forall|c: ScoredCandidate| #[trigger] xs.to_set().contains(c) implies ys.to_set().contains(c) by {
            assert(xs.contains(c));
            let a = choose|a: int| 0 <= a < xs.len() && xs[a] == c;
            assert(x[a] == c);
            assert(x.contains(c));
            assert(x.to_multiset().count(c) > 0);
            assert(c.score >= t);
            if y.to_multiset().count(c) == 0 {
                let ids = touched_ids(vectors, q);
                assert(ids.contains(c.vector_id) && c == dot_candidate(vectors, q, c.vector_id));
                assert(touches(vectors, q, c.vector_id));
                let kk = choose|kk: int| 0 <= kk < q.indices.len() && stored_with(vectors, c.vector_id, #[trigger] q.indices@[kk]);
                assert(stored_with(vectors, c.vector_id, q.indices@[kk]));
                q.lemma_dot_fits(&vectors[c.vector_id as int].unwrap());
                assert(y.contains(y[i]));
                assert(y.to_multiset().count(y[i]) > 0);
                assert(q.spec_dot(&vectors[c.vector_id as int].unwrap()) <= y[i].score);
            } else {
                assert(y.contains(c));
                let b = choose|b: int| 0 <= b < y.len() && y[b] == c;
                if b >= i {
                    assert(y[b].score <= y[i].score);
                }
                assert(ys[b] == c);
                assert(ys.contains(c));
            }
        }
        vstd::set_lib::lemma_len_subset(xs.to_set(), ys.to_set());
    }
}

/// The mutable-index and immutable-index paths agree: for a query with no negative weight,
/// any results `m` and `i` that the two paths' contracts allow have the same length and the
/// same score at every position.
pub proof fn lemma_mutable_and_immutable_agree(
    storage: &SparseVectorStorage,
    q: SparseVector,
    top: nat,
    m: Seq<ScoredCandidate>,
    i: Seq<ScoredCandidate>,
)
    requires
        storage.wf(),
        storage.built() is Some,
        q.wf(),
        weights_nonnegative(q),
        exists|ids: Seq<RecordId>, s: Seq<ScoredCandidate>|
            {
                &&& record_ids_ascending(ids)
                &&& forall|rid: RecordId| ids.contains(rid) <==> touches(storage.stored(), q, rid)
                &&& s.to_multiset() == scored(storage.stored(), q, ids).to_multiset()
                &&& scores_descending(s)
                &&& first_of(s, top as int, m)
            },
        scores_descending(i),
        best_top(i.to_multiset(), touched_ids(storage.stored(), q), storage.stored(), q, top),
    ensures
        m.len() == i.len(),
        forall|j: int| 0 <= j < m.len() ==> #[trigger] m[j].score == i[j].score,
{
    let (ids, s) = choose|ids: Seq<RecordId>, s: Seq<ScoredCandidate>|
        {
            &&& record_ids_ascending(ids)
            &&& forall|rid: RecordId| ids.contains(rid) <==> touches(storage.stored(), q, rid)
            &&& s.to_multiset() == scored(storage.stored(), q, ids).to_multiset()
            &&& scores_descending(s)
            &&& first_of(s, top as int, m)
        };
    let vs = storage.stored();
    assert forall|rid: int| 0 <= rid < vs.len() && #[trigger] vs[rid] is Some implies vs[rid].unwrap().wf() by {
        assert(storage.vectors@[rid] is Some);
    }
    lemma_prefix_is_best(vs, q, ids, s, top, m);
    assert(scores_descending(m)) by {
        assert forall|a: int, b: int| 0 <= a < b < m.len() implies m[a].score >= m[b].score by {
            assert(m[a] == s[a] && m[b] == s[b]);
        }
    }
    lemma_best_scores_agree(m, i, vs, q, top);
}

/// No stored weight is negative.
pub open spec fn stored_weights_nonnegative(vectors: Seq<Option<SparseVector>>) -> bool {
    forall|rid: int, k: int|
        0 <= rid < vectors.len() && vectors[rid] is Some && 0 <= k < vectors[rid].unwrap().weights.len()
            ==> #[trigger] vectors[rid].unwrap().weights@[k] >= 0
}

/// With no negative weight on either side, a dot product is not negative.
proof fn lemma_dot_nonnegative(q: SparseVector, v: SparseVector, n: int)
    requires
        0 <= n <= q.indices.len(),
        q.wf(),
        v.wf(),
        weights_nonnegative(q),
        forall|k: int| 0 <= k < v.weights.len() ==> #[trigger] v.weights@[k] >= 0,
    ensures
        dot_prefix(q.indices@, q.weights@, v.indices@, v.weights@, n) >= 0,
    decreases n,
{
    if n > 0 {
        lemma_dot_nonnegative(q, v, n - 1);
        let w = v.weight(q.indices@[n - 1]);
        assert(w >= 0) by {
            if exists|j: int| 0 <= j < v.indices.len() && v.indices@[j] == q.indices@[n - 1] {
                let j = choose|j: int| 0 <= j < v.indices.len() && v.indices@[j] == q.indices@[n - 1];
                assert(v.weights@[j] >= 0);
            }
        }
        let a = q.weights@[n - 1];
        assert(a >= 0);
        assert(a * w >= 0) by (nonlinear_arith)
            requires
                a >= 0,
                w >= 0,
        ;
    }
}

/// A vector that populates none of the query's dimensions has a zero dot product with it.
proof fn lemma_dot_untouched(q: SparseVector, v: SparseVector, n: int)
    requires
        0 <= n <= q.indices.len(),
        forall|k: int| 0 <= k < q.indices.len() ==> !v.indices@.contains(#[trigger] q.indices@[k]),
    ensures
        dot_prefix(q.indices@, q.weights@, v.indices@, v.weights@, n) == 0,
    decreases n,
{
    if n > 0 {
        lemma_dot_untouched(q, v, n - 1);
        let d = q.indices@[n - 1];
        assert(!v.indices@.contains(d));
        if exists|j: int| 0 <= j < v.indices.len() && v.indices@[j] == d {
            let j = choose|j: int| 0 <= j < v.indices.len() && v.indices@[j] == d;
            assert(v.indices@.contains(d));
        }
    }
}

/// The full scan lists each stored record once, with its dot product.
proof fn lemma_scan_contents(vectors: Seq<Option<SparseVector>>, q: SparseVector, n: int)
    requires
        0 <= n <= vectors.len(),
        vectors.len() <= 0x1_0000_0000,
    ensures
        forall|c: ScoredCandidate| #[trigger] scan(vectors, q, n).contains(c) ==> (c.vector_id as int) < n
            && vectors[c.vector_id as int] is Some && c == dot_candidate(vectors, q, c.vector_id),
        forall|rid: int| 0 <= rid < n && #[trigger] vectors[rid] is Some ==> scan(vectors, q, n).contains(
            dot_candidate(vectors, q, rid as RecordId),
        ),
        forall|i: int, j: int|
            0 <= i < j < scan(vectors, q, n).len() ==> scan(vectors, q, n)[i].vector_id < scan(vectors, q, n)[j].vector_id,
    decreases n,
{
    if n > 0 {
        lemma_scan_contents(vectors, q, n - 1);
        let prev = scan(vectors, q, n - 1);
        let cur = scan(vectors, q, n);
        assert forall|c: ScoredCandidate| #[trigger] cur.contains(c) implies (c.vector_id as int) < n
            && vectors[c.vector_id as int] is Some && c == dot_candidate(vectors, q, c.vector_id) by {
            let i = choose|i: int| 0 <= i < cur.len() && cur[i] == c;
            if i < prev.len() {
                assert(prev[i] == c);
                assert(prev.contains(c));
            }
        }
        assert forall|rid: int| 0 <= rid < n && #[trigger] vectors[rid] is Some implies cur.contains(
            dot_candidate(vectors, q, rid as RecordId),
        ) by {
            if rid < n - 1 {
                let dc = dot_candidate(vectors, q, rid as RecordId);
                assert(prev.contains(dc));
                let i = choose|i: int| 0 <= i < prev.len() && prev[i] == dc;
                assert(cur[i] == dc);
            } else {
                assert(cur[cur.len() - 1] == dot_candidate(vectors, q, rid as RecordId));
            }
        }
        assert forall|i: int, j: int| 0 <= i < j < cur.len() implies cur[i].vector_id < cur[j].vector_id by {
            if j == cur.len() - 1 && vectors[n - 1] is Some {
                assert(prev.contains(prev[i]));
            } else {
                assert(cur[i] == prev[i] && cur[j] == prev[j]);
            }
        }
    }
}

/// Candidates of `xs` that all stand in `ys`, none twice, are no more than `ys` holds.
proof fn lemma_pigeon(xs: Seq<ScoredCandidate>, ys: Seq<ScoredCandidate>)
    requires
        xs.no_duplicates(),
        forall|c: ScoredCandidate| #[trigger] xs.contains(c) ==> ys.contains(c),
    ensures
        xs.len() <= ys.len(),
{
    xs.unique_seq_to_set();
    ys.lemma_cardinality_of_set();
    assert(xs.to_set().subset_of(ys.to_set()));
    vstd::set_lib::lemma_len_subset(xs.to_set(), ys.to_set());
}

/// The full-scan and mutable-index paths agree where they overlap: with no negative weight in
/// the store or the query, any results `f` and `m` that the two paths' contracts allow have
/// the same score at every position both reach. (The full scan goes on with the records the
/// query does not touch, all scored zero.)
pub proof fn lemma_full_scan_and_mutable_agree(
    storage: &SparseVectorStorage,
    q: SparseVector,
    limit: nat,
    top: nat,
    f: Seq<ScoredCandidate>,
    m: Seq<ScoredCandidate>,
)
    requires
        storage.wf(),
        q.wf(),
        weights_nonnegative(q),
        stored_weights_nonnegative(storage.stored()),
        exists|s: Seq<ScoredCandidate>|
            {
                &&& s.to_multiset() == scan(storage.stored(), q, storage.stored().len() as int).to_multiset()
                &&& scores_descending(s)
                &&& first_of(s, limit as int, f)
            },
        exists|ids: Seq<RecordId>, s: Seq<ScoredCandidate>|
            {
                &&& record_ids_ascending(ids)
                &&& forall|rid: RecordId| ids.contains(rid) <==> touches(storage.stored(), q, rid)
                &&& s.to_multiset() == scored(storage.stored(), q, ids).to_multiset()
                &&& scores_descending(s)
                &&& first_of(s, top as int, m)
            },
    ensures
        forall|j: int| 0 <= j < f.len() && j < m.len() ==> #[trigger] f[j].score == m[j].score,
{
    let vs = storage.stored();
    let s1 = choose|s: Seq<ScoredCandidate>|
        {
            &&& s.to_multiset() == scan(vs, q, vs.len() as int).to_multiset()
            &&& scores_descending(s)
            &&& first_of(s, limit as int, f)
        };
    let (ids, s2) = choose|ids: Seq<RecordId>, s: Seq<ScoredCandidate>|
        {
            &&& record_ids_ascending(ids)
            &&& forall|rid: RecordId| ids.contains(rid) <==> touches(vs, q, rid)
            &&& s.to_multiset() == scored(vs, q, ids).to_multiset()
            &&& scores_descending(s)
            &&& first_of(s, top as int, m)
        };
    assert forall|rid: int| 0 <= rid < vs.len() && #[trigger] vs[rid] is Some implies vs[rid].unwrap().wf() by {
        assert(storage.vectors@[rid] is Some);
    }
    lemma_scan_contents(vs, q, vs.len() as int);
    let sc1 = scan(vs, q, vs.len() as int);
    let sc2 = scored(vs, q, ids);
    // both arrangements hold each candidate once
    assert(sc1.no_duplicates()) by {
        assert forall|i: int, j: int| 0 <= i < sc1.len() && 0 <= j < sc1.len() && i != j implies sc1[i] != sc1[j] by {
            if i < j {
                assert(sc1[i].vector_id < sc1[j].vector_id);
            } else {
                assert(sc1[j].vector_id < sc1[i].vector_id);
            }
        }
    }
    assert(sc2.no_duplicates()) by {
        assert forall|i: int, j: int| 0 <= i < sc2.len() && 0 <= j < sc2.len() && i != j implies sc2[i] != sc2[j] by {
            assert(sc2[i].vector_id == ids[i] && sc2[j].vector_id == ids[j]);
            if i < j {
                assert(ids[i] < ids[j]);
            } else {
                assert(ids[j] < ids[i]);
            }
        }
    }
    lemma_no_dup_counts(sc1);
    lemma_no_dup_counts(sc2);
    lemma_counts_no_dup(s1);
    lemma_counts_no_dup(s2);
    // what each arrangement holds
    assert forall|c: ScoredCandidate| #[trigger] s1.contains(c) implies vs[c.vector_id as int] is Some && c
        == dot_candidate(vs, q, c.vector_id) && (c.vector_id as int) < vs.len() by {
        assert(s1.to_multiset().count(c) > 0);
        assert(sc1.contains(c));
    }
    assert forall|c: ScoredCandidate| #[trigger] s2.contains(c) implies touches(vs, q, c.vector_id) && c
        == dot_candidate(vs, q, c.vector_id) by {
        assert(s2.to_multiset().count(c) > 0);
        assert(sc2.contains(c));
        let j = choose|j: int| 0 <= j < sc2.len() && sc2[j] == c;
        assert(ids.contains(ids[j]));
    }
    assert forall|rid: RecordId| touches(vs, q, rid) implies #[trigger] s2.contains(dot_candidate(vs, q, rid)) && s1.contains(
        dot_candidate(vs, q, rid),
    ) by {
        assert(ids.contains(rid));
        let j = choose|j: int| 0 <= j < ids.len() && ids[j] == rid;
        assert(sc2[j] == dot_candidate(vs, q, rid));
        assert(sc2.contains(dot_candidate(vs, q, rid)));
        assert(s2.to_multiset().count(dot_candidate(vs, q, rid)) > 0);
        let k = choose|k: int| 0 <= k < q.indices.len() && stored_with(vs, rid, #[trigger] q.indices@[k]);
        assert(stored_with(vs, rid, q.indices@[k]));
        assert(sc1.contains(dot_candidate(vs, q, rid)));
        assert(s1.to_multiset().count(dot_candidate(vs, q, rid)) > 0);
    }
    // scores: touched records score at least zero, the others exactly zero
    assert forall|c: ScoredCandidate| #[trigger] s1.contains(c) implies c.score >= 0 && (c.score > 0 ==> touches(vs, q, c.vector_id)) by {
        let v = vs[c.vector_id as int].unwrap();
        assert(v.wf());
        q.lemma_dot_fits(&v);
        assert forall|k: int| 0 <= k < v.weights.len() implies #[trigger] v.weights@[k] >= 0 by {
            assert(vs[c.vector_id as int].unwrap().weights@[k] >= 0);
        }
        lemma_dot_nonnegative(q, v, q.indices.len() as int);
        if !touches(vs, q, c.vector_id) {
            assert forall|k: int| 0 <= k < q.indices.len() implies !v.indices@.contains(#[trigger] q.indices@[k]) by {
                if v.indices@.contains(q.indices@[k]) {
                    assert(stored_with(vs, c.vector_id, q.indices@[k]));
                }
            }
            lemma_dot_untouched(q, v, q.indices.len() as int);
        }
    }
    assert forall|j: int| 0 <= j < f.len() && j < m.len() implies #[trigger] f[j].score == m[j].score by {
        assert(f[j] == s1[j] && m[j] == s2[j]);
        assert(s1.contains(s1[j]));
        assert(s2.contains(s2[j]));
        if s1[j].score > s2[j].score {
            // the first j + 1 of the full scan all stand among the first j of the other
            let xs = s1.take(j + 1);
            let ys = s2.take(j);
            assert forall|c: ScoredCandidate| #[trigger] xs.contains(c) implies ys.contains(c) by {
                let a = choose|a: int| 0 <= a < xs.len() && xs[a] == c;
                assert(s1[a] == c && s1.contains(c));
                assert(s2[j].score >= 0);
                assert(c.score > 0);
                assert(s2.contains(dot_candidate(vs, q, c.vector_id)));
                let b = choose|b: int| 0 <= b < s2.len() && s2[b] == c;
                if b >= j {
                    assert(s2[b].score <= s2[j].score);
                }
                assert(ys[b] == c);
            }
            lemma_pigeon(xs, ys);
        } else if s1[j].score < s2[j].score {
            let xs = s2.take(j + 1);
            let ys = s1.take(j);
            assert forall|c: ScoredCandidate| #[trigger] xs.contains(c) implies ys.contains(c) by {
                let a = choose|a: int| 0 <= a < xs.len() && xs[a] == c;
                assert(s2[a] == c && s2.contains(c));
                assert(s1.contains(dot_candidate(vs, q, c.vector_id)));
                let b = choose|b: int| 0 <= b < s1.len() && s1[b] == c;
                if b >= j {
                    assert(s1[b].score <= s1[j].score);
                }
                assert(ys[b] == c);
            }
            lemma_pigeon(xs, ys);
        }
    }
}

} // verus!
