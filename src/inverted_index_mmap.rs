use vstd::prelude::*;

use crate::inverted_index::InvertedIndexRam;
use crate::persistence::{
    decode_posting, file_len, index_bytes, lemma_round_trip, posting_from_bytes, postings_of,
    InvertedIndexFileHeader,
};
use crate::posting::{ids_ascending, is_valid_posting, max_next_correct, PostingElement, PostingList};
use crate::scored_candidate::{scores_descending, ScoredCandidate};
use crate::search_context::{lists_best, lists_for, lists_shape, query_nonnegative, search_index};
use crate::types::DimId;
use crate::vector::SparseVector;

verus! {

#[verifier::external_type_specification]
#[verifier::external_body]
pub struct ExMmap(memmap2::Mmap);

/// The bytes that a read-only memory map shows.
pub uninterp spec fn mapped(m: memmap2::Mmap) -> Seq<u8>;

/// Relies on `memmap2::Mmap`'s `Deref<Target = [u8]>`: the slice of the mapped bytes, the
/// same for every call on one map.
#[verifier::external_body]
fn mapped_bytes(m: &memmap2::Mmap) -> (r: &[u8])
    ensures
        r@ == mapped(*m),
{
    &m[..]
}

/// An index read in place from a mapped file: a header table, then the elements.
pub struct InvertedIndexMmap {
    pub mmap: memmap2::Mmap,
    pub file_header: InvertedIndexFileHeader,
}

impl InvertedIndexMmap {
    /// The posting list of dimension `d` as the mapped file gives it.
    pub open spec fn spec_get(&self, d: DimId) -> Option<Seq<PostingElement>> {
        decode_posting(mapped(self.mmap), self.file_header.posting_count as int, d as int)
    }

    /// The posting list of dimension `id`; `None` past the header table or where the file
    /// does not hold a well-formed list there.
    pub fn get(&self, id: &DimId) -> (r: Option<PostingList>)
        ensures
            match r {
                Some(p) => self.spec_get(*id) == Some(p.elements@),
                None => self.spec_get(*id) is None,
            },
    {
        let bytes = mapped_bytes(&self.mmap);
        match posting_from_bytes(bytes, self.file_header.posting_count, *id) {
            Some(elements) => Some(PostingList { elements }),
            None => None,
        }
    }
}

/// The posting list of dimension `d` in a mapped index, empty where it gives none.
pub open spec fn mmap_list(m: InvertedIndexMmap, d: DimId) -> Seq<PostingElement> {
    match m.spec_get(d) {
        Some(s) => s,
        None => Seq::empty(),
    }
}

/// The posting lists of the query's dimensions in a mapped index, position by position.
pub open spec fn mmap_lists(m: InvertedIndexMmap, q: SparseVector) -> Seq<Seq<PostingElement>> {
    Seq::new(q.indices.len() as nat, |k: int| mmap_list(m, q.indices@[k]))
}

/// A mapped index cannot serve query `q`: one of the query's lists in the file is not a
/// valid posting list, or the query's largest dimension leaves no room for a dense table.
pub open spec fn mmap_refuses(m: InvertedIndexMmap, q: SparseVector) -> bool {
    ||| exists|k: int| 0 <= k < q.indices.len() && !(ids_ascending(#[trigger] mmap_list(m, q.indices@[k])) && max_next_correct(
        mmap_list(m, q.indices@[k]),
    ))
    ||| q.indices.len() > 0 && q.indices@[q.indices.len() - 1] as int >= usize::MAX
}

impl InvertedIndexMmap {
    /// A dense in-memory table that holds, for each of the query's dimensions, the list the
    /// mapped file gives, and empty lists elsewhere; `None` where the file cannot serve.
    pub fn query_table(&self, query: &SparseVector) -> (r: Option<InvertedIndexRam>)
        requires
            query.wf(),
        ensures
            r is None <==> mmap_refuses(*self, *query),
            r matches Some(t) ==> t.wf() && lists_for(t, *query) == mmap_lists(*self, *query),
    {
        let ghost q = *query;
        let len = query.indices.len();
        let mut size: usize = 0;
        if len > 0 {
            let last = query.indices[len - 1];
            if last as usize == usize::MAX {
                return None;
            }
            size = last as usize + 1;
        }
        let mut postings: Vec<PostingList> = Vec::new();
        while postings.len() < size
            invariant
                postings.len() <= size,
                forall|d: int| 0 <= d < postings.len() ==> (#[trigger] postings@[d]).elements@ == Seq::<PostingElement>::empty(),
            decreases size - postings.len(),
        {
            postings.push(PostingList::empty());
        }
        let mut k: usize = 0;
        while k < len
            invariant
                q == *query,
                query.wf(),
                len == query.indices.len(),
                k <= len,
                postings.len() == size,
                len > 0 ==> size == q.indices@[len - 1] + 1,
                forall|d: int| 0 <= d < postings.len() ==> #[trigger] postings@[d].wf(),
                forall|j: int| 0 <= j < k ==> postings@[#[trigger] q.indices@[j] as int].elements@ == mmap_list(*self, q.indices@[j]),
                forall|j: int| 0 <= j < k ==> ids_ascending(#[trigger] mmap_list(*self, q.indices@[j])) && max_next_correct(mmap_list(*self, q.indices@[j])),
                forall|d: int|
                    0 <= d < postings.len() && !(exists|j: int| 0 <= j < k && q.indices@[j] == d) ==> (#[trigger] postings@[d]).elements@
                        == Seq::<PostingElement>::empty(),
            decreases len - k,
        {
            let d = query.indices[k];
            assert((d as int) < size) by {
                if k < len - 1 {
                    assert(q.indices@[k as int] < q.indices@[len - 1]);
                }
            }
            match self.get(&d) {
                Some(posting) => {
                    if !is_valid_posting(&posting.elements) {
                        assert(mmap_list(*self, q.indices@[k as int]) == posting.elements@);
                        assert(!(ids_ascending(mmap_list(*self, q.indices@[k as int])) && max_next_correct(
                            mmap_list(*self, q.indices@[k as int]),
                        )));
                        return None;
                    }
                    let ghost before = postings@;
                    postings.set(d as usize, posting);
                    assert forall|j: int| 0 <= j < k implies postings@[#[trigger] q.indices@[j] as int].elements@
                        == mmap_list(*self, q.indices@[j]) by {
                        assert(q.indices@[j] < d);
                        assert(before[q.indices@[j] as int].elements@ == mmap_list(*self, q.indices@[j]));
                    }
                    assert forall|dd: int|
                        0 <= dd < postings.len() && !(exists|j: int| 0 <= j < k + 1 && q.indices@[j] == dd) implies (#[trigger] postings@[dd]).elements@
                            == Seq::<PostingElement>::empty() by {
                        assert(dd != d);
                        assert(!(exists|j: int| 0 <= j < k && q.indices@[j] == dd));
                    }
                },
                None => {
                    assert(mmap_list(*self, d) == Seq::<PostingElement>::empty());
                    assert(postings@[d as int].elements@ == Seq::<PostingElement>::empty()) by {
                        if exists|j: int| 0 <= j < k && q.indices@[j] == d {
                            let j = choose|j: int| 0 <= j < k && q.indices@[j] == d;
                            assert(q.indices@[j] < q.indices@[k as int]);
                        }
                    }
                    assert forall|dd: int|
                        0 <= dd < postings.len() && !(exists|j: int| 0 <= j < k + 1 && q.indices@[j] == dd) implies (#[trigger] postings@[dd]).elements@
                            == Seq::<PostingElement>::empty() by {
                        assert(!(exists|j: int| 0 <= j < k && q.indices@[j] == dd));
                    }
                },
            }
            k += 1;
        }
        let t = InvertedIndexRam { postings };
        assert(lists_for(t, q) =~= mmap_lists(*self, q));
        Some(t)
    }
}

/// An immutable index, held in memory or read from a mapped file.
pub enum InvertedIndex {
    Ram(InvertedIndexRam),
    Mmap(InvertedIndexMmap),
}

impl InvertedIndex {
    /// The posting list of dimension `d`, or `None` where there is none.
    pub open spec fn spec_get(&self, d: DimId) -> Option<Seq<PostingElement>> {
        match self {
            InvertedIndex::Ram(index) => index.spec_get(d),
            InvertedIndex::Mmap(index) => index.spec_get(d),
        }
    }

    /// The posting lists of the query's dimensions, position by position.
    pub open spec fn query_lists(&self, q: SparseVector) -> Seq<Seq<PostingElement>> {
        match self {
            InvertedIndex::Ram(index) => lists_for(*index, q),
            InvertedIndex::Mmap(index) => mmap_lists(*index, q),
        }
    }

    /// Top-`top` search of `query`: the result holds `top` of the records of the query's
    /// posting lists (all of them where there are fewer), each once with its score over those
    /// lists, highest score first; with no negative query weight, a best `top`. The in-memory
    /// index is searched in place. From a mapped file only the query's lists are read, and
    /// `None` comes back where the file cannot serve the query.
    pub fn search(&self, query: SparseVector, top: usize) -> (r: Option<Vec<ScoredCandidate>>)
        requires
            query.wf(),
            top > 0,
            self matches InvertedIndex::Ram(index) ==> index.wf(),
        ensures
            r is None <==> (self matches InvertedIndex::Mmap(index) && mmap_refuses(*index, query)),
            r matches Some(v) ==> {
                &&& scores_descending(v@)
                &&& lists_shape(v@.to_multiset(), self.query_lists(query), query.weights@, top as nat)
                &&& query_nonnegative(query.weights@) ==> lists_best(
                    v@.to_multiset(),
                    self.query_lists(query),
                    query.weights@,
                    top as nat,
                )
            },
    {
        match self {
            InvertedIndex::Ram(index) => Some(search_index(query, top, index)),
            InvertedIndex::Mmap(index) => match index.query_table(&query) {
                Some(table) => Some(search_index(query, top, &table)),
                None => None,
            },
        }
    }

    /// The posting list of dimension `id`, or `None` where there is none.
    pub fn get(&self, id: &DimId) -> (r: Option<PostingList>)
        ensures
            match r {
                Some(p) => self.spec_get(*id) == Some(p.elements@),
                None => self.spec_get(*id) is None,
            },
    {
        match self {
            InvertedIndex::Ram(index) => match index.get(id) {
                Some(posting) => Some(posting.copy()),
                None => None,
            },
            InvertedIndex::Mmap(index) => index.get(id),
        }
    }
}

/// A file written from an in-memory index gives back, for every dimension of its table, the
/// posting list of that dimension, element for element.
pub proof fn lemma_mmap_round_trip(ix: InvertedIndexRam, d: DimId)
    requires
        (d as int) < ix.postings.len(),
        file_len(postings_of(&ix)) <= u64::MAX,
    ensures
        decode_posting(index_bytes(postings_of(&ix)), ix.postings.len() as int, d as int) == Some(
            ix.postings[d as int].elements@,
        ),
{
    lemma_round_trip(postings_of(&ix), d as int);
}

} // verus!
