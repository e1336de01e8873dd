use vstd::prelude::*;
use vstd::multiset::Multiset;

use crate::fixed_length_pq::{is_lowest, FixedLengthPriorityQueue};
use crate::inverted_index::InvertedIndexRam;
use crate::posting::{
    ids_ascending, lemma_max_after_is_max, lower_bound_at, max_after, max_next_correct, max_weight,
    PostingElement, PostingListIterator,
};
use crate::scored_candidate::{scores_descending, ScoredCandidate};
use crate::types::{lemma_product_bound, max_product, DimId, DimWeight, RecordId, Score};
use crate::vector::SparseVector;

verus! {

broadcast use vstd::seq_lib::group_to_multiset_ensures, vstd::multiset::group_multiset_axioms;

/// A cursor over one query dimension's posting list, with the position of that
/// dimension's weight among the query's weights.
#[derive(Clone, Copy)]
pub struct IndexedPostingListIterator<'a> {
    pub posting_list_iterator: PostingListIterator<'a>,
    pub query_weight_offset: usize,
}

/// The id under the cursor, if any.
pub open spec fn head_id(it: IndexedPostingListIterator) -> Option<RecordId> {
    match it.posting_list_iterator.spec_peek() {
        Some(e) => Some(e.id),
        None => None,
    }
}

/// The smallest id under the cursors of the first `n` iterators, `None` when all are at the end.
pub open spec fn min_head(its: Seq<IndexedPostingListIterator>, n: int) -> Option<RecordId>
    decreases n,
{
    if n <= 0 {
        None
    } else {
        let prev = min_head(its, n - 1);
        match head_id(its[n - 1]) {
            None => prev,
            Some(id) => match prev {
                None => Some(id),
                Some(m) => Some(if id < m { id } else { m }),
            },
        }
    }
}

/// What iterator `it` adds to the score of record `id`: its weight times the query weight
/// when `id` is under its cursor, zero otherwise.
pub open spec fn contribution(it: IndexedPostingListIterator, q: Seq<DimWeight>, id: RecordId) -> int {
    match it.posting_list_iterator.spec_peek() {
        Some(e) => if e.id == id {
            e.weight * q[it.query_weight_offset as int]
        } else {
            0
        },
        None => 0,
    }
}

/// The score of record `id` over the first `n` iterators.
pub open spec fn score_of(
    its: Seq<IndexedPostingListIterator>,
    q: Seq<DimWeight>,
    id: RecordId,
    n: int,
) -> int
    decreases n,
{
    if n <= 0 {
        0
    } else {
        score_of(its, q, id, n - 1) + contribution(its[n - 1], q, id)
    }
}

/// `b` is `a` with its cursor one entry further on.
pub open spec fn stepped(a: IndexedPostingListIterator, b: IndexedPostingListIterator) -> bool {
    &&& b.query_weight_offset == a.query_weight_offset
    &&& b.posting_list_iterator.elements() == a.posting_list_iterator.elements()
    &&& b.posting_list_iterator.position() == a.posting_list_iterator.position() + 1
    &&& b.posting_list_iterator.wf()
}

/// Every iterator whose cursor is on `id` has stepped past it; the others are unchanged.
pub open spec fn advanced_past(
    a: Seq<IndexedPostingListIterator>,
    b: Seq<IndexedPostingListIterator>,
    id: RecordId,
) -> bool {
    &&& a.len() == b.len()
    &&& forall|i: int|
        0 <= i < a.len() ==> if head_id(#[trigger] a[i]) == Some(id) {
            stepped(a[i], b[i])
        } else {
            b[i] == a[i]
        }
}

/// The number of entries left under the cursors of the first `n` iterators.
pub open spec fn remaining_total(its: Seq<IndexedPostingListIterator>, n: int) -> int
    decreases n,
{
    if n <= 0 {
        0
    } else {
        remaining_total(its, n - 1) + its[n - 1].posting_list_iterator.elements().len()
            - its[n - 1].posting_list_iterator.position()
    }
}

/// Remaining lengths do not increase along the sequence.
pub open spec fn longest_first(its: Seq<IndexedPostingListIterator>) -> bool {
    forall|i: int, j: int|
        0 <= i < j < its.len() ==> its[i].posting_list_iterator.elements().len()
            - its[i].posting_list_iterator.position() >= its[j].posting_list_iterator.elements().len()
            - its[j].posting_list_iterator.position()
}

/// A cursor that can be walked: within its list, over ascending ids, with a query weight.
pub open spec fn iterator_wf(it: IndexedPostingListIterator, qlen: int) -> bool {
    &&& it.posting_list_iterator.wf()
    &&& ids_ascending(it.posting_list_iterator.elements())
    &&& max_next_correct(it.posting_list_iterator.elements())
    &&& it.query_weight_offset < qlen
}

/// The search over one query: cursors over the query dimensions' posting lists, and the
/// best candidates found so far.
pub struct SearchContext<'a> {
    postings_iterators: Vec<IndexedPostingListIterator<'a>>,
    query: SparseVector,
    top: usize,
    result_queue: FixedLengthPriorityQueue,
}

impl<'a> SearchContext<'a> {
    /// The cursors, in their current order.
    pub closed spec fn iterators(&self) -> Seq<IndexedPostingListIterator<'a>> {
        self.postings_iterators@
    }

    /// The query's weights.
    pub closed spec fn query_weights(&self) -> Seq<DimWeight> {
        self.query.weights@
    }

    /// How many results are asked for.
    pub closed spec fn spec_top(&self) -> nat {
        self.top as nat
    }

    /// The best candidates found so far.
    pub closed spec fn found(&self) -> Multiset<ScoredCandidate> {
        self.result_queue.contents()
    }

    /// Every cursor can be walked, and the queue keeps `top` candidates.
    pub closed spec fn wf(&self) -> bool {
        &&& self.query.wf()
        &&& self.top > 0
        &&& self.result_queue.wf()
        &&& self.result_queue.capacity() == self.top
        &&& forall|i: int|
            0 <= i < self.postings_iterators.len() ==> iterator_wf(
                #[trigger] self.postings_iterators@[i],
                self.query.weights.len() as int,
            )
    }
}

/// The smallest head is the head of some iterator.
proof fn lemma_min_head_attained(its: Seq<IndexedPostingListIterator>, n: int)
    requires
        0 <= n <= its.len(),
        min_head(its, n) is Some,
    ensures
        exists|i: int| 0 <= i < n && head_id(its[i]) == min_head(its, n),
    decreases n,
{
    let prev = min_head(its, n - 1);
    if head_id(its[n - 1]) is Some {
        if prev is Some && min_head(its, n) == prev {
            lemma_min_head_attained(its, n - 1);
        } else {
            assert(head_id(its[n - 1]) == min_head(its, n));
        }
    } else {
        lemma_min_head_attained(its, n - 1);
    }
}

/// Without any head, `min_head` is `None`; with one, it is `Some`.
proof fn lemma_min_head_none(its: Seq<IndexedPostingListIterator>, n: int)
    requires
        0 <= n <= its.len(),
    ensures
        min_head(its, n) is None <==> forall|i: int| 0 <= i < n ==> head_id(#[trigger] its[i]) is None,
    decreases n,
{
    if n > 0 {
        lemma_min_head_none(its, n - 1);
    }
}

/// Stepping iterators past `id` takes entries away, one for each iterator on `id`.
proof fn lemma_remaining_after_advance(
    a: Seq<IndexedPostingListIterator>,
    b: Seq<IndexedPostingListIterator>,
    id: RecordId,
    n: int,
)
    requires
        0 <= n <= a.len(),
        advanced_past(a, b, id),
    ensures
        remaining_total(b, n) <= remaining_total(a, n),
        (exists|i: int| 0 <= i < n && head_id(a[i]) == Some(id)) ==> remaining_total(b, n)
            < remaining_total(a, n),
    decreases n,
{
    if n > 0 {
        lemma_remaining_after_advance(a, b, id, n - 1);
        if exists|i: int| 0 <= i < n && head_id(a[i]) == Some(id) {
            let i = choose|i: int| 0 <= i < n && head_id(a[i]) == Some(id);
            if i < n - 1 {
                assert(exists|i: int| 0 <= i < n - 1 && head_id(a[i]) == Some(id));
            }
        }
    }
}

/// The score over `n` iterators is at most `n` maximal products in absolute value.
proof fn lemma_score_bound(its: Seq<IndexedPostingListIterator>, q: Seq<DimWeight>, id: RecordId, n: int)
    requires
        0 <= n <= its.len(),
    ensures
        -n * max_product() <= score_of(its, q, id, n) <= n * max_product(),
    decreases n,
{
    if n > 0 {
        lemma_score_bound(its, q, id, n - 1);
        let it = its[n - 1];
        if let Some(e) = it.posting_list_iterator.spec_peek() {
            lemma_product_bound(e.weight, q[it.query_weight_offset as int]);
        }
    }
}

impl<'a> SearchContext<'a> {
    /// Scores the smallest record id under the cursors and steps every cursor that is on it.
    /// `None` once every cursor is at its end.
    pub fn advance(&mut self) -> (r: Option<ScoredCandidate>)
        requires
            old(self).wf(),
        ensures
            final(self).wf(),
            final(self).query_weights() == old(self).query_weights(),
            final(self).spec_top() == old(self).spec_top(),
            final(self).found() == old(self).found(),
            match min_head(old(self).iterators(), old(self).iterators().len() as int) {
                None => r is None && final(self).iterators() == old(self).iterators(),
                Some(id) => {
                    &&& r == Some(ScoredCandidate {
                        score: score_of(
                            old(self).iterators(),
                            old(self).query_weights(),
                            id,
                            old(self).iterators().len() as int,
                        ) as Score,
                        vector_id: id,
                    })
                    &&& score_of(
                        old(self).iterators(),
                        old(self).query_weights(),
                        id,
                        old(self).iterators().len() as int,
                    ) == r.unwrap().score
                    &&& advanced_past(old(self).iterators(), final(self).iterators(), id)
                    &&& remaining_total(final(self).iterators(), final(self).iterators().len() as int)
                        < remaining_total(old(self).iterators(), old(self).iterators().len() as int)
                },
            },
    {
        let ghost its = self.postings_iterators@;
        let ghost q = self.query.weights@;
        let n = self.postings_iterators.len();
        let mut min_record_id: RecordId = 0xffff_ffff;
        let mut found = false;
        let mut i: usize = 0;
        while i < n
            invariant
                n == its.len(),
                its == self.postings_iterators@,
                q == self.query.weights@,
                self.wf(),
                i <= n,
                found == min_head(its, i as int) is Some,
                found ==> min_head(its, i as int) == Some(min_record_id),
            decreases n - i,
        {
            assert(iterator_wf(its[i as int], q.len() as int));
            if let Some(element) = self.postings_iterators[i].posting_list_iterator.peek() {
                if !found || element.id < min_record_id {
                    min_record_id = element.id;
                }
                found = true;
            }
            i += 1;
        }
        if !found {
            return None;
        }
        proof {
            lemma_min_head_attained(its, n as int);
        }
        let mut score: Score = 0;
        let mut i: usize = 0;
        while i < n
            invariant
                n == its.len(),
                q == self.query.weights@,
                self.wf(),
                old(self).result_queue == self.result_queue,
                old(self).query == self.query,
                old(self).top == self.top,
                its == old(self).postings_iterators@,
                self.postings_iterators.len() == n,
                i <= n,
                score == score_of(its, q, min_record_id, i as int),
                forall|k: int|
                    0 <= k < i ==> if head_id(#[trigger] its[k]) == Some(min_record_id) {
                        stepped(its[k], self.postings_iterators@[k])
                    } else {
                        self.postings_iterators@[k] == its[k]
                    },
                forall|k: int| i <= k < n ==> #[trigger] self.postings_iterators@[k] == its[k],
            decreases n - i,
        {
            let mut it = self.postings_iterators[i];
            assert(iterator_wf(its[i as int], q.len() as int));
            if let Some(element) = it.posting_list_iterator.peek() {
                if element.id == min_record_id {
                    it.posting_list_iterator.next();
                    let w = self.query.weights[it.query_weight_offset];
                    proof {
                        lemma_score_bound(its, q, min_record_id, i as int);
                        lemma_product_bound(element.weight, w);
                    }
                    score = score + (element.weight as i128) * (w as i128);
                    self.postings_iterators.set(i, it);
                }
            }
            i += 1;
        }
        proof {
            assert(advanced_past(its, self.postings_iterators@, min_record_id));
            lemma_remaining_after_advance(its, self.postings_iterators@, min_record_id, n as int);
        }
        Some(ScoredCandidate { score, vector_id: min_record_id })
    }
}

/// The smallest id under the cursors of iterators `1` to `n - 1` (all but the head),
/// `None` when all of them are at their end.
pub open spec fn min_head_after(its: Seq<IndexedPostingListIterator>, n: int) -> Option<RecordId>
    decreases n,
{
    if n <= 1 {
        None
    } else {
        let prev = min_head_after(its, n - 1);
        match head_id(its[n - 1]) {
            None => prev,
            Some(id) => match prev {
                None => Some(id),
                Some(m) => Some(if id < m { id } else { m }),
            },
        }
    }
}

/// The smallest id under the cursors other than the head, where there is one.
pub open spec fn next_head(its: Seq<IndexedPostingListIterator>) -> Option<RecordId> {
    min_head_after(its, its.len() as int)
}

/// The smallest head after the first is at most every head after the first, and there is
/// one as soon as one of them has a head.
proof fn lemma_min_head_after_is_min(its: Seq<IndexedPostingListIterator>, n: int)
    requires
        0 <= n <= its.len(),
    ensures
        forall|j: int| 1 <= j < n && (#[trigger] head_id(its[j])) is Some ==> min_head_after(its, n) is Some
            && min_head_after(its, n).unwrap() <= head_id(its[j]).unwrap(),
    decreases n,
{
    if n > 1 {
        lemma_min_head_after_is_min(its, n - 1);
    }
}

/// The most that the entries left under `it`'s cursor can add to any score: the larger of
/// the weight under the cursor and the largest weight after it, times the query weight.
pub open spec fn upper_bound(it: IndexedPostingListIterator, q: Seq<DimWeight>) -> Option<int> {
    match it.posting_list_iterator.spec_peek() {
        Some(e) => Some(max_weight(e.weight, e.max_next_weight) * q[it.query_weight_offset as int]),
        None => None,
    }
}

/// `b` is the head iterator `a` after pruning against `min_score`: where what `a` can still
/// add stays below `min_score`, its cursor moves to the first id not below `next`
/// (to the end where there is no `next`); otherwise nothing changes.
pub open spec fn pruned(
    a: IndexedPostingListIterator,
    next: Option<RecordId>,
    q: Seq<DimWeight>,
    min_score: int,
    b: IndexedPostingListIterator,
) -> bool {
    if upper_bound(a, q) matches Some(u) && u < min_score {
        &&& b.query_weight_offset == a.query_weight_offset
        &&& b.posting_list_iterator.elements() == a.posting_list_iterator.elements()
        &&& b.posting_list_iterator.wf()
        &&& match next {
            None => b.posting_list_iterator.position() == b.posting_list_iterator.elements().len(),
            Some(t) => lower_bound_at(
                a.posting_list_iterator.elements(),
                a.posting_list_iterator.position(),
                t,
                b.posting_list_iterator.position(),
            ),
        }
    } else {
        b == a
    }
}

/// Relies on `slice::sort_by` with a total order: afterwards the remaining lengths do not
/// increase, and the cursors are those from before, only reordered.
#[verifier::external_body]
fn sort_by_remaining(v: &mut Vec<IndexedPostingListIterator>)
    requires
        forall|i: int| 0 <= i < old(v)@.len() ==> (#[trigger] old(v)@[i]).posting_list_iterator.wf(),
    ensures
        final(v)@.to_multiset() == old(v)@.to_multiset(),
        longest_first(final(v)@),
{
    v.sort_by(|a, b| compare_remaining(a, b));
}

/// Orders cursors by the number of entries left, most first.
fn compare_remaining(a: &IndexedPostingListIterator, b: &IndexedPostingListIterator) -> (r: core::cmp::Ordering)
    ensures
        a.posting_list_iterator.wf() && b.posting_list_iterator.wf() ==> {
            let la = a.posting_list_iterator.elements().len() - a.posting_list_iterator.position();
            let lb = b.posting_list_iterator.elements().len() - b.posting_list_iterator.position();
            &&& r == core::cmp::Ordering::Less <==> la > lb
            &&& r == core::cmp::Ordering::Equal <==> la == lb
            &&& r == core::cmp::Ordering::Greater <==> la < lb
        },
{
    let la = a.posting_list_iterator.len_left();
    let lb = b.posting_list_iterator.len_left();
    if la > lb {
        core::cmp::Ordering::Less
    } else if la == lb {
        core::cmp::Ordering::Equal
    } else {
        core::cmp::Ordering::Greater
    }
}

/// No cursor is past its end, so the number of entries left is not negative.
proof fn lemma_remaining_nonneg(its: Seq<IndexedPostingListIterator>, n: int)
    requires
        0 <= n <= its.len(),
        forall|i: int| 0 <= i < n ==> (#[trigger] its[i]).posting_list_iterator.wf(),
    ensures
        remaining_total(its, n) >= 0,
    decreases n,
{
    if n > 0 {
        lemma_remaining_nonneg(its, n - 1);
    }
}

/// No two cursors read the same query position.
pub open spec fn offsets_distinct(its: Seq<IndexedPostingListIterator>) -> bool {
    forall|i: int, j: int|
        0 <= i < its.len() && 0 <= j < its.len() && i != j ==> its[i].query_weight_offset
            != its[j].query_weight_offset
}

/// Reordering cursors keeps their query positions distinct.
proof fn lemma_reordered_offsets(a: Seq<IndexedPostingListIterator>, b: Seq<IndexedPostingListIterator>)
    requires
        offsets_distinct(a),
        b.to_multiset() == a.to_multiset(),
    ensures
        offsets_distinct(b),
{
    assert forall|i: int, j: int|
        0 <= i < b.len() && 0 <= j < b.len() && i != j implies b[i].query_weight_offset
        != b[j].query_weight_offset by {
        if b[i].query_weight_offset == b[j].query_weight_offset {
            let x = b[i];
            let y = b[j];
            assert(b.contains(x));
            assert(b.contains(y));
            assert(b.to_multiset().count(x) > 0);
            assert(b.to_multiset().count(y) > 0);
            assert(a.to_multiset().count(x) > 0);
            assert(a.to_multiset().count(y) > 0);
            assert(a.contains(x));
            assert(a.contains(y));
            let p = choose|p: int| 0 <= p < a.len() && a[p] == x;
            let q = choose|q: int| 0 <= q < a.len() && a[q] == y;
            if p == q {
                let rest = b.remove(i);
                if j < i {
                    assert(rest[j] == y);
                } else {
                    assert(rest[j - 1] == y);
                }
                assert(rest.contains(x));
                assert(rest.to_multiset().count(x) > 0);
                assert(b.to_multiset().count(x) >= 2);
                let orest = a.remove(p);
                assert(orest.to_multiset().count(x) > 0);
                assert(orest.contains(x));
                let r = choose|r: int| 0 <= r < orest.len() && orest[r] == x;
                if r < p {
                    assert(a[r] == x);
                } else {
                    assert(a[r + 1] == x);
                }
            }
        }
    }
}

/// Moving cursors forward never adds entries.
proof fn lemma_remaining_monotone(a: Seq<IndexedPostingListIterator>, b: Seq<IndexedPostingListIterator>, n: int)
    requires
        0 <= n <= a.len(),
        a.len() == b.len(),
        forall|i: int|
            0 <= i < n ==> (#[trigger] b[i]).posting_list_iterator.elements().len()
                - b[i].posting_list_iterator.position() <= a[i].posting_list_iterator.elements().len()
                - a[i].posting_list_iterator.position(),
    ensures
        remaining_total(b, n) <= remaining_total(a, n),
    decreases n,
{
    if n > 0 {
        lemma_remaining_monotone(a, b, n - 1);
    }
}

impl<'a> SearchContext<'a> {
    /// Opens a cursor on the posting list of each query dimension that has a non-empty one,
    /// longest list first, and an empty queue for `top` results.
    pub fn new(query: SparseVector, top: usize, inverted_index: &'a InvertedIndexRam) -> (r: SearchContext<'a>)
        requires
            query.wf(),
            inverted_index.wf(),
            top > 0,
        ensures
            r.wf(),
            r.query_weights() == query.weights@,
            r.spec_top() == top,
            r.found() == Multiset::<ScoredCandidate>::empty(),
            longest_first(r.iterators()),
            offsets_distinct(r.iterators()),
            forall|i: int|
                0 <= i < r.iterators().len() ==> {
                    let it = #[trigger] r.iterators()[i];
                    let k = it.query_weight_offset as int;
                    &&& 0 <= k < query.indices.len()
                    &&& (query.indices[k] as int) < inverted_index.postings.len()
                    &&& it.posting_list_iterator.elements() == inverted_index.postings[query.indices[k] as int].elements@
                    &&& it.posting_list_iterator.position() == 0
                    &&& it.posting_list_iterator.elements().len() > 0
                },
            forall|k: int|
                0 <= k < query.indices.len() && (query.indices[k] as int) < inverted_index.postings.len()
                    && inverted_index.postings[query.indices[k] as int].elements.len() > 0 ==> exists|i: int|
                    0 <= i < r.iterators().len() && (#[trigger] r.iterators()[i]).query_weight_offset == k,
    {
        let mut postings_iterators: Vec<IndexedPostingListIterator<'a>> = Vec::new();
        let mut k: usize = 0;
        while k < query.indices.len()
            invariant
                query.wf(),
                inverted_index.wf(),
                k <= query.indices.len(),
                offsets_distinct(postings_iterators@),
                forall|i: int| 0 <= i < postings_iterators.len() ==> (#[trigger] postings_iterators@[i]).query_weight_offset < k,
                forall|i: int|
                    0 <= i < postings_iterators.len() ==> {
                        let it = #[trigger] postings_iterators@[i];
                        let k = it.query_weight_offset as int;
                        &&& 0 <= k < query.indices.len()
                        &&& (query.indices[k] as int) < inverted_index.postings.len()
                        &&& it.posting_list_iterator.elements() == inverted_index.postings[query.indices[k] as int].elements@
                        &&& it.posting_list_iterator.position() == 0
                        &&& it.posting_list_iterator.elements().len() > 0
                        &&& iterator_wf(it, query.weights.len() as int)
                    },
                forall|j: int|
                    0 <= j < k && (query.indices[j] as int) < inverted_index.postings.len()
                        && inverted_index.postings[query.indices[j] as int].elements.len() > 0 ==> exists|i: int|
                        0 <= i < postings_iterators.len() && (#[trigger] postings_iterators@[i]).query_weight_offset == j,
            decreases query.indices.len() - k,
        {
            let id = query.indices[k];
            if let Some(posting) = inverted_index.get(&id) {
                if posting.elements.len() > 0 {
                    assert(inverted_index.postings[id as int].wf());
                    let it = IndexedPostingListIterator {
                        posting_list_iterator: PostingListIterator::new(posting),
                        query_weight_offset: k,
                    };
                    let ghost prev = postings_iterators@;
                    postings_iterators.push(it);
                    assert(postings_iterators@[postings_iterators.len() - 1] == it);
                    assert forall|j: int|
                        0 <= j < k + 1 && (query.indices[j] as int) < inverted_index.postings.len()
                            && inverted_index.postings[query.indices[j] as int].elements.len() > 0 implies exists|i: int|
                            0 <= i < postings_iterators.len() && (#[trigger] postings_iterators@[i]).query_weight_offset == j by {
                        if j < k {
                            let i0 = choose|i: int| 0 <= i < prev.len() && (#[trigger] prev[i]).query_weight_offset == j;
                            assert(postings_iterators@[i0] == prev[i0]);
                        } else {
                            assert(postings_iterators@[postings_iterators.len() - 1].query_weight_offset == j);
                        }
                    }
                }
            }
            k += 1;
        }
        let ghost before = postings_iterators@;
        sort_by_remaining(&mut postings_iterators);
        proof {
            let after = postings_iterators@;
            lemma_reordered_offsets(before, after);
            assert forall|i: int| 0 <= i < after.len() implies before.contains(#[trigger] after[i]) by {
                assert(after.contains(after[i]));
                assert(after.to_multiset().count(after[i]) > 0);
            }
            assert forall|j: int|
                0 <= j < query.indices.len() && (query.indices[j] as int) < inverted_index.postings.len()
                    && inverted_index.postings[query.indices[j] as int].elements.len() > 0 implies exists|i: int|
                    0 <= i < after.len() && (#[trigger] after[i]).query_weight_offset == j by {
                let i0 = choose|i: int| 0 <= i < before.len() && (#[trigger] before[i]).query_weight_offset == j;
                assert(before.contains(before[i0]));
                assert(before.to_multiset().count(before[i0]) > 0);
                assert(after.contains(before[i0]));
            }
        }
        let ghost sorted = postings_iterators@;
        let r = SearchContext {
            postings_iterators,
            query,
            top,
            result_queue: FixedLengthPriorityQueue::new(top),
        };
        assert(r.iterators() == sorted);
        r
    }

    /// Puts the cursor with the most entries left first.
    pub fn sort_posting_lists_by_len(&mut self)
        requires
            old(self).wf(),
        ensures
            final(self).wf(),
            final(self).iterators().to_multiset() == old(self).iterators().to_multiset(),
            longest_first(final(self).iterators()),
            final(self).query_weights() == old(self).query_weights(),
            final(self).spec_top() == old(self).spec_top(),
            final(self).found() == old(self).found(),
    {
        let ghost before = self.postings_iterators@;
        sort_by_remaining(&mut self.postings_iterators);
        proof {
            let after = self.postings_iterators@;
            assert forall|i: int| 0 <= i < after.len() implies iterator_wf(#[trigger] after[i], self.query.weights.len() as int) by {
                assert(after.contains(after[i]));
                assert(after.to_multiset().count(after[i]) > 0);
                assert(before.contains(after[i]));
            }
        }
    }

    /// Where the head cursor (the longest list) can no longer lift a score to `min_score`,
    /// moves it past every id below the smallest id under the other cursors (to its end
    /// where every other cursor is at its end).
    pub fn prune_longest_posting_list(&mut self, min_score: Score)
        requires
            old(self).wf(),
        ensures
            final(self).wf(),
            final(self).query_weights() == old(self).query_weights(),
            final(self).spec_top() == old(self).spec_top(),
            final(self).found() == old(self).found(),
            final(self).iterators().len() == old(self).iterators().len(),
            forall|i: int| 1 <= i < old(self).iterators().len() ==> #[trigger] final(self).iterators()[i] == old(self).iterators()[i],
            old(self).iterators().len() > 0 ==> pruned(
                old(self).iterators()[0],
                next_head(old(self).iterators()),
                old(self).query_weights(),
                min_score as int,
                final(self).iterators()[0],
            ),
            remaining_total(final(self).iterators(), final(self).iterators().len() as int)
                <= remaining_total(old(self).iterators(), old(self).iterators().len() as int),
    {
        let n = self.postings_iterators.len();
        if n == 0 {
            return;
        }
        let ghost its = self.postings_iterators@;
        let ghost q = self.query.weights@;
        assert(iterator_wf(its[0], q.len() as int));
        let mut skip_to: Option<RecordId> = None;
        let mut i: usize = 1;
        while i < n
            invariant
                1 <= i <= n,
                n == its.len(),
                its == self.postings_iterators@,
                q == self.query.weights@,
                self.wf(),
                skip_to == min_head_after(its, i as int),
            decreases n - i,
        {
            assert(iterator_wf(its[i as int], q.len() as int));
            if let Some(element) = self.postings_iterators[i].posting_list_iterator.peek() {
                skip_to = match skip_to {
                    Some(m) => Some(if element.id < m { element.id } else { m }),
                    None => Some(element.id),
                };
            }
            i += 1;
        }
        let mut it = self.postings_iterators[0];
        if let Some(element) = it.posting_list_iterator.peek() {
            let max_weight_from_list = if element.weight >= element.max_next_weight {
                element.weight
            } else {
                element.max_next_weight
            };
            let w = self.query.weights[it.query_weight_offset];
            proof {
                lemma_product_bound(max_weight_from_list, w);
            }
            let score_contribution = (max_weight_from_list as i128) * (w as i128);
            if score_contribution < min_score {
                match skip_to {
                    Some(target) => {
                        it.posting_list_iterator.skip_to(target);
                    },
                    None => {
                        it.posting_list_iterator.skip_to_end();
                    },
                }
                self.postings_iterators.set(0, it);
            }
        }
        proof {
            lemma_remaining_monotone(its, self.postings_iterators@, n as int);
        }
    }

    /// Walks all cursors in record-id order, offering each scored record to the queue, and
    /// prunes the head cursor whenever the queue is full. Returns the queue's candidates,
    /// highest score first.
    ///
    /// From fresh cursors and an empty queue, the result holds `top` of the records listed
    /// under the cursors (all of them where there are fewer), each once with its full score.
    /// With no negative query weight, these are a best `top` of them.
    pub fn search(&mut self) -> (r: Vec<ScoredCandidate>)
        requires
            old(self).wf(),
        ensures
            scores_descending(r@),
            r@.len() <= old(self).spec_top(),
            min_head(final(self).iterators(), final(self).iterators().len() as int) is None,
            fresh_search(old(self).iterators(), old(self).found()) ==> top_shape(
                r@.to_multiset(),
                candidate_ids(old(self).iterators()),
                old(self).iterators(),
                old(self).query_weights(),
                old(self).spec_top(),
            ),
            fresh_search(old(self).iterators(), old(self).found()) && query_nonnegative(old(self).query_weights())
                ==> top_best(
                r@.to_multiset(),
                candidate_ids(old(self).iterators()),
                old(self).iterators(),
                old(self).query_weights(),
                old(self).spec_top(),
            ),
    {
        let ghost its0 = self.postings_iterators@;
        let ghost q = self.query.weights@;
        let ghost fresh = fresh_search(its0, self.result_queue.contents());
        let ghost best = fresh && query_nonnegative(q);
        let ghost mut settled: Set<RecordId> = Set::empty();
        proof {
            if fresh {
                self.lemma_cursors_wf();
                lemma_fresh_start(its0);
                assert(is_top(self.result_queue.contents(), settled, its0, q, self.top as nat));
            }
        }
        loop
            invariant
                self.wf(),
                self.top == old(self).top,
                self.query.weights@ == q,
                self.postings_iterators.len() == its0.len(),
                fresh == fresh_search(its0, old(self).result_queue.contents()),
                best == (fresh && query_nonnegative(q)),
                fresh ==> {
                    &&& same_lists(its0, self.postings_iterators@)
                    &&& passed_below_heads(self.postings_iterators@)
                    &&& settled_matches(self.postings_iterators@, settled)
                    &&& settled.finite()
                    &&& top_shape(self.result_queue.contents(), settled, self.postings_iterators@, q, self.top as nat)
                },
                best ==> top_best(self.result_queue.contents(), settled, self.postings_iterators@, q, self.top as nat),
            ensures
                self.wf(),
                self.top == old(self).top,
                self.query.weights@ == q,
                min_head(self.iterators(), self.iterators().len() as int) is None,
                fresh ==> {
                    &&& same_lists(its0, self.postings_iterators@)
                    &&& settled_matches(self.postings_iterators@, settled)
                    &&& settled.finite()
                    &&& top_shape(self.result_queue.contents(), settled, self.postings_iterators@, q, self.top as nat)
                },
                best ==> top_best(self.result_queue.contents(), settled, self.postings_iterators@, q, self.top as nat),
            decreases remaining_total(self.postings_iterators@, self.postings_iterators.len() as int),
        {
            let ghost before = remaining_total(self.postings_iterators@, self.postings_iterators.len() as int);
            let ghost its_a = self.postings_iterators@;
            let ghost found_a = self.result_queue.contents();
            proof {
                self.lemma_cursors_wf();
            }
            match self.advance() {
                Some(candidate) => {
                    assert(remaining_total(self.postings_iterators@, self.postings_iterators.len() as int) < before);
                    self.result_queue.push(candidate);
                    proof {
                        self.lemma_cursors_wf();
                        if fresh {
                            let its_b = self.postings_iterators@;
                            let m = candidate.vector_id;
                            lemma_advance_scores_fully(its_a, q, m, its_a.len() as int);
                            lemma_full_score_fits(its_a, q, m);
                            assert(candidate == full_candidate(its_a, q, m));
                            lemma_settled_after_advance(its_a, its_b, m, settled);
                            lemma_top_after_push(found_a, self.result_queue.contents(), settled, its_a, q, self.top as nat, m);
                            settled = settled.insert(m);
                            lemma_same_lists_top(self.result_queue.contents(), settled, its_a, its_b, q, self.top as nat);
                            assert(same_lists(its0, its_b));
                        }
                    }
                    assert(remaining_total(self.postings_iterators@, self.postings_iterators.len() as int) < before);
                },
                None => {
                    break;
                },
            }
            if self.result_queue.len() == self.top {
                if let Some(lowest) = self.result_queue.top() {
                    let ghost its_c = self.postings_iterators@;
                    self.prune_longest_posting_list(lowest.score);
                    proof {
                        self.lemma_cursors_wf();
                        let its_d = self.postings_iterators@;
                        if fresh {
                            if its_c.len() == 0 {
                                assert(its_d =~= its_c);
                            } else {
                                assert(iterator_wf(its_c[0], q.len() as int));
                                settled = lemma_after_prune(
                                    its_c,
                                    its_d,
                                    q,
                                    lowest,
                                    settled,
                                    self.result_queue.contents(),
                                    self.top as nat,
                                );
                            }
                            assert(same_lists(its0, its_d));
                        }
                    }
                }
            }
            assert(remaining_total(self.postings_iterators@, self.postings_iterators.len() as int) < before);
            proof {
                let its = self.postings_iterators@;
                assert forall|i: int| 0 <= i < its.len() implies (#[trigger] its[i]).posting_list_iterator.wf() by {
                    assert(iterator_wf(its[i], self.query.weights.len() as int));
                }
                lemma_remaining_nonneg(its, its.len() as int);
            }
        }
        proof {
            if fresh {
                let its = self.postings_iterators@;
                lemma_min_head_none(its, its.len() as int);
                assert(settled =~= candidate_ids(its0)) by {
                    assert forall|r: RecordId| settled.contains(r) <==> candidate_ids(its0).contains(r) by {
                        lemma_same_lists_scores(its0, its, q, r, 0);
                    }
                }
                lemma_same_lists_top(self.result_queue.contents(), settled, its, its0, q, self.top as nat);
            }
        }
        let mut queue = FixedLengthPriorityQueue::new(self.top);
        core::mem::swap(&mut queue, &mut self.result_queue);
        let r = queue.into_vec();
        proof {
            vstd::seq_lib::to_multiset_len(r@);
        }
        r
    }

    /// Every cursor of a well-formed context walks an ascending list.
    proof fn lemma_cursors_wf(&self)
        requires
            self.wf(),
        ensures
            cursors_wf(self.postings_iterators@),
    {
        let its = self.postings_iterators@;
        assert forall|i: int| 0 <= i < its.len() implies (#[trigger] its[i]).posting_list_iterator.wf() && ids_ascending(
            its[i].posting_list_iterator.elements(),
        ) by {
            assert(iterator_wf(its[i], self.query.weights.len() as int));
        }
    }
}

/// A search from the start: every cursor at the start of its list and an empty queue.
pub open spec fn fresh_search(its: Seq<IndexedPostingListIterator>, found: Multiset<ScoredCandidate>) -> bool {
    &&& forall|i: int| 0 <= i < its.len() ==> (#[trigger] its[i]).posting_list_iterator.position() == 0
    &&& found.len() == 0
}

/// No query weight is negative.
pub open spec fn query_nonnegative(q: Seq<DimWeight>) -> bool {
    forall|k: int| 0 <= k < q.len() ==> q[k] >= 0
}

/// At the start no entry is passed and no listed record is below every head.
proof fn lemma_fresh_start(its: Seq<IndexedPostingListIterator>)
    requires
        cursors_wf(its),
        forall|i: int| 0 <= i < its.len() ==> (#[trigger] its[i]).posting_list_iterator.position() == 0,
    ensures
        passed_below_heads(its),
        settled_matches(its, Set::empty()),
{
    assert forall|r: RecordId| #[trigger] Set::<RecordId>::empty().contains(r) <==> listed(its, r) && below_heads(its, r) by {
        if listed(its, r) {
            let i = choose|i: int| 0 <= i < its.len() && listed_in(#[trigger] its[i], r);
            let e = its[i].posting_list_iterator.elements();
            let k = choose|k: int| 0 <= k < e.len() && #[trigger] e[k].id == r;
            if k > 0 {
                assert(e[0].id < e[k].id);
            }
            assert(head_id(its[i]) == Some(e[0].id));
        }
    }
}

/// `is_top` reads only the lists and query positions, not the cursors.
proof fn lemma_same_lists_top(
    found: Multiset<ScoredCandidate>,
    settled: Set<RecordId>,
    a: Seq<IndexedPostingListIterator>,
    b: Seq<IndexedPostingListIterator>,
    q: Seq<DimWeight>,
    top: nat,
)
    requires
        same_lists(a, b),
        top_shape(found, settled, a, q, top),
    ensures
        top_shape(found, settled, b, q, top),
        top_best(found, settled, a, q, top) ==> top_best(found, settled, b, q, top),
{
    assert forall|r: RecordId| true implies full_score(a, q, r, a.len() as int) == full_score(b, q, r, b.len() as int)
        && full_candidate(a, q, r) == full_candidate(b, q, r) by {
        lemma_same_lists_scores(a, b, q, r, a.len() as int);
    }
    assert forall|c: ScoredCandidate| #[trigger] found.count(c) > 0 implies settled.contains(c.vector_id) && c
        == full_candidate(b, q, c.vector_id) by {
        assert(full_candidate(a, q, c.vector_id) == full_candidate(b, q, c.vector_id));
    }
    if top_best(found, settled, a, q, top) {
        assert forall|r: RecordId|
            #[trigger] settled.contains(r) && found.count(full_candidate(b, q, r)) == 0 implies found.len() == top
            && forall|c: ScoredCandidate| #[trigger] found.count(c) > 0 ==> full_score(b, q, r, b.len() as int) <= c.score by {
            assert(full_candidate(a, q, r) == full_candidate(b, q, r));
            assert(full_score(a, q, r, a.len() as int) == full_score(b, q, r, b.len() as int));
        }
    }
}

/// Record `r` has an entry in the list that `it` walks (anywhere, passed or not).
pub open spec fn listed_in(it: IndexedPostingListIterator, r: RecordId) -> bool {
    exists|k: int|
        0 <= k < it.posting_list_iterator.elements().len()
            && #[trigger] it.posting_list_iterator.elements()[k].id == r
}

/// What the whole list of `it` adds to the score of record `r`: its weight for `r` times
/// the query weight, zero where `r` has no entry.
pub open spec fn full_contribution(it: IndexedPostingListIterator, q: Seq<DimWeight>, r: RecordId) -> int {
    if listed_in(it, r) {
        let k = choose|k: int|
            0 <= k < it.posting_list_iterator.elements().len()
                && #[trigger] it.posting_list_iterator.elements()[k].id == r;
        it.posting_list_iterator.elements()[k].weight * q[it.query_weight_offset as int]
    } else {
        0
    }
}

/// The score of record `r` over the whole lists of the first `n` iterators.
pub open spec fn full_score(its: Seq<IndexedPostingListIterator>, q: Seq<DimWeight>, r: RecordId, n: int) -> int
    decreases n,
{
    if n <= 0 {
        0
    } else {
        full_score(its, q, r, n - 1) + full_contribution(its[n - 1], q, r)
    }
}

/// Record `r` has an entry in some list.
pub open spec fn listed(its: Seq<IndexedPostingListIterator>, r: RecordId) -> bool {
    exists|i: int| 0 <= i < its.len() && listed_in(#[trigger] its[i], r)
}

/// The records with an entry in some list.
pub open spec fn candidate_ids(its: Seq<IndexedPostingListIterator>) -> Set<RecordId> {
    Set::new(|r: RecordId| listed(its, r))
}

/// Record `r` is below every id under a cursor.
pub open spec fn below_heads(its: Seq<IndexedPostingListIterator>, r: RecordId) -> bool {
    forall|j: int| 0 <= j < its.len() && (#[trigger] head_id(its[j])) is Some ==> r < head_id(its[j]).unwrap()
}

/// Every entry already passed, in any list, is below every id under a cursor.
pub open spec fn passed_below_heads(its: Seq<IndexedPostingListIterator>) -> bool {
    forall|i: int, k: int|
        0 <= i < its.len() && 0 <= k < its[i].posting_list_iterator.position() ==> below_heads(
            its,
            #[trigger] its[i].posting_list_iterator.elements()[k].id,
        )
}

/// The candidate scored with its full score.
pub open spec fn full_candidate(its: Seq<IndexedPostingListIterator>, q: Seq<DimWeight>, r: RecordId) -> ScoredCandidate {
    ScoredCandidate { score: full_score(its, q, r, its.len() as int) as Score, vector_id: r }
}

/// `found` holds the best `k` of the records `settled`, each with its full score: every
/// candidate in it is a settled record with its full score, none twice, it holds `k` of them or all,
/// and a settled record left out scores no higher than any candidate kept.
pub open spec fn is_top(
    found: Multiset<ScoredCandidate>,
    settled: Set<RecordId>,
    its: Seq<IndexedPostingListIterator>,
    q: Seq<DimWeight>,
    k: nat,
) -> bool {
    top_shape(found, settled, its, q, k) && top_best(found, settled, its, q, k)
}

/// Every candidate in `found` is a settled record with its full score, none twice (so no
/// record twice), and `found` holds `k` of them, or all where there are fewer.
pub open spec fn top_shape(
    found: Multiset<ScoredCandidate>,
    settled: Set<RecordId>,
    its: Seq<IndexedPostingListIterator>,
    q: Seq<DimWeight>,
    k: nat,
) -> bool {
    &&& forall|c: ScoredCandidate| #[trigger] found.count(c) > 0 ==> settled.contains(c.vector_id) && c
        == full_candidate(its, q, c.vector_id)
    &&& forall|c: ScoredCandidate| #[trigger] found.count(c) <= 1
    &&& found.len() == if k < settled.len() { k } else { settled.len() }
}

/// A settled record left out of `found` scores no higher than any candidate kept.
pub open spec fn top_best(
    found: Multiset<ScoredCandidate>,
    settled: Set<RecordId>,
    its: Seq<IndexedPostingListIterator>,
    q: Seq<DimWeight>,
    k: nat,
) -> bool {
    forall|r: RecordId|
        #[trigger] settled.contains(r) && found.count(full_candidate(its, q, r)) == 0 ==> found.len() == k
            && forall|c: ScoredCandidate| #[trigger] found.count(c) > 0 ==> full_score(its, q, r, its.len() as int) <= c.score
}

/// The whole lists and query positions of `a` and `b` agree; cursors may differ.
pub open spec fn same_lists(a: Seq<IndexedPostingListIterator>, b: Seq<IndexedPostingListIterator>) -> bool {
    &&& a.len() == b.len()
    &&& forall|i: int| 0 <= i < a.len() ==> (#[trigger] a[i]).posting_list_iterator.elements() == b[i].posting_list_iterator.elements()
        && a[i].query_weight_offset == b[i].query_weight_offset
}

proof fn lemma_same_lists_scores(a: Seq<IndexedPostingListIterator>, b: Seq<IndexedPostingListIterator>, q: Seq<DimWeight>, r: RecordId, n: int)
    requires
        same_lists(a, b),
        0 <= n <= a.len(),
    ensures
        full_score(a, q, r, n) == full_score(b, q, r, n),
        listed(a, r) == listed(b, r),
    decreases n,
{
    if n > 0 {
        lemma_same_lists_scores(a, b, q, r, n - 1);
        assert(listed_in(a[n - 1], r) == listed_in(b[n - 1], r));
    }
    if listed(a, r) {
        let i = choose|i: int| 0 <= i < a.len() && listed_in(#[trigger] a[i], r);
        assert(listed_in(b[i], r));
    }
    if listed(b, r) {
        let i = choose|i: int| 0 <= i < b.len() && listed_in(#[trigger] b[i], r);
        assert(listed_in(a[i], r));
    }
}

/// With every passed entry below the heads, the score that `advance` gives the smallest
/// head is its full score.
proof fn lemma_advance_scores_fully(its: Seq<IndexedPostingListIterator>, q: Seq<DimWeight>, m: RecordId, n: int)
    requires
        0 <= n <= its.len(),
        passed_below_heads(its),
        forall|i: int| 0 <= i < its.len() ==> (#[trigger] its[i]).posting_list_iterator.wf() && ids_ascending(
            its[i].posting_list_iterator.elements(),
        ),
        min_head(its, its.len() as int) == Some(m),
    ensures
        score_of(its, q, m, n) == full_score(its, q, m, n),
    decreases n,
{
    if n > 0 {
        lemma_advance_scores_fully(its, q, m, n - 1);
        lemma_min_head_attained(its, its.len() as int);
        lemma_min_head_is_min(its, its.len() as int);
        let it = its[n - 1];
        let e = it.posting_list_iterator.elements();
        let p = it.posting_list_iterator.position();
        if head_id(it) == Some(m) {
            assert(e[p].id == m);
            assert(listed_in(it, m));
            let k = choose|k: int| 0 <= k < e.len() && #[trigger] e[k].id == m;
            if k < p {
                assert(e[k].id < e[p].id);
            } else if k > p {
                assert(e[p].id < e[k].id);
            }
        } else {
            if listed_in(it, m) {
                let k = choose|k: int| 0 <= k < e.len() && #[trigger] e[k].id == m;
                let j = choose|j: int| 0 <= j < its.len() && head_id(its[j]) == Some(m);
                if k < p {
                    assert(below_heads(its, e[k].id));
                    assert(m < head_id(its[j]).unwrap());
                } else {
                    assert(head_id(it) is Some);
                    if k > p {
                        assert(e[p].id < e[k].id);
                    }
                    assert(m <= head_id(it).unwrap());
                }
            }
        }
    }
}

/// The smallest head is at most every head.
proof fn lemma_min_head_is_min(its: Seq<IndexedPostingListIterator>, n: int)
    requires
        0 <= n <= its.len(),
    ensures
        forall|j: int| 0 <= j < n && (#[trigger] head_id(its[j])) is Some ==> min_head(its, n) is Some
            && min_head(its, n).unwrap() <= head_id(its[j]).unwrap(),
    decreases n,
{
    if n > 0 {
        lemma_min_head_is_min(its, n - 1);
    }
}

/// Cursors over ascending lists that walk valid positions.
pub open spec fn cursors_wf(its: Seq<IndexedPostingListIterator>) -> bool {
    forall|i: int| 0 <= i < its.len() ==> (#[trigger] its[i]).posting_list_iterator.wf() && ids_ascending(
        its[i].posting_list_iterator.elements(),
    )
}

/// `settled` is the set of listed records below every head.
pub open spec fn settled_matches(its: Seq<IndexedPostingListIterator>, settled: Set<RecordId>) -> bool {
    forall|r: RecordId| #[trigger] settled.contains(r) <==> listed(its, r) && below_heads(its, r)
}

/// After `advance` on the smallest head `m`, `m` joins the settled records.
proof fn lemma_settled_after_advance(
    its: Seq<IndexedPostingListIterator>,
    its2: Seq<IndexedPostingListIterator>,
    m: RecordId,
    settled: Set<RecordId>,
)
    requires
        cursors_wf(its),
        cursors_wf(its2),
        passed_below_heads(its),
        settled_matches(its, settled),
        min_head(its, its.len() as int) == Some(m),
        advanced_past(its, its2, m),
    ensures
        !settled.contains(m),
        listed(its, m),
        same_lists(its, its2),
        passed_below_heads(its2),
        settled_matches(its2, settled.insert(m)),
{
    let n = its.len() as int;
    lemma_min_head_attained(its, n);
    lemma_min_head_is_min(its, n);
    let j0 = choose|j: int| 0 <= j < n && head_id(its[j]) == min_head(its, n);
    assert(listed_in(its[j0], m)) by {
        let p = its[j0].posting_list_iterator.position();
        assert(its[j0].posting_list_iterator.elements()[p].id == m);
    }
    assert(listed(its, m));
    assert(!below_heads(its, m));
    // every new head is above m, and no head went down
    assert forall|j: int| 0 <= j < n && (#[trigger] head_id(its2[j])) is Some implies m < head_id(its2[j]).unwrap()
        && head_id(its[j]) is Some && head_id(its[j]).unwrap() <= head_id(its2[j]).unwrap() by {
        let e = its[j].posting_list_iterator.elements();
        let p = its[j].posting_list_iterator.position();
        if head_id(its[j]) == Some(m) {
            assert(e[p].id < e[p + 1].id);
        }
    }
    assert(same_lists(its, its2));
    assert forall|i: int, k: int|
        0 <= i < n && 0 <= k < its2[i].posting_list_iterator.position() implies below_heads(
        its2,
        #[trigger] its2[i].posting_list_iterator.elements()[k].id,
    ) by {
        let e = its[i].posting_list_iterator.elements();
        let p = its[i].posting_list_iterator.position();
        if k < p {
            assert(below_heads(its, e[k].id));
        } else {
            assert(e[k].id == m);
        }
    }
    assert forall|r: RecordId| #[trigger] settled.insert(m).contains(r) <==> listed(its2, r) && below_heads(its2, r) by {
        lemma_same_lists_scores(its, its2, Seq::empty(), r, 0);
        if settled.contains(r) {
            assert forall|j: int| 0 <= j < n && (#[trigger] head_id(its2[j])) is Some implies r < head_id(its2[j]).unwrap() by {
                assert(r < head_id(its[j]).unwrap());
            }
        }
        if listed(its2, r) && below_heads(its2, r) && r != m {
            let i = choose|i: int| 0 <= i < n && listed_in(#[trigger] its2[i], r);
            let e = its[i].posting_list_iterator.elements();
            let p = its[i].posting_list_iterator.position();
            let k = choose|k: int| 0 <= k < e.len() && #[trigger] e[k].id == r;
            if k < p {
                assert(below_heads(its, e[k].id));
            } else if k == p && head_id(its[i]) == Some(m) {
            } else {
                let p2 = its2[i].posting_list_iterator.position();
                assert(head_id(its2[i]) is Some);
                if k > p2 {
                    assert(e[p2].id < e[k].id);
                }
                assert(false);
            }
            assert(settled.contains(r));
        }
    }
}

/// A full score over `n` lists is at most `n` maximal products in absolute value.
proof fn lemma_full_score_bound(its: Seq<IndexedPostingListIterator>, q: Seq<DimWeight>, r: RecordId, n: int)
    requires
        0 <= n <= its.len(),
    ensures
        -n * max_product() <= full_score(its, q, r, n) <= n * max_product(),
    decreases n,
{
    if n > 0 {
        lemma_full_score_bound(its, q, r, n - 1);
        let it = its[n - 1];
        if listed_in(it, r) {
            let k = choose|k: int|
                0 <= k < it.posting_list_iterator.elements().len()
                    && #[trigger] it.posting_list_iterator.elements()[k].id == r;
            lemma_product_bound(it.posting_list_iterator.elements()[k].weight, q[it.query_weight_offset as int]);
        }
    }
}

/// Full scores over at most `usize::MAX` lists fit in a `Score`.
proof fn lemma_full_score_fits(its: Seq<IndexedPostingListIterator>, q: Seq<DimWeight>, r: RecordId)
    requires
        its.len() <= usize::MAX,
    ensures
        full_candidate(its, q, r).score == full_score(its, q, r, its.len() as int),
{
    lemma_full_score_bound(its, q, r, its.len() as int);
    assert(its.len() * max_product() <= 0x1_0000_0000_0000_0000 * 0x4000_0000_0000_0000) by (nonlinear_arith)
        requires
            its.len() <= 0x1_0000_0000_0000_0000,
            max_product() == 0x4000_0000_0000_0000,
    ;
}

/// Offering the full candidate of a new record `m` to a queue that holds the best of the
/// settled records leaves it holding the best of the settled records and `m`.
proof fn lemma_top_after_push(
    found: Multiset<ScoredCandidate>,
    found2: Multiset<ScoredCandidate>,
    settled: Set<RecordId>,
    its: Seq<IndexedPostingListIterator>,
    q: Seq<DimWeight>,
    top: nat,
    m: RecordId,
)
    requires
        top_shape(found, settled, its, q, top),
        top > 0,
        settled.finite(),
        !settled.contains(m),
        its.len() <= usize::MAX,
        found.len() < top ==> found2 == found.insert(full_candidate(its, q, m)),
        found.len() >= top ==> exists|mn: ScoredCandidate|
            {
                &&& is_lowest(found, mn)
                &&& if mn.score < full_candidate(its, q, m).score {
                    found2 == found.insert(full_candidate(its, q, m)).remove(mn)
                } else {
                    found2 == found
                }
            },
    ensures
        top_shape(found2, settled.insert(m), its, q, top),
        top_best(found, settled, its, q, top) ==> top_best(found2, settled.insert(m), its, q, top),
{
    let x = full_candidate(its, q, m);
    let s2 = settled.insert(m);
    assert(s2.len() == settled.len() + 1);
    assert(found.count(x) == 0) by {
        if found.count(x) > 0 {
            assert(settled.contains(x.vector_id));
        }
    }
    assert forall|c: ScoredCandidate| #[trigger] found2.count(c) <= 1 by {
        assert(found.count(c) <= 1);
        if found.len() >= top {
            assert(found2.count(c) <= found.insert(x).count(c));
        }
    }
    lemma_full_score_fits(its, q, m);
    assert forall|r: RecordId| #[trigger] settled.contains(r) implies full_candidate(its, q, r).score == full_score(its, q, r, its.len() as int) by {
        lemma_full_score_fits(its, q, r);
    }
    if found.len() >= top {
        let mn = choose|mn: ScoredCandidate|
            {
                &&& is_lowest(found, mn)
                &&& if mn.score < x.score {
                    found2 == found.insert(x).remove(mn)
                } else {
                    found2 == found
                }
            };
        if mn.score < x.score {
            assert(x != mn);
            assert(found2.count(x) > 0);
            assert(found2.len() == found.len());
            assert forall|c: ScoredCandidate| #[trigger] found2.count(c) > 0 implies s2.contains(c.vector_id) && c
                == full_candidate(its, q, c.vector_id) by {
                if c != x {
                    assert(found.count(c) > 0);
                }
            }
        }
    }
    if top_best(found, settled, its, q, top) {
        if found.len() < top {
            assert forall|r: RecordId|
                #[trigger] s2.contains(r) && found2.count(full_candidate(its, q, r)) == 0 implies found2.len() == top
                && forall|c: ScoredCandidate| #[trigger] found2.count(c) > 0 ==> full_score(its, q, r, its.len() as int) <= c.score by {
                if r != m {
                    assert(found.count(full_candidate(its, q, r)) == 0);
                }
            }
        } else {
            let mn = choose|mn: ScoredCandidate|
                {
                    &&& is_lowest(found, mn)
                    &&& if mn.score < x.score {
                        found2 == found.insert(x).remove(mn)
                    } else {
                        found2 == found
                    }
                };
            assert(settled.contains(mn.vector_id) && mn == full_candidate(its, q, mn.vector_id));
            if mn.score < x.score {
                assert(x != mn);
                assert(found2.count(x) > 0);
                assert(found2.len() == found.len());
                assert forall|c: ScoredCandidate| #[trigger] found2.count(c) > 0 implies s2.contains(c.vector_id) && c
                    == full_candidate(its, q, c.vector_id) by {
                    if c != x {
                        assert(found.count(c) > 0);
                    }
                }
                assert forall|r: RecordId|
                    #[trigger] s2.contains(r) && found2.count(full_candidate(its, q, r)) == 0 implies found2.len() == top
                    && forall|c: ScoredCandidate| #[trigger] found2.count(c) > 0 ==> full_score(its, q, r, its.len() as int) <= c.score by {
                    let fc = full_candidate(its, q, r);
                    if r != m {
                        assert forall|c: ScoredCandidate| #[trigger] found2.count(c) > 0 implies full_score(its, q, r, its.len() as int) <= c.score by {
                            if found.count(fc) == 0 {
                                assert(full_score(its, q, r, its.len() as int) <= mn.score);
                            } else {
                                assert(fc == mn);
                            }
                            if c != x {
                                assert(found.count(c) > 0);
                            }
                        }
                    }
                }
            } else {
                assert forall|r: RecordId|
                    #[trigger] s2.contains(r) && found2.count(full_candidate(its, q, r)) == 0 implies found2.len() == top
                    && forall|c: ScoredCandidate| #[trigger] found2.count(c) > 0 ==> full_score(its, q, r, its.len() as int) <= c.score by {
                    if r == m {
                        assert forall|c: ScoredCandidate| #[trigger] found2.count(c) > 0 implies full_score(its, q, r, its.len() as int) <= c.score by {
                            assert(mn.score <= c.score);
                        }
                    }
                }
            }
        }

    }
}

/// The ids of the entries from position `p` up to `p2` of a list.
pub open spec fn ids_between(e: Seq<PostingElement>, p: int, p2: int) -> Set<RecordId> {
    e.subrange(p, p2).map_values(|x: PostingElement| x.id).to_set()
}

/// Pruning the head when the queue is full: the records it skips are settled too. With a
/// non-negative query weight on the head, none of them could have entered the queue.
proof fn lemma_after_prune(
    its: Seq<IndexedPostingListIterator>,
    its2: Seq<IndexedPostingListIterator>,
    q: Seq<DimWeight>,
    lowest: ScoredCandidate,
    settled: Set<RecordId>,
    found: Multiset<ScoredCandidate>,
    top: nat,
) -> (settled2: Set<RecordId>)
    requires
        1 <= its.len(),
        cursors_wf(its),
        cursors_wf(its2),
        max_next_correct(its[0].posting_list_iterator.elements()),
        its[0].query_weight_offset < q.len(),
        passed_below_heads(its),
        settled_matches(its, settled),
        settled.finite(),
        top_shape(found, settled, its, q, top),
        found.len() == top,
        is_lowest(found, lowest),
        pruned(its[0], next_head(its), q, lowest.score as int, its2[0]),
        its2.len() == its.len(),
        forall|i: int| 1 <= i < its.len() ==> #[trigger] its2[i] == its[i],
    ensures
        settled2.finite(),
        same_lists(its, its2),
        passed_below_heads(its2),
        settled_matches(its2, settled2),
        top_shape(found, settled2, its2, q, top),
        q[its[0].query_weight_offset as int] >= 0 && top_best(found, settled, its, q, top) ==> top_best(
            found,
            settled2,
            its2,
            q,
            top,
        ),
{
    assert(same_lists(its, its2));
    if its2[0] == its[0] {
        assert(its2 =~= its);
        return settled;
    }
    let e = its[0].posting_list_iterator.elements();
    let p = its[0].posting_list_iterator.position();
    let p2 = its2[0].posting_list_iterator.position();
    let skipped = ids_between(e, p, p2);
    lemma_pruning_safe(its, its2, q, lowest.score as int);
    let settled2 = settled.union(skipped);
    lemma_prune_settled(its, its2, settled, skipped);
    lemma_prune_top(its, its2, q, lowest, settled, skipped, found, top);
    settled2
}

/// With no other list holding `r`, the full score of `r` is what the head list adds.
proof fn lemma_full_score_head_only(its: Seq<IndexedPostingListIterator>, q: Seq<DimWeight>, r: RecordId, n: int)
    requires
        1 <= n <= its.len(),
        forall|j: int| 1 <= j < n ==> !listed_in(#[trigger] its[j], r),
    ensures
        full_score(its, q, r, n) == full_contribution(its[0], q, r),
    decreases n,
{
    if n > 1 {
        lemma_full_score_head_only(its, q, r, n - 1);
    } else {
        assert(full_score(its, q, r, 0) == 0);
    }
}

/// Pruning is safe: with every passed entry below the heads, the records that pruning the
/// head against `min_score` skips (the ids from its old to its new position) lie below
/// every new head and have an entry in no other list. With a non-negative query weight on
/// the head, each of them has a full score below `min_score`, so none could enter a queue
/// whose lowest score is `min_score`.
pub proof fn lemma_pruning_safe(
    its: Seq<IndexedPostingListIterator>,
    its2: Seq<IndexedPostingListIterator>,
    q: Seq<DimWeight>,
    min_score: int,
)
    requires
        1 <= its.len(),
        cursors_wf(its),
        cursors_wf(its2),
        max_next_correct(its[0].posting_list_iterator.elements()),
        its[0].query_weight_offset < q.len(),
        passed_below_heads(its),
        pruned(its[0], next_head(its), q, min_score, its2[0]),
        its2[0] != its[0],
        its2.len() == its.len(),
        forall|i: int| 1 <= i < its.len() ==> #[trigger] its2[i] == its[i],
    ensures
        ({
            let e = its[0].posting_list_iterator.elements();
            let p = its[0].posting_list_iterator.position();
            let p2 = its2[0].posting_list_iterator.position();
            let skipped = ids_between(e, p, p2);
            &&& p <= p2
            &&& skipped.finite()
            &&& forall|r: RecordId| #[trigger] skipped.contains(r) <==> exists|k: int| p <= k < p2 && e[k].id == r
            &&& forall|r: RecordId| #[trigger] skipped.contains(r) ==> below_heads(its2, r)
            &&& forall|r: RecordId| #[trigger] skipped.contains(r) ==> listed_in(its[0], r)
            &&& forall|r: RecordId, j: int| #[trigger] skipped.contains(r) && 1 <= j < its.len() ==> !listed_in(#[trigger] its[j], r)
            &&& q[its[0].query_weight_offset as int] >= 0 ==> forall|r: RecordId| #[trigger] skipped.contains(r)
                ==> full_score(its, q, r, its.len() as int) < min_score
        }),
{
    let n = its.len() as int;
    let it = its[0];
    let e = it.posting_list_iterator.elements();
    let p = it.posting_list_iterator.position();
    let p2 = its2[0].posting_list_iterator.position();
    let skipped = ids_between(e, p, p2);
    let sub = e.subrange(p, p2).map_values(|x: PostingElement| x.id);
    let q0 = q[it.query_weight_offset as int];
    let ew = e[p];
    let ub = max_weight(ew.weight, ew.max_next_weight);
    assert(ub * q0 < min_score);
    lemma_min_head_after_is_min(its, n);
    assert forall|r: RecordId| #[trigger] skipped.contains(r) <==> exists|k: int| p <= k < p2 && e[k].id == r by {
        if skipped.contains(r) {
            assert(sub.contains(r));
            let j = choose|j: int| 0 <= j < sub.len() && sub[j] == r;
            assert(e[p + j].id == r);
        }
        if exists|k: int| p <= k < p2 && e[k].id == r {
            let k = choose|k: int| p <= k < p2 && e[k].id == r;
            assert(sub[k - p] == r);
        }
    }
    assert forall|r: RecordId| #[trigger] skipped.contains(r) implies below_heads(its2, r) by {
        let k = choose|k: int| p <= k < p2 && e[k].id == r;
        assert forall|j: int| 0 <= j < n && (#[trigger] head_id(its2[j])) is Some implies r < head_id(its2[j]).unwrap() by {
            if j == 0 {
                assert(e[k].id < e[p2].id);
            } else {
                assert(head_id(its2[j]) == head_id(its[j]));
            }
        }
    }
    assert forall|r: RecordId, j: int| #[trigger] skipped.contains(r) && 1 <= j < n implies !listed_in(#[trigger] its[j], r) by {
        let k = choose|k: int| p <= k < p2 && e[k].id == r;
        assert(e[k].id == r);
        if listed_in(its[j], r) {
            let e1 = its[j].posting_list_iterator.elements();
            let p1 = its[j].posting_list_iterator.position();
            let k1 = choose|k1: int| 0 <= k1 < e1.len() && #[trigger] e1[k1].id == r;
            if k1 < p1 {
                assert(below_heads(its, e1[k1].id));
                assert(head_id(its[0]) == Some(e[p].id));
                if k > p {
                    assert(e[p].id < e[k].id);
                }
            } else {
                assert(head_id(its[j]) is Some);
                if k1 > p1 {
                    assert(e1[p1].id < e1[k1].id);
                }
            }
        }
    }
    assert forall|r: RecordId| #[trigger] skipped.contains(r) implies listed_in(its[0], r) by {
        let k = choose|k: int| p <= k < p2 && e[k].id == r;
        assert(e[k].id == r);
    }
    if q0 >= 0 {
        assert forall|r: RecordId| #[trigger] skipped.contains(r) implies full_score(its, q, r, n) < min_score by {
            let k = choose|k: int| p <= k < p2 && e[k].id == r;
            assert(e[k].id == r);
            let kk = choose|kk: int| 0 <= kk < e.len() && #[trigger] e[kk].id == r;
            if kk < k {
                assert(e[kk].id < e[k].id);
            } else if kk > k {
                assert(e[k].id < e[kk].id);
            }
            assert(full_contribution(it, q, r) == e[k].weight * q0);
            assert forall|j: int| 1 <= j < n implies !listed_in(#[trigger] its[j], r) by {
                assert(skipped.contains(r));
            }
            lemma_full_score_head_only(its, q, r, n);
            lemma_max_after_is_max(e, p);
            assert(e[p].max_next_weight == max_after(e, p));
            assert(e[k].weight <= ub);
            assert(e[k].weight * q0 <= ub * q0) by (nonlinear_arith)
                requires
                    e[k].weight <= ub,
                    q0 >= 0,
            ;
        }
    }
}

/// Pruning keeps every passed entry below the heads and settles the skipped records.
proof fn lemma_prune_settled(
    its: Seq<IndexedPostingListIterator>,
    its2: Seq<IndexedPostingListIterator>,
    settled: Set<RecordId>,
    skipped: Set<RecordId>,
)
    requires
        1 <= its.len(),
        cursors_wf(its),
        cursors_wf(its2),
        passed_below_heads(its),
        settled_matches(its, settled),
        same_lists(its, its2),
        forall|i: int| 1 <= i < its.len() ==> #[trigger] its2[i] == its[i],
        ({
            let e = its[0].posting_list_iterator.elements();
            let p = its[0].posting_list_iterator.position();
            let p2 = its2[0].posting_list_iterator.position();
            &&& p <= p2
            &&& forall|r: RecordId| #[trigger] skipped.contains(r) <==> exists|k: int| p <= k < p2 && e[k].id == r
            &&& forall|r: RecordId| #[trigger] skipped.contains(r) ==> below_heads(its2, r)
        }),
    ensures
        passed_below_heads(its2),
        settled_matches(its2, settled.union(skipped)),
{
    let n = its.len() as int;
    let e = its[0].posting_list_iterator.elements();
    let p = its[0].posting_list_iterator.position();
    let p2 = its2[0].posting_list_iterator.position();
    assert forall|j: int| 0 <= j < n && (#[trigger] head_id(its2[j])) is Some implies head_id(its[j]) is Some
        && head_id(its[j]).unwrap() <= head_id(its2[j]).unwrap() by {
        if j == 0 && p2 > p {
            assert(e[p].id < e[p2].id);
        }
    }
    assert forall|i: int, k: int|
        0 <= i < n && 0 <= k < its2[i].posting_list_iterator.position() implies below_heads(
        its2,
        #[trigger] its2[i].posting_list_iterator.elements()[k].id,
    ) by {
        let x = its2[i].posting_list_iterator.elements()[k].id;
        if i == 0 && k >= p {
            assert(skipped.contains(e[k].id));
        } else {
            assert(below_heads(its, its[i].posting_list_iterator.elements()[k].id));
            assert forall|j: int| 0 <= j < n && (#[trigger] head_id(its2[j])) is Some implies x < head_id(its2[j]).unwrap() by {
                assert(x < head_id(its[j]).unwrap());
            }
        }
    }
    let settled2 = settled.union(skipped);
    assert forall|r: RecordId| #[trigger] settled2.contains(r) <==> listed(its2, r) && below_heads(its2, r) by {
        lemma_same_lists_scores(its, its2, Seq::empty(), r, 0);
        if settled.contains(r) {
            assert forall|j: int| 0 <= j < n && (#[trigger] head_id(its2[j])) is Some implies r < head_id(its2[j]).unwrap() by {
                assert(r < head_id(its[j]).unwrap());
            }
        }
        if skipped.contains(r) {
            let k = choose|k: int| p <= k < p2 && e[k].id == r;
            assert(listed_in(its[0], r));
            assert(listed(its, r));
        }
        if listed(its2, r) && below_heads(its2, r) && !skipped.contains(r) {
            let i = choose|i: int| 0 <= i < n && listed_in(#[trigger] its2[i], r);
            let ei = its[i].posting_list_iterator.elements();
            let pi = its[i].posting_list_iterator.position();
            let k = choose|k: int| 0 <= k < ei.len() && #[trigger] ei[k].id == r;
            if k < pi {
                assert(below_heads(its, ei[k].id));
            } else if i == 0 && k < p2 {
                assert(skipped.contains(e[k].id));
            } else {
                let pj = its2[i].posting_list_iterator.position();
                assert(head_id(its2[i]) is Some);
                if k > pj {
                    assert(ei[pj].id < ei[k].id);
                }
                assert(false);
            }
            assert(settled.contains(r));
        }
    }
}

/// Settling more records while the queue is full keeps its shape; where the new records all
/// score below the lowest kept candidate, it still holds the best of the settled records.
proof fn lemma_prune_top(
    its: Seq<IndexedPostingListIterator>,
    its2: Seq<IndexedPostingListIterator>,
    q: Seq<DimWeight>,
    lowest: ScoredCandidate,
    settled: Set<RecordId>,
    skipped: Set<RecordId>,
    found: Multiset<ScoredCandidate>,
    top: nat,
)
    requires
        same_lists(its, its2),
        settled.finite(),
        skipped.finite(),
        top_shape(found, settled, its, q, top),
        found.len() == top,
        is_lowest(found, lowest),
    ensures
        settled.union(skipped).finite(),
        top_shape(found, settled.union(skipped), its2, q, top),
        top_best(found, settled, its, q, top) && (forall|r: RecordId| #[trigger] skipped.contains(r) ==> full_score(
            its,
            q,
            r,
            its.len() as int,
        ) < lowest.score) ==> top_best(found, settled.union(skipped), its2, q, top),
{
    let n = its.len() as int;
    let settled2 = settled.union(skipped);
    assert(settled.subset_of(settled2));
    vstd::set_lib::lemma_len_subset(settled, settled2);
    if top_best(found, settled, its, q, top) && (forall|r: RecordId| #[trigger] skipped.contains(r) ==> full_score(
        its,
        q,
        r,
        its.len() as int,
    ) < lowest.score) {
        assert forall|r: RecordId|
            #[trigger] settled2.contains(r) && found.count(full_candidate(its2, q, r)) == 0 implies found.len() == top
            && forall|c: ScoredCandidate| #[trigger] found.count(c) > 0 ==> full_score(its2, q, r, n) <= c.score by {
            lemma_same_lists_scores(its, its2, q, r, n);
            if !settled.contains(r) {
                assert forall|c: ScoredCandidate| #[trigger] found.count(c) > 0 implies full_score(its2, q, r, n) <= c.score by {
                    assert(lowest.score <= c.score);
                }
            }
        }
    }
    assert forall|c: ScoredCandidate| #[trigger] found.count(c) > 0 implies settled2.contains(c.vector_id) && c
        == full_candidate(its2, q, c.vector_id) by {
        lemma_same_lists_scores(its, its2, q, c.vector_id, n);
    }
}

/// The posting list of dimension `d` in `ix`, empty where the table has none.
pub open spec fn posting_at(ix: InvertedIndexRam, d: DimId) -> Seq<PostingElement> {
    if (d as int) < ix.postings.len() {
        ix.postings[d as int].elements@
    } else {
        Seq::empty()
    }
}

/// The posting lists of the query's dimensions in `ix`, position by position.
pub open spec fn lists_for(ix: InvertedIndexRam, q: SparseVector) -> Seq<Seq<PostingElement>> {
    Seq::new(q.indices.len() as nat, |k: int| posting_at(ix, q.indices@[k]))
}

/// The weight list `s` gives record `r`, zero where it has no entry for `r`.
pub open spec fn weight_in(s: Seq<PostingElement>, r: RecordId) -> int {
    if exists|k: int| 0 <= k < s.len() && #[trigger] s[k].id == r {
        s[choose|k: int| 0 <= k < s.len() && #[trigger] s[k].id == r].weight as int
    } else {
        0
    }
}

/// The score of record `r` over the first `m` lists, list `k` weighed by `w[k]`.
pub open spec fn lists_score(ls: Seq<Seq<PostingElement>>, w: Seq<DimWeight>, r: RecordId, m: int) -> int
    decreases m,
{
    if m <= 0 {
        0
    } else {
        lists_score(ls, w, r, m - 1) + w[m - 1] * weight_in(ls[m - 1], r)
    }
}

/// The records with an entry in some list.
pub open spec fn lists_candidates(ls: Seq<Seq<PostingElement>>) -> Set<RecordId> {
    Set::new(|r: RecordId| exists|k: int, j: int| 0 <= k < ls.len() && 0 <= j < ls[k].len() && #[trigger] ls[k][j].id == r)
}

/// Record `r` with its score over the lists.
pub open spec fn lists_candidate(ls: Seq<Seq<PostingElement>>, w: Seq<DimWeight>, r: RecordId) -> ScoredCandidate {
    ScoredCandidate { score: lists_score(ls, w, r, ls.len() as int) as Score, vector_id: r }
}

/// Each candidate in `found` is a record of the lists with its score, none twice (so no
/// record twice), and `found` holds `k` of them, or all where there are fewer.
pub open spec fn lists_shape(found: Multiset<ScoredCandidate>, ls: Seq<Seq<PostingElement>>, w: Seq<DimWeight>, k: nat) -> bool {
    &&& forall|c: ScoredCandidate| #[trigger] found.count(c) > 0 ==> lists_candidates(ls).contains(c.vector_id) && c
        == lists_candidate(ls, w, c.vector_id)
    &&& forall|c: ScoredCandidate| #[trigger] found.count(c) <= 1
    &&& found.len() == if k < lists_candidates(ls).len() { k } else { lists_candidates(ls).len() }
}

/// A record of the lists left out of `found` scores no higher than any candidate kept.
pub open spec fn lists_best(found: Multiset<ScoredCandidate>, ls: Seq<Seq<PostingElement>>, w: Seq<DimWeight>, k: nat) -> bool {
    forall|r: RecordId|
        #[trigger] lists_candidates(ls).contains(r) && found.count(lists_candidate(ls, w, r)) == 0 ==> found.len() == k
            && forall|c: ScoredCandidate| #[trigger] found.count(c) > 0 ==> lists_score(ls, w, r, ls.len() as int) <= c.score
}

/// The sum of `t` at the query positions of the first `n` cursors that lie below `m`.
pub open spec fn offsets_total(its: Seq<IndexedPostingListIterator>, t: spec_fn(int) -> int, n: int, m: int) -> int
    decreases n,
{
    if n <= 0 {
        0
    } else {
        offsets_total(its, t, n - 1, m) + if (its[n - 1].query_weight_offset as int) < m {
            t(its[n - 1].query_weight_offset as int)
        } else {
            0
        }
    }
}

proof fn lemma_offsets_total_step(its: Seq<IndexedPostingListIterator>, t: spec_fn(int) -> int, n: int, m: int)
    requires
        0 <= n <= its.len(),
        offsets_distinct(its),
    ensures
        offsets_total(its, t, n, m + 1) == offsets_total(its, t, n, m) + if exists|i: int|
            0 <= i < n && (#[trigger] its[i]).query_weight_offset == m {
            t(m)
        } else {
            0
        },
    decreases n,
{
    if n > 0 {
        lemma_offsets_total_step(its, t, n - 1, m);
        if its[n - 1].query_weight_offset == m {
            assert(!exists|i: int| 0 <= i < n - 1 && (#[trigger] its[i]).query_weight_offset == m);
        } else if exists|i: int| 0 <= i < n && (#[trigger] its[i]).query_weight_offset == m {
            let i = choose|i: int| 0 <= i < n && (#[trigger] its[i]).query_weight_offset == m;
            assert(i < n - 1);
        }
    }
}

proof fn lemma_offsets_total_zero(its: Seq<IndexedPostingListIterator>, t: spec_fn(int) -> int, n: int)
    requires
        0 <= n <= its.len(),
    ensures
        offsets_total(its, t, n, 0) == 0,
    decreases n,
{
    if n > 0 {
        lemma_offsets_total_zero(its, t, n - 1);
    }
}

/// A sum over the query positions whose terms vanish where no cursor sits is the sum over
/// the cursors' positions.
proof fn lemma_lists_score_offsets(
    its: Seq<IndexedPostingListIterator>,
    ls: Seq<Seq<PostingElement>>,
    w: Seq<DimWeight>,
    r: RecordId,
    m: int,
)
    requires
        0 <= m <= ls.len(),
        offsets_distinct(its),
        forall|k: int|
            0 <= k < ls.len() && !(exists|i: int| 0 <= i < its.len() && (#[trigger] its[i]).query_weight_offset == k)
                ==> w[k] * weight_in(#[trigger] ls[k], r) == 0,
    ensures
        lists_score(ls, w, r, m) == offsets_total(its, |k: int| w[k] * weight_in(ls[k], r), its.len() as int, m),
    decreases m,
{
    let t = |k: int| w[k] * weight_in(ls[k], r);
    if m == 0 {
        lemma_offsets_total_zero(its, t, its.len() as int);
    } else {
        lemma_lists_score_offsets(its, ls, w, r, m - 1);
        lemma_offsets_total_step(its, t, its.len() as int, m - 1);
    }
}

proof fn lemma_full_score_offsets(its: Seq<IndexedPostingListIterator>, t: spec_fn(int) -> int, w: Seq<DimWeight>, r: RecordId, n: int, bound: int)
    requires
        0 <= n <= its.len(),
        forall|i: int| 0 <= i < its.len() ==> (#[trigger] its[i]).query_weight_offset < bound,
        forall|i: int| 0 <= i < its.len() ==> full_contribution(#[trigger] its[i], w, r) == t(its[i].query_weight_offset as int),
    ensures
        full_score(its, w, r, n) == offsets_total(its, t, n, bound),
    decreases n,
{
    if n > 0 {
        lemma_full_score_offsets(its, t, w, r, n - 1, bound);
    }
}

/// The cursors that `new` opens on `ix` for query `q` score every record as the query's
/// lists do, and list exactly the records of those lists.
pub proof fn lemma_cursors_match_lists(its: Seq<IndexedPostingListIterator>, ix: InvertedIndexRam, q: SparseVector)
    requires
        q.wf(),
        offsets_distinct(its),
        forall|i: int|
            0 <= i < its.len() ==> {
                let it = #[trigger] its[i];
                let k = it.query_weight_offset as int;
                &&& 0 <= k < q.indices.len()
                &&& (q.indices[k] as int) < ix.postings.len()
                &&& it.posting_list_iterator.elements() == ix.postings[q.indices[k] as int].elements@
            },
        forall|k: int|
            0 <= k < q.indices.len() && (q.indices[k] as int) < ix.postings.len()
                && ix.postings[q.indices[k] as int].elements.len() > 0 ==> exists|i: int|
                0 <= i < its.len() && (#[trigger] its[i]).query_weight_offset == k,
    ensures
        candidate_ids(its) == lists_candidates(lists_for(ix, q)),
        forall|r: RecordId| #[trigger] full_score(its, q.weights@, r, its.len() as int) == lists_score(
            lists_for(ix, q),
            q.weights@,
            r,
            q.indices.len() as int,
        ),
{
    let ls = lists_for(ix, q);
    let w = q.weights@;
    assert forall|r: RecordId| candidate_ids(its).contains(r) <==> lists_candidates(ls).contains(r) by {
        if candidate_ids(its).contains(r) {
            let i = choose|i: int| 0 <= i < its.len() && listed_in(#[trigger] its[i], r);
            let k = its[i].query_weight_offset as int;
            let e = its[i].posting_list_iterator.elements();
            let j = choose|j: int| 0 <= j < e.len() && #[trigger] e[j].id == r;
            assert(ls[k][j].id == r);
        }
        if lists_candidates(ls).contains(r) {
            let (k, j) = choose|k: int, j: int| 0 <= k < ls.len() && 0 <= j < ls[k].len() && #[trigger] ls[k][j].id == r;
            let i = choose|i: int| 0 <= i < its.len() && (#[trigger] its[i]).query_weight_offset == k;
            assert(its[i].posting_list_iterator.elements()[j].id == r);
            assert(listed_in(its[i], r));
        }
    }
    assert(candidate_ids(its) =~= lists_candidates(ls));
    assert forall|r: RecordId| #[trigger] full_score(its, w, r, its.len() as int) == lists_score(ls, w, r, q.indices.len() as int) by {
        let t = |k: int| w[k] * weight_in(ls[k], r);
        assert forall|i: int| 0 <= i < its.len() implies full_contribution(#[trigger] its[i], w, r) == t(its[i].query_weight_offset as int) by {
            let k = its[i].query_weight_offset as int;
            assert(ls[k] == its[i].posting_list_iterator.elements());
            if listed_in(its[i], r) {
                let e = its[i].posting_list_iterator.elements();
                let j = choose|j: int| 0 <= j < e.len() && #[trigger] e[j].id == r;
                assert(e[j].weight * w[k] == w[k] * e[j].weight) by (nonlinear_arith);
            } else {
                assert(weight_in(ls[k], r) == 0);
                assert(w[k] * 0 == 0);
            }
        }
        assert forall|k: int|
            0 <= k < ls.len() && !(exists|i: int| 0 <= i < its.len() && (#[trigger] its[i]).query_weight_offset == k)
                implies w[k] * weight_in(#[trigger] ls[k], r) == 0 by {
            if exists|j: int| 0 <= j < ls[k].len() && #[trigger] ls[k][j].id == r {
                assert(ls[k].len() > 0);
            }
            assert(weight_in(ls[k], r) == 0);
            assert(w[k] * 0 == 0);
        }
        lemma_lists_score_offsets(its, ls, w, r, q.indices.len() as int);
        lemma_full_score_offsets(its, t, w, r, its.len() as int, q.indices.len() as int);
    }
}

/// Top-`top` search of `query` over `index`: the result holds `top` of the records of the
/// query's posting lists (all of them where there are fewer), each once with its score
/// over those lists, highest score first; with no negative query weight, a best `top`.
pub fn search_index(query: SparseVector, top: usize, index: &InvertedIndexRam) -> (r: Vec<ScoredCandidate>)
    requires
        query.wf(),
        index.wf(),
        top > 0,
    ensures
        scores_descending(r@),
        lists_shape(r@.to_multiset(), lists_for(*index, query), query.weights@, top as nat),
        query_nonnegative(query.weights@) ==> lists_best(r@.to_multiset(), lists_for(*index, query), query.weights@, top as nat),
{
    let ghost q = query;
    let mut search_context = SearchContext::new(query, top, index);
    let ghost its = search_context.iterators();
    let ghost found = search_context.found();
    let r = search_context.search();
    proof {
        let ls = lists_for(*index, q);
        let w = q.weights@;
        let res = r@.to_multiset();
        lemma_cursors_match_lists(its, *index, q);
        assert(fresh_search(its, found));
        assert forall|x: RecordId| true implies #[trigger] full_candidate(its, w, x) == lists_candidate(ls, w, x) by {
            assert(full_score(its, w, x, its.len() as int) == lists_score(ls, w, x, q.indices.len() as int));
        }
        assert forall|c: ScoredCandidate| #[trigger] res.count(c) > 0 implies lists_candidates(ls).contains(c.vector_id)
            && c == lists_candidate(ls, w, c.vector_id) by {
            assert(full_candidate(its, w, c.vector_id) == lists_candidate(ls, w, c.vector_id));
        }
        if query_nonnegative(w) {
            assert forall|x: RecordId|
                #[trigger] lists_candidates(ls).contains(x) && res.count(lists_candidate(ls, w, x)) == 0 implies res.len() == top
                && forall|c: ScoredCandidate| #[trigger] res.count(c) > 0 ==> lists_score(ls, w, x, ls.len() as int) <= c.score by {
                assert(full_candidate(its, w, x) == lists_candidate(ls, w, x));
                assert(full_score(its, w, x, its.len() as int) == lists_score(ls, w, x, q.indices.len() as int));
            }
        }
    }
    r
}

} // verus!
