use vstd::prelude::*;
use vstd::multiset::Multiset;

use crate::types::{DimWeight, RecordId, NO_WEIGHT};

verus! {

broadcast use vstd::seq_lib::group_to_multiset_ensures, vstd::multiset::group_multiset_axioms;

/// One entry of a posting list: a record, its weight in the list's dimension, and the
/// largest weight of the entries after it (`NO_WEIGHT` for the last entry).
#[derive(Clone, Copy, Debug, PartialEq, Eq, Structural)]
pub struct PostingElement {
    pub id: RecordId,
    pub weight: DimWeight,
    pub max_next_weight: DimWeight,
}

/// The entries of one dimension, ordered by record id.
#[derive(Debug)]
pub struct PostingList {
    pub elements: Vec<PostingElement>,
}

/// Record ids strictly ascend along the sequence.
pub open spec fn ids_ascending(s: Seq<PostingElement>) -> bool {
    forall|i: int, j: int| 0 <= i < j < s.len() ==> s[i].id < s[j].id
}

/// No two positions of the sequence hold the same record id.
pub open spec fn ids_distinct(s: Seq<PostingElement>) -> bool {
    forall|i: int, j: int| 0 <= i < s.len() && 0 <= j < s.len() && i != j ==> s[i].id != s[j].id
}

/// The larger of two weights.
pub open spec fn max_weight(a: DimWeight, b: DimWeight) -> DimWeight {
    if a >= b {
        a
    } else {
        b
    }
}

/// The largest weight strictly after position `i`, or `NO_WEIGHT` when there is none.
pub open spec fn max_after(s: Seq<PostingElement>, i: int) -> DimWeight
    decreases s.len() - i,
{
    if i + 1 >= s.len() {
        NO_WEIGHT
    } else {
        max_weight(s[i + 1].weight, max_after(s, i + 1))
    }
}

/// `max_after` is the maximum of the weights after position `i`: none of them is larger,
/// one of them equals it, and it is `NO_WEIGHT` at the last position.
pub proof fn lemma_max_after_is_max(s: Seq<PostingElement>, i: int)
    requires
        0 <= i < s.len(),
    ensures
        i == s.len() - 1 ==> max_after(s, i) == NO_WEIGHT,
        forall|j: int| i < j < s.len() ==> s[j].weight <= max_after(s, i),
        i < s.len() - 1 ==> exists|j: int| i < j < s.len() && s[j].weight == max_after(s, i),
    decreases s.len() - i,
{
    if i < s.len() - 1 {
        lemma_max_after_is_max(s, i + 1);
        if i + 1 < s.len() - 1 && max_after(s, i) == max_after(s, i + 1) {
            let j = choose|j: int| i + 1 < j < s.len() && s[j].weight == max_after(s, i + 1);
            assert(i < j < s.len() && s[j].weight == max_after(s, i));
        } else {
            assert(s[i + 1].weight == max_after(s, i));
        }
    }
}

/// Every entry carries the largest weight found after it.
pub open spec fn max_next_correct(s: Seq<PostingElement>) -> bool {
    forall|i: int| 0 <= i < s.len() ==> #[trigger] s[i].max_next_weight == max_after(s, i)
}

/// The (id, weight) pairs of a sequence of entries.
pub open spec fn records_of(s: Seq<PostingElement>) -> Seq<(RecordId, DimWeight)> {
    s.map_values(|e: PostingElement| (e.id, e.weight))
}

/// Some entry of `s` has this id and weight.
pub open spec fn has_entry(s: Seq<PostingElement>, id: RecordId, weight: DimWeight) -> bool {
    exists|i: int| 0 <= i < s.len() && s[i].id == id && s[i].weight == weight
}

/// Some pair of `r` is `(id, weight)`.
pub open spec fn has_pair(r: Seq<(RecordId, DimWeight)>, id: RecordId, weight: DimWeight) -> bool {
    exists|k: int| 0 <= k < r.len() && r[k] == (id, weight)
}

/// The pairs `r` and the entries `s` hold the same records: same count, and each pair
/// stands as an entry and each entry as a pair.
pub open spec fn same_records(s: Seq<PostingElement>, r: Seq<(RecordId, DimWeight)>) -> bool {
    &&& s.len() == r.len()
    &&& forall|k: int| 0 <= k < r.len() ==> has_entry(s, (#[trigger] r[k]).0, r[k].1)
    &&& forall|i: int| 0 <= i < s.len() ==> has_pair(r, (#[trigger] s[i]).id, s[i].weight)
}

/// No two pairs share a record id.
pub open spec fn record_ids_distinct(r: Seq<(RecordId, DimWeight)>) -> bool {
    forall|i: int, j: int| 0 <= i < r.len() && 0 <= j < r.len() && i != j ==> r[i].0 != r[j].0
}

impl PostingList {
    /// Ids strictly ascending and every `max_next_weight` correct.
    pub open spec fn wf(&self) -> bool {
        &&& ids_ascending(self.elements@)
        &&& max_next_correct(self.elements@)
    }

    /// Builds a posting list from (record id, weight) pairs in any order.
    pub fn from(records: Vec<(RecordId, DimWeight)>) -> (r: PostingList)
        requires
            record_ids_distinct(records@),
        ensures
            r.wf(),
            same_records(r.elements@, records@),
    {
        let mut posting_list = PostingBuilder::new();
        let mut k: usize = 0;
        while k < records.len()
            invariant
                k <= records.len(),
                posting_list@ == records@.subrange(0, k as int),
            decreases records.len() - k,
        {
            let (id, weight) = records[k];
            posting_list.add(id, weight);
            k += 1;
            assert(posting_list@ =~= records@.subrange(0, k as int));
        }
        assert(records@.subrange(0, records.len() as int) =~= records@);
        posting_list.build()
    }

    /// A copy of the list.
    pub fn copy(&self) -> (r: PostingList)
        ensures
            r.elements@ == self.elements@,
    {
        let mut elements: Vec<PostingElement> = Vec::with_capacity(self.elements.len());
        let mut i: usize = 0;
        while i < self.elements.len()
            invariant
                i <= self.elements.len(),
                elements@ == self.elements@.subrange(0, i as int),
            decreases self.elements.len() - i,
        {
            elements.push(self.elements[i]);
            i += 1;
            assert(elements@ =~= self.elements@.subrange(0, i as int));
        }
        assert(self.elements@.subrange(0, self.elements.len() as int) =~= self.elements@);
        PostingList { elements }
    }

    /// A list with no entries.
    pub fn empty() -> (r: PostingList)
        ensures
            r.elements@ == Seq::<PostingElement>::empty(),
            r.wf(),
    {
        PostingList { elements: Vec::new() }
    }
}

/// Collects (record id, weight) pairs in any order and turns them into a `PostingList`.
pub struct PostingBuilder {
    elements: Vec<PostingElement>,
}

impl View for PostingBuilder {
    type V = Seq<(RecordId, DimWeight)>;

    /// The pairs added so far, in the order of addition.
    closed spec fn view(&self) -> Seq<(RecordId, DimWeight)> {
        records_of(self.elements@)
    }
}

/// Relies on `slice::sort_by_key`: afterwards the ids are in ascending order, and the
/// entries are those from before, only reordered.
#[verifier::external_body]
fn sort_by_id(v: &mut Vec<PostingElement>)
    ensures
        final(v)@.to_multiset() == old(v)@.to_multiset(),
        forall|i: int, j: int| 0 <= i < j < final(v)@.len() ==> final(v)@[i].id <= final(v)@[j].id,
{
    v.sort_by_key(|e| e.id);
}

/// An entry that a sequence holds at some position.
proof fn lemma_position_of(s: Seq<PostingElement>, x: PostingElement) -> (p: int)
    requires
        s.to_multiset().count(x) > 0,
    ensures
        0 <= p < s.len(),
        s[p] == x,
{
    assert(s.contains(x));
    choose|p: int| 0 <= p < s.len() && s[p] == x
}

/// Sorting a sequence whose ids are distinct makes the ids strictly ascend.
proof fn lemma_sorted_distinct(old_s: Seq<PostingElement>, new_s: Seq<PostingElement>)
    requires
        ids_distinct(old_s),
        new_s.to_multiset() == old_s.to_multiset(),
        forall|i: int, j: int| 0 <= i < j < new_s.len() ==> new_s[i].id <= new_s[j].id,
    ensures
        ids_ascending(new_s),
        new_s.len() == old_s.len(),
{
    assert(new_s.len() == old_s.len()) by {
        vstd::seq_lib::to_multiset_len(new_s);
        vstd::seq_lib::to_multiset_len(old_s);
    }
    assert forall|i: int, j: int| 0 <= i < j < new_s.len() implies new_s[i].id < new_s[j].id by {
        if new_s[i].id == new_s[j].id {
            let x = new_s[i];
            let y = new_s[j];
            assert(new_s.contains(x));
            assert(new_s.contains(y));
            let p = lemma_position_of(old_s, x);
            let q = lemma_position_of(old_s, y);
            if p == q {
                let rest = new_s.remove(i);
                assert(rest[j - 1] == y);
                assert(rest.contains(x));
                assert(rest.to_multiset().count(x) > 0);
                assert(new_s.to_multiset().count(x) >= 2);
                let orest = old_s.remove(p);
                assert(orest.to_multiset().count(x) > 0);
                assert(orest.contains(x));
                let r = choose|r: int| 0 <= r < orest.len() && orest[r] == x;
                if r < p {
                    assert(old_s[r] == x);
                } else {
                    assert(old_s[r + 1] == x);
                }
            }
        }
    }
}

impl PostingBuilder {
    pub fn new() -> (r: PostingBuilder)
        ensures
            r@ == Seq::<(RecordId, DimWeight)>::empty(),
    {
        let r = PostingBuilder { elements: Vec::new() };
        assert(r@ =~= Seq::<(RecordId, DimWeight)>::empty());
        r
    }

    pub fn add(&mut self, id: RecordId, weight: DimWeight)
        ensures
            final(self)@ == old(self)@.push((id, weight)),
    {
        self.elements.push(PostingElement { id, weight, max_next_weight: NO_WEIGHT });
        assert(final(self)@ =~= old(self)@.push((id, weight)));
    }

    /// Sorts the pairs by id and fills in each entry's `max_next_weight`.
    pub fn build(self) -> (r: PostingList)
        requires
            record_ids_distinct(self@),
        ensures
            r.wf(),
            same_records(r.elements@, self@),
    {
        let ghost unsorted = self.elements@;
        let mut elements = self.elements;
        assert(ids_distinct(unsorted)) by {
            assert forall|i: int, j: int|
                0 <= i < unsorted.len() && 0 <= j < unsorted.len() && i != j implies unsorted[i].id
                != unsorted[j].id by {
                assert(self@[i].0 == unsorted[i].id);
                assert(self@[j].0 == unsorted[j].id);
            }
        }
        sort_by_id(&mut elements);
        proof {
            lemma_sorted_distinct(unsorted, elements@);
        }
        let ghost sorted = elements@;
        let mut max_next_weight: DimWeight = NO_WEIGHT;
        let mut i: usize = elements.len();
        while i > 0
            invariant
                i <= elements.len(),
                elements.len() == sorted.len(),
                forall|k: int|
                    0 <= k < sorted.len() ==> (#[trigger] elements@[k]).id == sorted[k].id
                        && elements@[k].weight == sorted[k].weight,
                forall|k: int| i <= k < sorted.len() ==> #[trigger] elements@[k].max_next_weight == max_after(sorted, k),
                max_next_weight == (if i < sorted.len() {
                    max_weight(sorted[i as int].weight, max_after(sorted, i as int))
                } else {
                    NO_WEIGHT
                }),
            decreases i,
        {
            i -= 1;
            let mut element = elements[i];
            element.max_next_weight = max_next_weight;
            if element.weight > max_next_weight {
                max_next_weight = element.weight;
            }
            elements.set(i, element);
        }
        proof {
            lemma_max_after_same_weights(sorted, elements@);
            assert forall|k: int| 0 <= k < elements@.len() implies #[trigger] elements@[k].max_next_weight
                == max_after(elements@, k) by {
                lemma_max_after_same_weights(sorted, elements@);
            }
            lemma_same_records_sorted(unsorted, sorted, elements@);
        }
        PostingList { elements }
    }
}

/// `max_after` reads only the weights.
proof fn lemma_max_after_same_weights(a: Seq<PostingElement>, b: Seq<PostingElement>)
    requires
        a.len() == b.len(),
        forall|k: int| 0 <= k < a.len() ==> (#[trigger] a[k]).weight == b[k].weight,
    ensures
        forall|k: int| 0 <= k ==> #[trigger] max_after(a, k) == max_after(b, k),
{
    assert forall|k: int| 0 <= k implies #[trigger] max_after(a, k) == max_after(b, k) by {
        lemma_max_after_same_weights_at(a, b, k);
    }
}

proof fn lemma_max_after_same_weights_at(a: Seq<PostingElement>, b: Seq<PostingElement>, k: int)
    requires
        a.len() == b.len(),
        forall|k: int| 0 <= k < a.len() ==> (#[trigger] a[k]).weight == b[k].weight,
        0 <= k,
    ensures
        max_after(a, k) == max_after(b, k),
    decreases a.len() - k,
{
    if k + 1 < a.len() {
        lemma_max_after_same_weights_at(a, b, k + 1);
    }
}

/// The entries after sorting and filling in hold the records that were added.
proof fn lemma_same_records_sorted(
    unsorted: Seq<PostingElement>,
    sorted: Seq<PostingElement>,
    result: Seq<PostingElement>,
)
    requires
        sorted.to_multiset() == unsorted.to_multiset(),
        sorted.len() == unsorted.len(),
        result.len() == sorted.len(),
        forall|k: int|
            0 <= k < sorted.len() ==> (#[trigger] result[k]).id == sorted[k].id && result[k].weight
                == sorted[k].weight,
    ensures
        same_records(result, records_of(unsorted)),
{
    let r = records_of(unsorted);
    assert(r.len() == result.len());
    assert forall|k: int| 0 <= k < r.len() implies has_entry(result, (#[trigger] r[k]).0, r[k].1) by {
        let x = unsorted[k];
        assert(unsorted.contains(x));
        let i = lemma_position_of(sorted, x);
        assert(result[i].id == r[k].0 && result[i].weight == r[k].1);
    }
    assert forall|i: int| 0 <= i < result.len() implies has_pair(r, (#[trigger] result[i]).id, result[i].weight) by {
        let x = sorted[i];
        assert(sorted.contains(x));
        let k = lemma_position_of(unsorted, x);
        assert(r[k] == (result[i].id, result[i].weight));
    }
}

/// A cursor over a borrowed posting list.
#[derive(Clone, Copy)]
pub struct PostingListIterator<'a> {
    posting_list: &'a PostingList,
    current_index: usize,
}

/// The first position at or after `from` whose id is not below `id`, in a list whose
/// ids ascend: every entry in `[from, p)` is below `id`, and the entry at `p` (if any) is not.
pub open spec fn lower_bound_at(s: Seq<PostingElement>, from: int, id: RecordId, p: int) -> bool {
    &&& from <= p <= s.len()
    &&& forall|k: int| from <= k < p ==> (#[trigger] s[k]).id < id
    &&& p < s.len() ==> s[p].id >= id
}

impl<'a> PostingListIterator<'a> {
    /// The entries of the list being walked.
    pub closed spec fn elements(&self) -> Seq<PostingElement> {
        self.posting_list.elements@
    }

    /// The cursor: the position of the next entry.
    pub closed spec fn position(&self) -> int {
        self.current_index as int
    }

    /// The cursor stays within the list.
    pub open spec fn wf(&self) -> bool {
        0 <= self.position() <= self.elements().len()
    }

    /// The entries not yet passed.
    pub open spec fn remaining(&self) -> Seq<PostingElement> {
        self.elements().subrange(self.position(), self.elements().len() as int)
    }

    /// The entry under the cursor, if any.
    pub open spec fn spec_peek(&self) -> Option<PostingElement> {
        if self.position() < self.elements().len() {
            Some(self.elements()[self.position()])
        } else {
            None
        }
    }

    pub fn new(posting_list: &'a PostingList) -> (r: PostingListIterator<'a>)
        ensures
            r.wf(),
            r.elements() == posting_list.elements@,
            r.position() == 0,
    {
        PostingListIterator { posting_list, current_index: 0 }
    }

    /// The entry under the cursor, or `None` at the end.
    pub fn peek(&self) -> (r: Option<PostingElement>)
        requires
            self.wf(),
        ensures
            r == self.spec_peek(),
    {
        if self.current_index < self.posting_list.elements.len() {
            Some(self.posting_list.elements[self.current_index])
        } else {
            None
        }
    }

    /// Returns the entry under the cursor and moves past it; `None` at the end.
    pub fn next(&mut self) -> (r: Option<PostingElement>)
        requires
            old(self).wf(),
        ensures
            final(self).wf(),
            final(self).elements() == old(self).elements(),
            r == old(self).spec_peek(),
            final(self).position() == (if r is Some {
                old(self).position() + 1
            } else {
                old(self).position()
            }),
    {
        if self.current_index < self.posting_list.elements.len() {
            let element = self.posting_list.elements[self.current_index];
            self.current_index += 1;
            Some(element)
        } else {
            None
        }
    }

    /// The number of entries not yet passed.
    pub fn len_left(&self) -> (r: usize)
        ensures
            self.wf() ==> r == self.elements().len() - self.position(),
    {
        if self.current_index <= self.posting_list.elements.len() {
            self.posting_list.elements.len() - self.current_index
        } else {
            0
        }
    }

    /// Moves the cursor to the first entry whose id is not below `id` (binary search).
    /// Returns that entry when its id is `id`, otherwise `None`.
    pub fn skip_to(&mut self, id: RecordId) -> (r: Option<PostingElement>)
        requires
            old(self).wf(),
            ids_ascending(old(self).elements()),
        ensures
            final(self).wf(),
            final(self).elements() == old(self).elements(),
            lower_bound_at(old(self).elements(), old(self).position(), id, final(self).position()),
            r == (if final(self).spec_peek() matches Some(e) && e.id == id {
                final(self).spec_peek()
            } else {
                None
            }),
    {
        let len = self.posting_list.elements.len();
        if self.current_index >= len {
            return None;
        }
        let ghost s = self.posting_list.elements@;
        let mut lo: usize = self.current_index;
        let mut hi: usize = len;
        while lo < hi
            invariant
                s == self.posting_list.elements@,
                len == s.len(),
                ids_ascending(s),
                old(self).position() <= lo <= hi <= len,
                forall|k: int| old(self).position() <= k < lo ==> (#[trigger] s[k]).id < id,
                forall|k: int| hi <= k < len ==> (#[trigger] s[k]).id >= id,
            decreases hi - lo,
        {
            let mid = lo + (hi - lo) / 2;
            if self.posting_list.elements[mid].id < id {
                assert forall|k: int| old(self).position() <= k < mid + 1 implies (#[trigger] s[k]).id < id by {
                    if k < mid {
                        assert(s[k].id < s[mid as int].id);
                    }
                }
                lo = mid + 1;
            } else {
                assert forall|k: int| mid <= k < len implies (#[trigger] s[k]).id >= id by {
                    if k > mid {
                        assert(s[mid as int].id < s[k].id);
                    }
                }
                hi = mid;
            }
        }
        self.current_index = lo;
        if lo < len && self.posting_list.elements[lo].id == id {
            Some(self.posting_list.elements[lo])
        } else {
            None
        }
    }

    /// Moves the cursor past the last entry.
    pub fn skip_to_end(&mut self) -> (r: Option<PostingElement>)
        requires
            old(self).wf(),
        ensures
            final(self).wf(),
            final(self).elements() == old(self).elements(),
            final(self).position() == final(self).elements().len(),
            r is None,
    {
        self.current_index = self.posting_list.elements.len();
        None
    }
}

/// Whether a sequence of entries read from elsewhere is a valid posting list: ids strictly
/// ascending and every `max_next_weight` correct.
pub fn is_valid_posting(elements: &Vec<PostingElement>) -> (r: bool)
    ensures
        r == (ids_ascending(elements@) && max_next_correct(elements@)),
{
    let ghost s = elements@;
    let n = elements.len();
    let mut i: usize = 1;
    while i < n
        invariant
            s == elements@,
            n == s.len(),
            1 <= i || n == 0,
            ids_ascending(s.subrange(0, if i <= n { i as int } else { n as int })),
            i <= n || n == 0,
        decreases n - i,
    {
        if elements[i - 1].id >= elements[i].id {
            return false;
        }
        assert forall|a: int, b: int| 0 <= a < b < i + 1 implies s[a].id < s[b].id by {
            if b < i as int {
                assert(s.subrange(0, i as int)[a].id < s.subrange(0, i as int)[b].id);
            } else if a < i - 1 {
                assert(s.subrange(0, i as int)[a].id < s.subrange(0, i as int)[i - 1].id);
            }
        }
        i += 1;
        assert forall|a: int, b: int| 0 <= a < b < s.subrange(0, i as int).len() implies s.subrange(0, i as int)[a].id
            < s.subrange(0, i as int)[b].id by {
            assert(s[a].id < s[b].id);
        }
    }
    if n > 0 {
        assert(s.subrange(0, n as int) =~= s);
    }
    let mut running: DimWeight = NO_WEIGHT;
    let mut j: usize = n;
    while j > 0
        invariant
            s == elements@,
            n == s.len(),
            j <= n,
            forall|k: int| j <= k < n ==> #[trigger] s[k].max_next_weight == max_after(s, k),
            running == (if j < n {
                max_weight(s[j as int].weight, max_after(s, j as int))
            } else {
                NO_WEIGHT
            }),
        decreases j,
    {
        j -= 1;
        if elements[j].max_next_weight != running {
            assert(s[j as int].max_next_weight != max_after(s, j as int));
            return false;
        }
        if elements[j].weight > running {
            running = elements[j].weight;
        }
    }
    true
}

} // verus!
