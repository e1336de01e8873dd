use vstd::prelude::*;

use crate::types::{RecordId, Score};

verus! {

broadcast use vstd::seq_lib::group_to_multiset_ensures, vstd::multiset::group_multiset_axioms;

/// A record together with its score against a query.
#[derive(Clone, Copy, Debug, PartialEq, Eq, Structural)]
pub struct ScoredCandidate {
    pub score: Score,
    pub vector_id: RecordId,
}

/// Scores do not increase along the sequence.
pub open spec fn scores_descending(s: Seq<ScoredCandidate>) -> bool {
    forall|i: int, j: int| 0 <= i < j < s.len() ==> s[i].score >= s[j].score
}

/// Orders candidates by score, higher first.
pub fn compare_descending(a: &ScoredCandidate, b: &ScoredCandidate) -> (r: core::cmp::Ordering)
    ensures
        r == core::cmp::Ordering::Less <==> a.score > b.score,
        r == core::cmp::Ordering::Equal <==> a.score == b.score,
        r == core::cmp::Ordering::Greater <==> a.score < b.score,
{
    if a.score > b.score {
        core::cmp::Ordering::Less
    } else if a.score == b.score {
        core::cmp::Ordering::Equal
    } else {
        core::cmp::Ordering::Greater
    }
}

/// Relies on `slice::sort_by` with a total order: afterwards the scores do not increase,
/// and the candidates are those from before, only reordered.
#[verifier::external_body]
pub(crate) fn sort_descending(v: &mut Vec<ScoredCandidate>)
    ensures
        final(v)@.to_multiset() == old(v)@.to_multiset(),
        scores_descending(final(v)@),
{
    v.sort_by(|a, b| compare_descending(a, b));
}

/// A sequence in which no candidate occurs twice holds each at most once as a multiset.
pub proof fn lemma_no_dup_counts(s: Seq<ScoredCandidate>)
    requires
        s.no_duplicates(),
    ensures
        forall|c: ScoredCandidate| #[trigger] s.to_multiset().count(c) <= 1,
{
    assert forall|c: ScoredCandidate| #[trigger] s.to_multiset().count(c) <= 1 by {
        if s.to_multiset().count(c) > 1 {
            assert(s.contains(c));
            let i = choose|i: int| 0 <= i < s.len() && s[i] == c;
            let rest = s.remove(i);
            assert(rest.to_multiset().count(c) > 0);
            assert(rest.contains(c));
            let j = choose|j: int| 0 <= j < rest.len() && rest[j] == c;
            if j < i {
                assert(s[j] == c);
            } else {
                assert(s[j + 1] == c);
            }
        }
    }
}

/// A sequence that holds each candidate at most once as a multiset has no duplicates.
pub proof fn lemma_counts_no_dup(s: Seq<ScoredCandidate>)
    requires
        forall|c: ScoredCandidate| #[trigger] s.to_multiset().count(c) <= 1,
    ensures
        s.no_duplicates(),
{
    assert forall|i: int, j: int| 0 <= i < s.len() && 0 <= j < s.len() && i != j implies s[i] != s[j] by {
        if s[i] == s[j] {
            let rest = s.remove(i);
            if j < i {
                assert(rest[j] == s[j]);
            } else {
                assert(rest[j - 1] == s[j]);
            }
            assert(rest.contains(s[i]));
            assert(rest.to_multiset().count(s[i]) > 0);
            assert(s.to_multiset().count(s[i]) <= 1);
        }
    }
}

} // verus!
