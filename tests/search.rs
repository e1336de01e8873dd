use sparse_search::inverted_index::{InvertedIndexBuilder, InvertedIndexRam};
use sparse_search::posting::PostingList;
use sparse_search::scored_candidate::ScoredCandidate;
use sparse_search::search_context::SearchContext;
use sparse_search::vector::SparseVector;

fn balanced_index() -> InvertedIndexRam {
    InvertedIndexBuilder::new()
        .add(1, PostingList::from(vec![(1, 10), (2, 20), (3, 30)]))
        .add(2, PostingList::from(vec![(1, 10), (2, 20), (3, 30)]))
        .add(3, PostingList::from(vec![(1, 10), (2, 20), (3, 30)]))
        .build()
}

fn unbalanced_index() -> InvertedIndexRam {
    InvertedIndexBuilder::new()
        .add(
            1,
            PostingList::from(vec![(1, 10), (2, 20), (3, 30), (4, 1), (5, 2), (6, 3), (7, 4), (8, 5), (9, 6)]),
        )
        .add(2, PostingList::from(vec![(1, 10), (2, 20), (3, 30)]))
        .add(3, PostingList::from(vec![(1, 10), (2, 20), (3, 30)]))
        .build()
}

fn query() -> SparseVector {
    SparseVector { indices: vec![1, 2, 3], weights: vec![1, 1, 1] }
}

#[test]
fn advance_basic_test() {
    let inverted_index = balanced_index();
    let mut search_context = SearchContext::new(query(), 10, &inverted_index);

    assert_eq!(search_context.advance(), Some(ScoredCandidate { score: 30, vector_id: 1 }));
    assert_eq!(search_context.advance(), Some(ScoredCandidate { score: 60, vector_id: 2 }));
    assert_eq!(search_context.advance(), Some(ScoredCandidate { score: 90, vector_id: 3 }));
    assert_eq!(search_context.advance(), None);
}

#[test]
fn search() {
    let inverted_index = balanced_index();
    let mut search_context = SearchContext::new(query(), 10, &inverted_index);

    assert_eq!(
        search_context.search(),
        vec![
            ScoredCandidate { score: 90, vector_id: 3 },
            ScoredCandidate { score: 60, vector_id: 2 },
            ScoredCandidate { score: 30, vector_id: 1 },
        ]
    );
}

#[test]
fn search_with_non_balanced() {
    let inverted_index = unbalanced_index();
    let mut search_context = SearchContext::new(query(), 3, &inverted_index);

    assert_eq!(
        search_context.search(),
        vec![
            ScoredCandidate { score: 90, vector_id: 3 },
            ScoredCandidate { score: 60, vector_id: 2 },
            ScoredCandidate { score: 30, vector_id: 1 },
        ]
    );

    let mut search_context = SearchContext::new(query(), 4, &inverted_index);

    assert_eq!(
        search_context.search(),
        vec![
            ScoredCandidate { score: 90, vector_id: 3 },
            ScoredCandidate { score: 60, vector_id: 2 },
            ScoredCandidate { score: 30, vector_id: 1 },
            ScoredCandidate { score: 6, vector_id: 9 },
        ]
    );
}

#[test]
fn search_skips_absent_dimensions() {
    let inverted_index = balanced_index();
    let q = SparseVector { indices: vec![0, 2, 7, 100], weights: vec![5, 2, 5, 5] };
    let mut search_context = SearchContext::new(q, 2, &inverted_index);
    assert_eq!(
        search_context.search(),
        vec![ScoredCandidate { score: 60, vector_id: 3 }, ScoredCandidate { score: 40, vector_id: 2 }]
    );
}

#[test]
fn search_with_no_matching_dimension_is_empty() {
    let inverted_index = balanced_index();
    let q = SparseVector { indices: vec![0, 50], weights: vec![1, 1] };
    let mut search_context = SearchContext::new(q, 5, &inverted_index);
    assert!(search_context.search().is_empty());
}

#[test]
fn pruning_skips_the_longest_list() {
    let inverted_index = unbalanced_index();
    let mut search_context = SearchContext::new(query(), 3, &inverted_index);
    // Scores 30, 60 and 90 fill the queue; the head list's tail can add at most 6.
    search_context.advance();
    search_context.advance();
    search_context.advance();
    search_context.prune_longest_posting_list(30);
    assert_eq!(search_context.advance(), None);
}

#[test]
fn sorting_puts_the_longest_list_first() {
    let inverted_index = unbalanced_index();
    let q = SparseVector { indices: vec![2, 1], weights: vec![1, 1] };
    let mut search_context = SearchContext::new(q, 1, &inverted_index);
    search_context.sort_posting_lists_by_len();
    search_context.advance();
    search_context.advance();
    // The head is the longest list; it moves up to record 3, the other list's next id.
    search_context.prune_longest_posting_list(61);
    assert_eq!(search_context.advance(), Some(ScoredCandidate { score: 60, vector_id: 3 }));
    // The other list is done, so the head goes to its end.
    search_context.prune_longest_posting_list(61);
    assert_eq!(search_context.advance(), None);
}

#[test]
fn no_pruning_when_the_head_can_still_reach() {
    let inverted_index = unbalanced_index();
    let mut search_context = SearchContext::new(query(), 3, &inverted_index);
    search_context.advance();
    search_context.advance();
    search_context.advance();
    search_context.prune_longest_posting_list(6);
    assert_eq!(search_context.advance(), Some(ScoredCandidate { score: 1, vector_id: 4 }));
}

#[test]
fn pruning_keeps_records_of_other_lists() {
    // Three lists, longest first: dimension 1, then 3, then 2. Once the queue (one slot)
    // holds record 1 at 10, the head list can add at most 5, so it moves up to record 4, the
    // smallest id under the other cursors. Record 4 keeps its full score 5 + 8.
    let inverted_index = InvertedIndexBuilder::new()
        .add(1, PostingList::from(vec![(1, 10), (2, 1), (3, 1), (4, 5), (5, 1)]))
        .add(2, PostingList::from(vec![(4, 8)]))
        .add(3, PostingList::from(vec![(1, 0), (5, 0)]))
        .build();
    let q = SparseVector { indices: vec![1, 2, 3], weights: vec![1, 1, 1] };
    let mut search_context = SearchContext::new(q, 1, &inverted_index);
    assert_eq!(search_context.search(), vec![ScoredCandidate { score: 13, vector_id: 4 }]);
}

#[test]
fn pruning_does_not_skip_past_a_third_list() {
    let inverted_index = InvertedIndexBuilder::new()
        .add(0, PostingList::from(vec![(1, 100), (5, 1), (6, 1), (7, 1), (8, 1)]))
        .add(1, PostingList::from(vec![(30, 1), (31, 1), (32, 1), (33, 1)]))
        .add(2, PostingList::from(vec![(5, 200)]))
        .build();
    let q = SparseVector { indices: vec![0, 1, 2], weights: vec![1, 1, 1] };
    let mut search_context = SearchContext::new(q, 1, &inverted_index);
    assert_eq!(search_context.search(), vec![ScoredCandidate { score: 201, vector_id: 5 }]);
}
