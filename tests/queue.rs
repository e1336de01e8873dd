use sparse_search::fixed_length_pq::FixedLengthPriorityQueue;
use sparse_search::scored_candidate::ScoredCandidate;

fn c(score: i128, vector_id: u32) -> ScoredCandidate {
    ScoredCandidate { score, vector_id }
}

#[test]
fn queue_keeps_the_best() {
    let mut q = FixedLengthPriorityQueue::new(2);
    assert_eq!(q.push(c(5, 1)), None);
    assert_eq!(q.push(c(3, 2)), None);
    assert_eq!(q.len(), 2);
    assert_eq!(q.top(), Some(c(3, 2)));
    // Beats the lowest: the lowest is evicted.
    assert_eq!(q.push(c(7, 3)), Some(c(3, 2)));
    // Does not beat the lowest: refused.
    assert_eq!(q.push(c(4, 4)), Some(c(4, 4)));
    assert_eq!(q.top(), Some(c(5, 1)));
    assert_eq!(q.into_vec(), vec![c(7, 3), c(5, 1)]);
}

#[test]
fn queue_empty_has_no_top() {
    let q = FixedLengthPriorityQueue::new(3);
    assert_eq!(q.top(), None);
    assert_eq!(q.len(), 0);
    assert!(q.into_vec().is_empty());
}

#[test]
fn queue_equal_score_is_refused_when_full() {
    let mut q = FixedLengthPriorityQueue::new(1);
    q.push(c(5, 1));
    assert_eq!(q.push(c(5, 2)), Some(c(5, 2)));
    assert_eq!(q.into_vec(), vec![c(5, 1)]);
}

#[test]
fn queue_into_vec_is_descending() {
    let mut q = FixedLengthPriorityQueue::new(10);
    for (i, s) in [4, -1, 9, 0, 9, 3].iter().enumerate() {
        q.push(c(*s, i as u32));
    }
    let scores: Vec<i128> = q.into_vec().iter().map(|x| x.score).collect();
    assert_eq!(scores, vec![9, 9, 4, 3, 0, -1]);
}
