use sparse_search::scored_candidate::ScoredCandidate;
use sparse_search::storage::SparseVectorStorage;
use sparse_search::vector::SparseVector;

/// A small deterministic generator for test data.
struct Lcg(u64);

impl Lcg {
    fn next(&mut self) -> u64 {
        self.0 = self.0.wrapping_mul(6364136223846793005).wrapping_add(1442695040888963407);
        self.0 >> 33
    }

    fn below(&mut self, n: u64) -> u64 {
        self.next() % n
    }
}

fn random_vector(g: &mut Lcg, max_len: u64, max_dim: u64) -> SparseVector {
    let len = g.below(max_len + 1);
    let mut indices: Vec<u32> = (0..len).map(|_| g.below(max_dim + 1) as u32).collect();
    indices.sort();
    indices.dedup();
    let weights = indices.iter().map(|_| g.below(101) as i32).collect();
    SparseVector::new(indices, weights)
}

fn scores(r: &[ScoredCandidate]) -> Vec<i128> {
    r.iter().map(|c| c.score).collect()
}

fn scenario_storage(unbalanced: bool) -> SparseVectorStorage {
    let mut storage = SparseVectorStorage::new();
    storage.add(1, SparseVector::new(vec![1, 2, 3], vec![10, 10, 10]));
    storage.add(2, SparseVector::new(vec![1, 2, 3], vec![20, 20, 20]));
    storage.add(3, SparseVector::new(vec![1, 2, 3], vec![30, 30, 30]));
    if unbalanced {
        for (id, w) in [(4, 1), (5, 2), (6, 3), (7, 4), (8, 5), (9, 6)] {
            storage.add(id, SparseVector::new(vec![1], vec![w]));
        }
    }
    storage.build_immutable_index();
    storage
}

fn query() -> SparseVector {
    SparseVector::new(vec![1, 2, 3], vec![1, 1, 1])
}

#[test]
fn three_paths_on_three_records() {
    let storage = scenario_storage(false);
    let expected = vec![
        ScoredCandidate { score: 90, vector_id: 3 },
        ScoredCandidate { score: 60, vector_id: 2 },
        ScoredCandidate { score: 30, vector_id: 1 },
    ];
    assert_eq!(storage.query_full_scan(10, &query()), expected);
    assert_eq!(storage.query_mutable_index(10, &query()), expected);
    assert_eq!(storage.query_immutable_index(10, query()), expected);
}

#[test]
fn three_paths_on_unbalanced_lists() {
    let storage = scenario_storage(true);
    let top3 = vec![
        ScoredCandidate { score: 90, vector_id: 3 },
        ScoredCandidate { score: 60, vector_id: 2 },
        ScoredCandidate { score: 30, vector_id: 1 },
    ];
    assert_eq!(storage.query_immutable_index(3, query()), top3);
    assert_eq!(storage.query_full_scan(3, &query()), top3);
    assert_eq!(storage.query_mutable_index(3, &query()), top3);
    let mut top4 = top3.clone();
    top4.push(ScoredCandidate { score: 6, vector_id: 9 });
    assert_eq!(storage.query_immutable_index(4, query()), top4);
    assert_eq!(storage.query_full_scan(4, &query()), top4);
    assert_eq!(storage.query_mutable_index(4, &query()), top4);
}

#[test]
fn built_index_holds_the_store() {
    let mut g = Lcg(7);
    let mut storage = SparseVectorStorage::new();
    for id in 0..300usize {
        storage.add(id, random_vector(&mut g, 40, 200));
    }
    storage.build_immutable_index();
    let index = storage.immutable_index().unwrap();
    for id in 0..storage.len() {
        let v = storage.get(id as u32).as_ref().unwrap();
        for (d, w) in v.indices.iter().zip(v.weights.iter()) {
            assert!(storage.mutable_index().get(d).unwrap().contains(&(id as u32)));
            let posting = index.get(d).unwrap();
            let found: Vec<_> = posting.elements.iter().filter(|e| e.id == id as u32).collect();
            assert_eq!(found.len(), 1);
            assert_eq!(found[0].weight, *w);
        }
    }
    for (d, posting) in index.postings.iter().enumerate() {
        for e in &posting.elements {
            let v = storage.get(e.id).as_ref().unwrap();
            let k = v.indices.iter().position(|x| *x == d as u32).unwrap();
            assert_eq!(v.weights[k], e.weight);
        }
    }
}

#[test]
fn slots_without_vector_are_skipped() {
    let mut storage = SparseVectorStorage::new();
    storage.add(5, SparseVector::new(vec![0, 4], vec![2, 3]));
    storage.add(2, SparseVector::new(vec![4], vec![7]));
    assert_eq!(storage.len(), 6);
    assert!(storage.get(0).is_none());
    storage.build_immutable_index();
    let q = SparseVector::new(vec![4], vec![2]);
    let expected = vec![ScoredCandidate { score: 14, vector_id: 2 }, ScoredCandidate { score: 6, vector_id: 5 }];
    assert_eq!(storage.query_full_scan(5, &q), expected);
    assert_eq!(storage.query_mutable_index(5, &q), expected);
    assert_eq!(storage.query_immutable_index(5, q), expected);
}

#[test]
fn full_scan_scores_untouched_vectors_as_zero() {
    let mut storage = SparseVectorStorage::new();
    storage.add(0, SparseVector::new(vec![1], vec![4]));
    storage.add(1, SparseVector::new(vec![2], vec![9]));
    let q = SparseVector::new(vec![1], vec![3]);
    assert_eq!(
        storage.query_full_scan(5, &q),
        vec![ScoredCandidate { score: 12, vector_id: 0 }, ScoredCandidate { score: 0, vector_id: 1 }]
    );
    assert_eq!(storage.query_mutable_index(5, &q), vec![ScoredCandidate { score: 12, vector_id: 0 }]);
}

#[test]
fn hot_dimension_matches_full_scan() {
    let mut g = Lcg(11);
    let mut storage = SparseVectorStorage::new();
    for id in 0..30_500usize {
        let mut v = random_vector(&mut g, 4, 50);
        if !v.indices.contains(&7) {
            let pos = v.indices.iter().position(|x| *x > 7).unwrap_or(v.indices.len());
            v.indices.insert(pos, 7);
            v.weights.insert(pos, g.below(101) as i32);
        }
        storage.add(id, v);
    }
    storage.build_immutable_index();
    assert!(storage.mutable_index().get(&7).unwrap().len() > 30_000);
    for (k, q) in [
        SparseVector::new(vec![7], vec![3]),
        SparseVector::new(vec![7, 20], vec![1, 90]),
        SparseVector::new(vec![3, 7], vec![100, 1]),
    ]
    .into_iter()
    .enumerate()
    {
        let top = [1usize, 10, 100][k];
        let full = storage.query_full_scan(top, &q);
        let mutable = storage.query_mutable_index(top, &q);
        let immutable = storage.query_immutable_index(top, q);
        assert_eq!(scores(&full), scores(&immutable));
        assert_eq!(scores(&full), scores(&mutable));
    }
}

#[test]
fn random_queries_agree_on_two_dimensions() {
    let mut g = Lcg(3);
    let mut storage = SparseVectorStorage::new();
    for id in 0..400usize {
        storage.add(id, random_vector(&mut g, 30, 300));
    }
    storage.build_immutable_index();
    for _ in 0..10_000 {
        let q = random_vector(&mut g, 2, 300);
        let top = 1 + g.below(255) as usize;
        let full = storage.query_full_scan(top, &q);
        let mutable = storage.query_mutable_index(top, &q);
        let immutable = storage.query_immutable_index(top, q);
        // The full scan also ranks vectors that share no dimension with the query (score 0).
        let n = mutable.len();
        assert_eq!(scores(&full[..n.min(full.len())]), scores(&mutable));
        assert_eq!(scores(&mutable), scores(&immutable));
    }
}

#[test]
fn mutable_query_lists_each_record_once() {
    let mut storage = SparseVectorStorage::new();
    storage.add(1, SparseVector::new(vec![1, 2], vec![3, 4]));
    storage.add(2, SparseVector::new(vec![1], vec![5]));
    let q = SparseVector::new(vec![1, 2], vec![1, 1]);
    assert_eq!(
        storage.query_mutable_index(10, &q),
        vec![ScoredCandidate { score: 7, vector_id: 1 }, ScoredCandidate { score: 5, vector_id: 2 }]
    );
    storage.build_immutable_index();
    assert_eq!(
        storage.query_immutable_index(10, q),
        vec![ScoredCandidate { score: 7, vector_id: 1 }, ScoredCandidate { score: 5, vector_id: 2 }]
    );
}

#[test]
fn mutable_index_lists_in_order_of_addition() {
    let mut storage = SparseVectorStorage::new();
    storage.add(4, SparseVector::new(vec![3], vec![1]));
    storage.add(1, SparseVector::new(vec![3, 9], vec![1, 1]));
    assert_eq!(storage.mutable_index().get(&3), Some(&vec![4, 1]));
    assert_eq!(storage.mutable_index().get(&9), Some(&vec![1]));
    assert_eq!(storage.mutable_index().get(&5), None);
}

#[test]
fn random_queries_agree_on_many_dimensions() {
    let mut g = Lcg(5);
    let mut storage = SparseVectorStorage::new();
    for id in 0..200usize {
        storage.add(id, random_vector(&mut g, 30, 120));
    }
    storage.build_immutable_index();
    for _ in 0..10_000 {
        let q = random_vector(&mut g, 40, 120);
        let top = 1 + g.below(255) as usize;
        let full = storage.query_full_scan(top, &q);
        let mutable = storage.query_mutable_index(top, &q);
        let immutable = storage.query_immutable_index(top, q);
        let n = mutable.len();
        assert_eq!(scores(&full[..n.min(full.len())]), scores(&mutable));
        assert_eq!(scores(&mutable), scores(&immutable));
    }
}
