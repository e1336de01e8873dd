use sparse_search::posting::{PostingBuilder, PostingList, PostingListIterator};

// Weights are tenths: 21 stands for 2.1.
#[test]
fn test_posting_operations() {
    let mut builder = PostingBuilder::new();
    builder.add(1, 10);
    builder.add(2, 21);
    builder.add(5, 50);
    builder.add(3, 20);
    builder.add(8, 34);
    builder.add(10, 30);
    builder.add(20, 30);
    builder.add(7, 40);
    builder.add(11, 30);

    let posting_list = builder.build();

    let mut iter = PostingListIterator::new(&posting_list);

    assert_eq!(iter.peek().unwrap().id, 1);

    assert_eq!(iter.next().unwrap().id, 1);
    assert_eq!(iter.peek().unwrap().id, 2);
    assert_eq!(iter.next().unwrap().id, 2);
    assert_eq!(iter.peek().unwrap().id, 3);

    assert_eq!(iter.skip_to(7).unwrap().id, 7);
    assert_eq!(iter.peek().unwrap().id, 7);

    assert!(iter.skip_to(9).is_none());
    assert_eq!(iter.peek().unwrap().id, 10);

    assert!(iter.skip_to(20).is_some());
    assert_eq!(iter.peek().unwrap().id, 20);

    assert!(iter.skip_to(21).is_none());
    assert!(iter.peek().is_none());
}

#[test]
fn build_sorts_ids_strictly() {
    let list = PostingList::from(vec![(9, 1), (3, 2), (5, 3), (1, 4)]);
    let ids: Vec<u32> = list.elements.iter().map(|e| e.id).collect();
    assert_eq!(ids, vec![1, 3, 5, 9]);
    for w in list.elements.windows(2) {
        assert!(w[0].id < w[1].id);
    }
}

#[test]
fn build_fills_max_next_weight() {
    let list = PostingList::from(vec![(1, 5), (2, 9), (3, -4), (4, 7), (5, 2)]);
    let max_next: Vec<i32> = list.elements.iter().map(|e| e.max_next_weight).collect();
    assert_eq!(max_next, vec![9, 7, 7, 2, i32::MIN]);
    let weights: Vec<i32> = list.elements.iter().map(|e| e.weight).collect();
    assert_eq!(weights, vec![5, 9, -4, 7, 2]);
}

#[test]
fn build_of_nothing_is_empty() {
    let list = PostingBuilder::new().build();
    assert!(list.elements.is_empty());
    let mut iter = PostingListIterator::new(&list);
    assert!(iter.peek().is_none());
    assert!(iter.next().is_none());
    assert!(iter.skip_to(3).is_none());
    assert_eq!(iter.len_left(), 0);
}

#[test]
fn iterator_len_left_and_skip_to_end() {
    let list = PostingList::from(vec![(1, 1), (2, 2), (3, 3)]);
    let mut iter = PostingListIterator::new(&list);
    assert_eq!(iter.len_left(), 3);
    iter.next();
    assert_eq!(iter.len_left(), 2);
    assert!(iter.skip_to_end().is_none());
    assert_eq!(iter.len_left(), 0);
    assert!(iter.peek().is_none());
}

#[test]
fn skip_to_does_not_move_back() {
    let list = PostingList::from(vec![(2, 1), (4, 1), (6, 1)]);
    let mut iter = PostingListIterator::new(&list);
    assert_eq!(iter.skip_to(4).unwrap().id, 4);
    assert!(iter.skip_to(1).is_none());
    assert_eq!(iter.peek().unwrap().id, 4);
}
