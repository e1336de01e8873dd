use sparse_search::vector::SparseVector;

#[test]
fn test_dot_product_aligned() {
    let v1 = SparseVector::new(vec![1, 2, 3], vec![1, 2, 3]);
    let v2 = SparseVector::new(vec![1, 2, 3], vec![1, 2, 3]);
    assert_eq!(v1.dot_product(&v2), 14);
}

#[test]
fn test_dot_product_missing() {
    let v1 = SparseVector::new(vec![1, 2, 3], vec![1, 2, 3]);
    let v2 = SparseVector::new(vec![1, 2], vec![1, 2]);
    assert_eq!(v1.dot_product(&v2), 5);
}

#[test]
fn dot_product_interleaved_and_signed() {
    let v1 = SparseVector::new(vec![0, 4, 9, 12], vec![3, -2, 5, 7]);
    let v2 = SparseVector::new(vec![1, 4, 12, 30], vec![8, 6, -1, 2]);
    assert_eq!(v1.dot_product(&v2), -12 - 7);
    assert_eq!(v2.dot_product(&v1), -19);
}

#[test]
fn dot_product_with_empty_is_zero() {
    let v1 = SparseVector::new(vec![], vec![]);
    let v2 = SparseVector::new(vec![1, 2], vec![1, 2]);
    assert_eq!(v1.dot_product(&v2), 0);
    assert_eq!(v2.dot_product(&v1), 0);
}

#[test]
fn dot_product_of_extreme_weights_does_not_overflow() {
    let v1 = SparseVector::new(vec![1, 2], vec![i32::MIN, i32::MIN]);
    let expected = 2 * (i32::MIN as i128) * (i32::MIN as i128);
    assert_eq!(v1.dot_product(&v1), expected);
}
