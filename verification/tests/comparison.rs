use std::cmp::Ordering;
use skewes::algorithms::comparison;

#[test]
fn comparison_test_cmp_slice_more_digits() {
    let a = vec![1, 2]; // i.e. (21) base 2**64
    let b = vec![5];
    assert_eq!(comparison::cmp_slice(&a, &b), Ordering::Greater);
}

#[test]
fn comparison_test_cmp_slice_fewer_digits() {
    let a = vec![567];
    let b = vec![1, 1];
    assert_eq!(comparison::cmp_slice(&a, &b), Ordering::Less);
}

#[test]
fn comparison_test_cmp_slice_greater() {
    let a = vec![3, 5];
    let b = vec![1, 5];
    assert_eq!(comparison::cmp_slice(&a, &b), Ordering::Greater);
}
