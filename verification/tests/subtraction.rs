use skewes::algorithms::subtraction;
use skewes::{Natural, Sign};

const NINE: u64 = u64::MAX;
const EIGHT: u64 = u64::MAX - 1;

#[test]
fn subtraction_test_sub_two_digits_wo_carry() {
    let (result, carry) = subtraction::sub_with_carry(1, NINE, false);
    assert_eq!((result, carry), (2, true));

    let (result, carry) = subtraction::sub_with_carry(NINE, 1, false);
    assert_eq!((result, carry), (EIGHT, false));

    let (result, carry) = subtraction::sub_with_carry(NINE, EIGHT, false);
    assert_eq!((result, carry), (1, false));
}

#[test]
fn subtraction_test_sub_two_digits_w_carry() {
    let (result, carry) = subtraction::sub_with_carry(1, NINE, true);
    assert_eq!((result, carry), (1, true));

    let (result, carry) = subtraction::sub_with_carry(NINE, 1, true);
    assert_eq!((result, carry), (u64::MAX - 2, false));

    let (result, carry) = subtraction::sub_with_carry(NINE, EIGHT, true);
    assert_eq!((result, carry), (0, false));
}

#[test]
fn subtraction_test_sub_more_digits() {
    let a = Natural::from(vec![1, NINE]);
    let b = Natural::from(vec![8, 1, 3]);
    let c = Natural::from(vec![7, 2, 2]);
    assert_eq!(subtraction::sub_signed(&a, &b), (Sign::Negative, c));
}

#[test]
fn subtraction_test_sub_fewer_digits() {
    let a = Natural::from(vec![1, 2, 3]);
    let b = Natural::from(vec![NINE, 1]);
    let c = Natural::from(vec![2, 0, 3]);
    assert_eq!(subtraction::sub_signed(&a, &b), (Sign::Positive, c));
}

#[test]
fn subtraction_test_sub_bigger_number() {
    let a = Natural::from(vec![1, 2]);
    let b = Natural::from(vec![3, 2]);
    assert_eq!(subtraction::sub_signed(&a, &b), (Sign::Negative, Natural::from(2)));
}

#[test]
fn subtraction_test_sub_smaller_number() {
    let a = Natural::from(vec![3, 2]);
    let b = Natural::from(vec![1, 2]);
    assert_eq!(subtraction::sub_signed(&a, &b), (Sign::Positive, Natural::from(2)));
}

#[test]
fn test_sub_a_a_equals_0() {
    let a = &[3, 4, 5];
    let b = subtraction::sub_slice(a, a);
    assert!(b.is_empty());
}
