use skewes::Natural;

const NINE: u64 = u64::MAX;
const EIGHT: u64 = u64::MAX - 1;
const ONE: u64 = 1;

// Large factorials: a good overall check.
fn factorial(n: Natural) -> Natural {
    if n == Natural::from(1) {
        Natural::from(1)
    } else {
        let mut acc = Natural::from(1);
        let mut m = n;
        while m > Natural::zero() {
            acc = acc.mul(&m);
            m = m.sub(&Natural::from(1)).unwrap();
        }
        acc
    }
}

#[test]
fn can_create_from_u64() {
    let a = Natural::from(42);
    let mut limbs = Natural::zero().to_limbs();
    limbs.push(42);
    let b = Natural::from(limbs);
    assert_eq!(a, b);
    assert_eq!(a.to_limbs(), vec![42]);
}

#[test]
fn can_add_two_one_digit_numbers_without_carry() {
    let a = Natural::from(21);
    let b = Natural::from(42);
    let c = Natural::from(63);
    assert_eq!(a.add(&b), c);
    assert_eq!(b.add(&a), c);
}

#[test]
fn can_add_two_one_digit_numbers_with_carry() {
    let a = Natural::from(NINE);
    let b = Natural::from(ONE);
    let c = Natural::from(vec![0, 1]);
    assert_eq!(a.add(&b), c);
    assert_eq!(b.add(&a), c);
}

#[test]
fn eight_plus_one_is_nine() {
    let a = Natural::from(EIGHT);
    let b = Natural::from(ONE);
    let c = Natural::from(NINE);
    assert_eq!(a.add(&b), c);
    assert_eq!(b.add(&a), c);
}

#[test]
fn can_add_numbers_with_same_number_of_digits() {
    let a = Natural::from(vec![1, 2]);
    let b = Natural::from(vec![2, 4]);
    let c = Natural::from(vec![3, 6]);
    assert_eq!(a.add(&b), c);
    assert_eq!(b.add(&a), c);
}

#[test]
fn can_add_numbers_with_different_number_of_digits_wo_carry() {
    let a = Natural::from(vec![1, 2]);
    let b = Natural::from(vec![2, 4, 6, 8]);
    let c = Natural::from(vec![3, 6, 6, 8]);
    assert_eq!(a.add(&b), c);
    assert_eq!(b.add(&a), c);
}

#[test]
fn addition_series_of_carries() {
    let a = Natural::from(vec![1]);
    let b = Natural::from(vec![NINE, NINE, NINE, NINE]);
    let c = Natural::from(vec![0, 0, 0, 0, 1]);
    assert_eq!(a.add(&b), c);
    assert_eq!(b.add(&a), c);
}

#[test]
fn natural_test_two_digit_by_two_digit_multiply() {
    let a = Natural::from(vec![NINE, ONE]);
    let b = Natural::from(vec![2, 1]);
    let c = Natural::from(vec![EIGHT, 2, 2]);
    assert_eq!(a.mul(&b), c);
}

#[test]
fn natural_test_sub_more_digits() {
    let a = Natural::from(vec![1, 2]);
    let b = Natural::from(vec![8, 1, 3]);
    assert_eq!(a.sub(&b), None);
}

#[test]
fn natural_test_sub_fewer_digits() {
    let a = Natural::from(vec![1, 2, 3]);
    let b = Natural::from(vec![NINE, 1]);
    let c = Natural::from(vec![2, 0, 3]);
    assert_eq!(a.sub(&b), Some(c));
}

#[test]
fn natural_test_sub_bigger_number() {
    let a = Natural::from(vec![1, 2]);
    let b = Natural::from(vec![3, 2]);
    assert_eq!(a.sub(&b), None);
}

#[test]
fn natural_test_sub_smaller_number() {
    let a = Natural::from(vec![3, 2]);
    let b = Natural::from(vec![1, 2]);
    let c = Natural::from(vec![2]);
    assert_eq!(a.sub(&b), Some(c));
}

#[test]
fn print_numbers() {
    let a = Natural::from(vec![3]);
    let b = Natural::from(vec![156]);
    assert_eq!(a.to_string(), "3");
    assert_eq!(b.to_string(), "156");
}

#[test]
fn can_parse_integers() {
    let n = Natural::from_string("1234");
    let m = Natural::from(1234);
    assert_eq!(n, m);
}

#[test]
fn can_calculate_big_factorials() {
    let n = Natural::from(100);
    let ans = factorial(n);
    assert_eq!(
        ans,
        Natural::from_string(
            "93326215443944152681699238856266700490715968264381621468592963895217599993229915608941463976156518286253697920827223758251185210916864000000000000000000000000"
        )
    )
}
