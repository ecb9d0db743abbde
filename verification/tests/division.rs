use skewes::algorithms::division;
use skewes::Natural;

const NINE: u64 = u64::MAX;

#[test]
fn division_test_mul_by_power_2() {
    let n = Natural::from(vec![1, 7]);
    assert_eq!(division::mul_by_2_to_power_k(&n, 3), Natural::from(vec![8, 56]));

    let n = Natural::from(156);
    assert_eq!(
        division::mul_by_2_to_power_k(&n, 60),
        Natural::from(vec![156 << 60, 156u64.rotate_left(60) & 0xff])
    )
}

#[test]
fn division_test_divide_two_normalised_numbers() {
    let a = Natural::from(vec![1 << 63, 1 << 63]);
    let b = Natural::from(vec![1 << 63]);
    let c = Natural::from(vec![1, 1]);
    assert_eq!(division::div(&a, &b), (c, Natural::zero()));
}

#[test]
fn division_test_divide_two_numbers() {
    let a = Natural::from(vec![1, 7]);
    let b = Natural::from(vec![7]);
    let c = Natural::from(vec![0, 1]);
    assert_eq!(division::div(&a, &b), (c, Natural::from(1)));
}

#[test]
fn division_test_short_div_big_answer() {
    let p = (4u128 << 64) | (4u128);
    let q = 2u128;
    let d = p / q;
    let d64 = u64::try_from(d & 0xffffffffffffffff).unwrap();
    assert_eq!(d, (2u128 << 64) | 2u128);
    assert_eq!(d64, 2u64);

    let result = division::short_div(4, 4, 2);
    assert_eq!(result, NINE); // Answer bigger than 1 digit, therefore max 9
}

#[test]
fn division_test_short_div_big_divisor_small_answer() {
    let result = division::short_div(1, 2, 2);
    let expected = (1u64 << 63) + 1;
    assert_eq!(result, expected);
}

#[test]
fn division_test_short_div_small_exact_answer() {
    let result = division::short_div(0, 21, 7);
    assert_eq!(result, 3);
}

#[test]
fn division_test_short_div_small_floored_answer() {
    let result = division::short_div(0, 23, 7);
    assert_eq!(result, 3);
}

#[test]
fn division_test_normalize() {
    let mut a = Natural::from(vec![1, 0, 0]);
    let mut b = Natural::from(vec![0, 0, 2]);
    let mut c = Natural::from(vec![0, 3, 0]);

    division::normalize(&mut a);
    division::normalize(&mut b);
    division::normalize(&mut c);

    assert_eq!(a, Natural::from(vec![1]));
    assert_eq!(b, Natural::from(vec![0, 0, 2]));
    assert_eq!(c, Natural::from(vec![0, 3]));
    assert_eq!(a.to_limbs(), vec![1]);
    assert_eq!(b.to_limbs(), vec![0, 0, 2]);
    assert_eq!(c.to_limbs(), vec![0, 3]);
}

#[test]
fn division_test_div_by_ten() {
    let a = Natural::from(156);
    let b = Natural::from(10);
    let (d, r) = division::div(&a, &b);
    assert_eq!(d, Natural::from(15));
    assert_eq!(r, Natural::from(6));
}

#[test]
fn test_div_three_digit_by_one_digit() {
    // A quotient that once came out too short: the remainder reaches zero
    // before the last position is filled.
    let p = Natural::from(vec![0, 0, 4788272403190906880]);
    let q = Natural::from(11529215046068469760);
    assert_eq!(
        p.div(&q),
        (Natural::from(vec![0, 7661235845105451008]), Natural::zero())
    );
}
