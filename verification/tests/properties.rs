use std::cmp::Ordering;
use skewes::algorithms::{addition, comparison, division, multiplication, subtraction, util};
use skewes::{Integer, Natural, Range, Sign};

/// A small generator of limbs, so that the same values come up in every run.
struct Limbs {
    state: u64,
}

impl Limbs {
    fn next(&mut self) -> u64 {
        self.state = self
            .state
            .wrapping_mul(6364136223846793005)
            .wrapping_add(1442695040888963407);
        let x = self.state ^ (self.state >> 29);
        // Now and then a limb of all zeros or all ones, where carries run long.
        match x % 7 {
            0 => 0,
            1 => u64::MAX,
            _ => x,
        }
    }

    fn natural(&mut self, limbs: usize) -> Natural {
        let mut v = Vec::new();
        for _ in 0..limbs {
            v.push(self.next());
        }
        Natural::from(v)
    }
}

fn is_canonical(n: &Natural) -> bool {
    n.to_limbs().last() != Some(&0)
}

#[test]
fn addition_commutes_and_associates() {
    let mut g = Limbs { state: 1 };
    for round in 0..200 {
        let a = g.natural(round % 5);
        let b = g.natural((round / 5) % 4);
        let c = g.natural((round / 20) % 6);
        assert_eq!(a.add(&b), b.add(&a));
        assert_eq!(a.add(&b).add(&c), a.add(&b.add(&c)));
        assert_eq!(a.add(&b).to_limbs(), b.add(&a).to_limbs());
        assert!(is_canonical(&a.add(&b)));
    }
}

#[test]
fn multiplication_commutes_and_associates() {
    let mut g = Limbs { state: 2 };
    for round in 0..200 {
        let a = g.natural(round % 5);
        let b = g.natural((round / 5) % 4);
        let c = g.natural((round / 20) % 3);
        assert_eq!(a.mul(&b), b.mul(&a));
        assert_eq!(a.mul(&b).mul(&c), a.mul(&b.mul(&c)));
        assert_eq!(a.mul(&b).mul(&c).to_limbs(), a.mul(&b.mul(&c)).to_limbs());
        assert!(is_canonical(&a.mul(&b)));
    }
}

#[test]
fn multiplication_distributes_over_addition() {
    let mut g = Limbs { state: 3 };
    for round in 0..100 {
        let a = g.natural(round % 4);
        let b = g.natural(round % 3);
        let c = g.natural(round % 5);
        assert_eq!(a.mul(&b.add(&c)), a.mul(&b).add(&a.mul(&c)));
    }
}

#[test]
fn identities_of_addition_and_multiplication() {
    let mut g = Limbs { state: 4 };
    for round in 0..50 {
        let a = g.natural(round % 5);
        assert_eq!(a.add(&Natural::zero()), a);
        assert_eq!(Natural::zero().add(&a), a);
        assert_eq!(a.mul(&Natural::one()), a);
        assert_eq!(Natural::one().mul(&a), a);
        assert_eq!(a.mul(&Natural::zero()), Natural::zero());
        assert_eq!(Natural::zero().mul(&a), Natural::zero());
        assert_eq!(a.mul(&Natural::zero()).to_limbs(), Vec::<u64>::new());
    }
}

#[test]
fn division_gives_quotient_and_remainder() {
    let mut g = Limbs { state: 5 };
    let mut checked = 0;
    for round in 0..600 {
        let a = g.natural(round % 7);
        let b = g.natural(1 + (round / 7) % 4);
        if b == Natural::zero() {
            continue;
        }
        let (q, r) = a.div(&b);
        assert_eq!(q.mul(&b).add(&r), a);
        assert!(r < b);
        assert!(is_canonical(&q));
        assert!(is_canonical(&r));
        checked += 1;
    }
    assert!(checked > 400);
}

#[test]
fn division_by_a_divisor_of_several_limbs_needs_corrections() {
    // Divisors whose second limb is all ones make the estimate from the
    // top limb alone too large.
    let b = Natural::from(vec![u64::MAX, u64::MAX, 1 << 63]);
    let a = Natural::from(vec![0, 0, 0, 0, 1 << 63]);
    let (q, r) = a.div(&b);
    assert_eq!(q.mul(&b).add(&r), a);
    assert!(r < b);
    assert_eq!(q.to_limbs(), vec![3, u64::MAX - 1]);

    let b = Natural::from(vec![u64::MAX, 7]);
    let a = Natural::from(vec![5, u64::MAX, 6, 7]);
    let (q, r) = a.div(&b);
    assert_eq!(q.mul(&b).add(&r), a);
    assert!(r < b);
}

#[test]
fn division_by_one_limb_agrees_with_native_division() {
    let mut g = Limbs { state: 6 };
    for _ in 0..200 {
        let a = g.next();
        let b = g.next();
        if b == 0 {
            continue;
        }
        let (q, r) = Natural::from(a).div(&Natural::from(b));
        assert_eq!(q, Natural::from(a / b));
        assert_eq!(r, Natural::from(a % b));
    }
    let wide: u128 = (u64::MAX as u128) * 12345 + 678;
    let a = Natural::from(vec![wide as u64, (wide >> 64) as u64]);
    let (q, r) = a.div(&Natural::from(12345));
    assert_eq!(q, Natural::from(u64::MAX));
    assert_eq!(r, Natural::from(678));
}

#[test]
fn division_of_a_smaller_number_leaves_it_as_remainder() {
    let a = Natural::from(vec![5, 6]);
    let b = Natural::from(vec![1, 2, 3]);
    let (q, r) = a.div(&b);
    assert_eq!(q, Natural::zero());
    assert_eq!(r, a);
    let (q, r) = division::div_normalised(&a, &Natural::from(vec![0, 0, 1 << 63]));
    assert_eq!(q, Natural::zero());
    assert_eq!(r, a);
}

#[test]
fn division_of_zero_and_by_itself() {
    let b = Natural::from(vec![9, 8, 7]);
    assert_eq!(Natural::zero().div(&b), (Natural::zero(), Natural::zero()));
    assert_eq!(b.div(&b), (Natural::one(), Natural::zero()));
    assert_eq!(b.div(&Natural::one()), (b.clone(), Natural::zero()));
}

#[test]
fn text_round_trip() {
    let mut g = Limbs { state: 7 };
    for round in 0..60 {
        let a = g.natural(round % 5);
        let text = a.to_string();
        assert!(text.chars().all(|c| c.is_ascii_digit()));
        assert_eq!(Natural::from_string(&text), a);
    }
}

#[test]
fn text_of_chosen_numbers() {
    assert_eq!(Natural::from(u64::MAX).to_string(), "18446744073709551615");
    assert_eq!(
        Natural::from(vec![0, 1]).to_string(),
        "18446744073709551616"
    );
    assert_eq!(Natural::from(1000).to_string(), "1000");
    assert_eq!(Natural::zero().to_string(), "");
    assert_eq!(Natural::from_string(""), Natural::zero());
    assert_eq!(Natural::from_string("000123"), Natural::from(123));
    assert_eq!(
        Natural::from_string("340282366920938463463374607431768211456"),
        Natural::from(vec![0, 0, 1])
    );
}

#[test]
fn subtraction_undoes_addition() {
    let mut g = Limbs { state: 8 };
    for round in 0..200 {
        let a = g.natural(round % 5);
        let b = g.natural((round / 5) % 5);
        match a.sub(&b) {
            Some(d) => {
                assert!(a >= b);
                assert_eq!(d.add(&b), a);
                assert!(is_canonical(&d));
            }
            None => assert!(a < b),
        }
        assert_eq!(a.add(&b).sub(&b), Some(a));
    }
}

#[test]
fn unsigned_subtraction_of_a_greater_number_has_no_value() {
    assert_eq!(Natural::from(3).sub(&Natural::from(4)), None);
    assert_eq!(Natural::zero().sub(&Natural::one()), None);
    assert_eq!(subtraction::sub(&[3], &[4]), None);
    assert_eq!(subtraction::sub(&[0, 1], &[1]), Some(vec![u64::MAX]));
    assert_eq!(subtraction::sub(&[7, 7], &[7, 7]), Some(vec![]));
    assert_eq!(subtraction::sub(&[5, 0, 0], &[2, 0]), Some(vec![3]));
}

#[test]
fn scenario_addition_makes_a_carry_limb() {
    assert_eq!(addition::add(&[u64::MAX], &[1]), vec![0, 1]);
    assert_eq!(addition::_add(&[u64::MAX, u64::MAX], &[1]), vec![0, 0, 1]);
    assert_eq!(addition::add(&[], &[]), Vec::<u64>::new());
    assert_eq!(addition::add(&[], &[4, 5]), vec![4, 5]);
}

#[test]
fn scenario_multiplication() {
    assert_eq!(
        multiplication::mul(&[u64::MAX, 1], &[2, 1]),
        vec![u64::MAX - 1, 2, 2]
    );
    assert_eq!(multiplication::mul(&[], &[2, 1]), Vec::<u64>::new());
}

#[test]
fn scenario_division() {
    let top = 1u64 << 63;
    assert_eq!(
        Natural::from(vec![top, top]).div(&Natural::from(vec![top])),
        (Natural::from(vec![1, 1]), Natural::from(Vec::new()))
    );
    assert_eq!(
        Natural::from(vec![156]).div(&Natural::from(vec![10])),
        (Natural::from(vec![15]), Natural::from(vec![6]))
    );
    let (q, r) = Natural::from(vec![0, 0, 4788272403190906880])
        .div(&Natural::from(vec![11529215046068469760]));
    assert_eq!(q.to_limbs(), vec![0, 7661235845105451008]);
    assert_eq!(r, Natural::from(vec![0]));
}

#[test]
fn scenario_product_of_one_to_twenty() {
    let mut acc = Natural::one();
    for k in one_up_to(21) {
        acc = acc.mul(&k);
    }
    assert_eq!(acc, Natural::from(2432902008176640000));
    assert_eq!(acc.to_string(), "2432902008176640000");
}

fn one_up_to(end: u64) -> Vec<Natural> {
    let mut range = Range::new(Natural::from(1), Natural::from(end));
    let mut all = Vec::new();
    while let Some(n) = range.next() {
        all.push(n);
    }
    all
}

#[test]
fn range_walks_from_first_to_last() {
    let mut range = Range::new(Natural::from(u64::MAX - 1), Natural::from(vec![1, 1]));
    assert_eq!(range.next(), Some(Natural::from(u64::MAX - 1)));
    assert_eq!(range.next(), Some(Natural::from(u64::MAX)));
    assert_eq!(range.next(), Some(Natural::from(vec![0, 1])));
    assert_eq!(range.next(), None);
    assert_eq!(range.next(), None);
    let mut empty = Range::new(Natural::from(5), Natural::from(5));
    assert_eq!(empty.next(), None);
}

#[test]
fn increment_in_place() {
    let mut n = Natural::zero();
    n.inc();
    assert_eq!(n, Natural::one());
    let mut n = Natural::from(vec![u64::MAX, u64::MAX]);
    n.inc();
    assert_eq!(n.to_limbs(), vec![0, 0, 1]);
    let mut n = Natural::from(vec![u64::MAX, 4]);
    n.inc();
    assert_eq!(n.to_limbs(), vec![0, 5]);
    let mut n = Natural::from(vec![7, 4]);
    n.inc();
    assert_eq!(n.to_limbs(), vec![8, 4]);
}

#[test]
fn addition_in_place() {
    let mut g = Limbs { state: 9 };
    for round in 0..100 {
        let a = g.natural(round % 4);
        let b = g.natural((round / 4) % 5);
        let mut sum = a.clone();
        sum.add_mut(&b);
        assert_eq!(sum, a.add(&b));
        assert!(is_canonical(&sum));
    }
    let mut short = Natural::from(1);
    short.add_mut(&Natural::from(vec![u64::MAX, u64::MAX, u64::MAX]));
    assert_eq!(short.to_limbs(), vec![0, 0, 0, 1]);
}

#[test]
fn in_place_kernel_reports_the_carry() {
    let mut a = [u64::MAX, u64::MAX];
    assert!(addition::add_mut(&mut a, &[1]));
    assert_eq!(a, [0, 0]);
    let mut a = [u64::MAX, 0];
    assert!(!addition::add_mut(&mut a, &[1]));
    assert_eq!(a, [0, 1]);
}

#[test]
fn in_place_subtraction() {
    let mut a = [0, 0, 1];
    subtraction::sub_slice_assign(&mut a, &[1]);
    assert_eq!(a, [u64::MAX, u64::MAX, 0]);
    let mut a = [5, 9];
    subtraction::sub_slice_assign(&mut a, &[5, 9]);
    assert_eq!(a, [0, 0]);
    // A smaller minuend wraps around.
    let mut a = [0];
    subtraction::sub_slice_assign(&mut a, &[1]);
    assert_eq!(a, [u64::MAX]);
}

#[test]
fn normalizing_a_vector() {
    let mut v = vec![1, 0, 2, 0, 0];
    subtraction::normalize_vec(&mut v);
    assert_eq!(v, vec![1, 0, 2]);
    let mut v = vec![0, 0];
    subtraction::normalize_vec(&mut v);
    assert_eq!(v, Vec::<u64>::new());
}

#[test]
fn comparison_counts_no_zero_limbs_at_the_top() {
    assert_eq!(comparison::cmp_slice(&[5, 0, 0], &[6]), Ordering::Less);
    assert_eq!(comparison::cmp_slice(&[5, 0, 0], &[5]), Ordering::Equal);
    assert_eq!(comparison::cmp_slice(&[], &[0, 0]), Ordering::Equal);
    assert_eq!(comparison::cmp_slice(&[0, 1], &[u64::MAX]), Ordering::Greater);
    assert_eq!(comparison::cmp_slice(&[9, 1, 4], &[8, 2, 4]), Ordering::Less);
    assert_eq!(comparison::digit_length(&[]), 0);
    assert_eq!(comparison::digit_length(&[0, 0]), 0);
    let d = comparison::first_difference(&[1, 2, 3], &[1, 5, 3], 3);
    assert!(d.less && !d.greater);
    let d = comparison::first_difference(&[1, 2, 3], &[1, 5, 3], 1);
    assert!(!d.less && !d.greater);
}

#[test]
fn naturals_are_ordered_by_value() {
    let small = Natural::from(vec![u64::MAX]);
    let large = Natural::from(vec![0, 1]);
    assert!(small < large);
    assert!(large > small);
    assert!(small <= small.clone());
    assert!(large.at_least(&small));
    assert!(!small.at_least(&large));
    assert!(Natural::zero().is_zero());
    assert!(!large.is_zero());
    assert_eq!(large.limb_at(1), 1);
    assert_eq!(large.limb_at(2), 0);
}

#[test]
fn conversion_to_a_native_number() {
    assert_eq!(u32::try_from(Natural::zero()), Ok(0));
    assert_eq!(u32::try_from(Natural::from(77)), Ok(77));
    assert_eq!(u32::try_from(Natural::from((1 << 32) + 5)), Ok(5));
    assert_eq!(
        u32::try_from(Natural::from(vec![1, 1])),
        Err("Error converting a Natural to unsigned integer")
    );
}

#[test]
fn shifts_by_whole_limbs() {
    let n = Natural::from(vec![3, 4]);
    assert_eq!(util::shl(&n, 2).to_limbs(), vec![0, 0, 3, 4]);
    assert_eq!(util::shl(&n, 0), n);
    assert_eq!(util::shl(&Natural::zero(), 3), Natural::zero());
    let mut m = Natural::from(9);
    util::shl_mut(&mut m, 1);
    assert_eq!(m.to_limbs(), vec![0, 9]);
    let mut v = vec![1];
    util::shl_mut_vec(&mut v, 3);
    assert_eq!(v, vec![0, 0, 0, 1]);
}

#[test]
fn shifts_by_bits() {
    let n = Natural::from(vec![1 << 63, 1]);
    assert_eq!(division::mul_by_2_to_power_k(&n, 1).to_limbs(), vec![0, 3]);
    assert_eq!(division::mul_by_2_to_power_k(&n, 0), n);
    assert_eq!(
        division::div_by_2_to_power_k(&Natural::from(vec![0, 3]), 1),
        n
    );
    assert_eq!(
        division::div_by_2_to_power_k(&Natural::from(vec![7, 1]), 2).to_limbs(),
        vec![(1 << 62) + 1]
    );
    assert_eq!(division::div_by_2_to_power_k(&n, 0), n);
    let mut g = Limbs { state: 10 };
    for round in 0..64 {
        let a = g.natural(1 + round % 3);
        let scaled = division::mul_by_2_to_power_k(&a, round as u32 % 64);
        assert_eq!(division::div_by_2_to_power_k(&scaled, round as u32 % 64), a);
    }
}

#[test]
fn short_division_is_capped() {
    assert_eq!(division::short_div(0, 0, 1), 0);
    assert_eq!(division::short_div(1, 0, 1), u64::MAX);
    assert_eq!(division::short_div(1, 0, 2), 1 << 63);
    assert_eq!(division::short_div(u64::MAX - 1, u64::MAX, u64::MAX), u64::MAX);
}

#[test]
fn divide_and_conquer_agrees_with_schoolbook() {
    let mut g = Limbs { state: 11 };
    for limbs in [17usize, 18, 33, 40, 70] {
        let mut a = Vec::new();
        let mut b = Vec::new();
        for _ in 0..limbs {
            a.push(g.next());
        }
        for _ in 0..limbs + 3 {
            b.push(g.next());
        }
        let fast = multiplication::karatsuba(&a, &b);
        let slow = multiplication::mul(&a, &b);
        assert_eq!(Natural::from(fast), Natural::from(slow));
    }
}

#[test]
fn signs() {
    assert_eq!(Sign::Positive.negate(), Sign::Negative);
    assert_eq!(Sign::Negative.negate(), Sign::Positive);
    assert_eq!(Sign::Negative * Sign::Negative, Sign::Positive);
    assert_eq!(Sign::Negative * Sign::Positive, Sign::Negative);
    assert_eq!(Sign::Positive.times(Sign::Negative), Sign::Negative);
    assert_eq!(Sign::Positive.times(Sign::Positive), Sign::Positive);
}

#[test]
fn zero_is_always_positive() {
    let zero = Integer::new(Sign::Negative, Natural::zero());
    assert_eq!(zero.sign(), Sign::Positive);
    assert_eq!(zero, Integer::from(Natural::zero()));
    let a = Integer::new(Sign::Negative, Natural::from(12));
    let b = Integer::new(Sign::Positive, Natural::from(12));
    assert_eq!((&a + &b).sign(), Sign::Positive);
    assert_eq!((&a - &a).sign(), Sign::Positive);
    assert_eq!((&a * &zero).sign(), Sign::Positive);
    assert_eq!((&zero / &a).sign(), Sign::Positive);
    assert_eq!(Integer::from_string("-0").sign(), Sign::Positive);
    assert_eq!(Integer::from_string("-").sign(), Sign::Positive);
}

#[test]
fn integer_division_rounds_toward_zero() {
    let seven = Integer::new(Sign::Positive, Natural::from(7));
    let minus_seven = Integer::new(Sign::Negative, Natural::from(7));
    let two = Integer::new(Sign::Positive, Natural::from(2));
    let minus_two = Integer::new(Sign::Negative, Natural::from(2));
    assert_eq!(&seven / &two, Integer::new(Sign::Positive, Natural::from(3)));
    assert_eq!(&minus_seven / &two, Integer::new(Sign::Negative, Natural::from(3)));
    assert_eq!(&seven / &minus_two, Integer::new(Sign::Negative, Natural::from(3)));
    assert_eq!(&minus_seven / &minus_two, Integer::new(Sign::Positive, Natural::from(3)));
    assert_eq!(two.div(&seven), Integer::from(Natural::zero()));
    assert_eq!(minus_seven.magnitude(), &Natural::from(7));
}

#[test]
fn integer_arithmetic_agrees_with_native_arithmetic() {
    let values: [i64; 7] = [0, 1, -1, 17, -17, 3000000000, -3000000000];
    let make = |v: i64| {
        Integer::new(
            if v < 0 { Sign::Negative } else { Sign::Positive },
            Natural::from(v.unsigned_abs()),
        )
    };
    for x in values {
        for y in values {
            assert_eq!(make(x).add(&make(y)), make(x + y));
            assert_eq!(make(x).sub(&make(y)), make(x - y));
            assert_eq!(make(x).mul(&make(y)), make(x * y));
            if y != 0 {
                assert_eq!(make(x).div(&make(y)), make(x / y));
            }
        }
    }
}

#[test]
fn integer_text() {
    assert_eq!(Integer::from_string("--5"), Integer::from(Natural::from(5)));
    assert_eq!(
        Integer::from_string(" - 12"),
        Integer::new(Sign::Negative, Natural::from(12))
    );
    assert_eq!(Integer::from_string(""), Integer::from(Natural::zero()));
    assert_eq!(Integer::from_string("x-y7"), Integer::new(Sign::Negative, Natural::from(7)));
    assert_eq!(Integer::from(Natural::zero()).to_string(), "");
    assert_eq!(
        Integer::new(Sign::Negative, Natural::from(vec![0, 1])).to_string(),
        "-18446744073709551616"
    );
}

#[test]
fn operators_on_naturals() {
    let a = Natural::from(vec![u64::MAX, 3]);
    let b = Natural::from(vec![1]);
    assert_eq!(&a + &b, Natural::from(vec![0, 4]));
    assert_eq!(&a * &b, a);
}
