//! Schoolbook multiplication of limb sequences.
use vstd::prelude::*;
use crate::limbs::{base, pow_base, limbs_value, zeros, lemma_value_push, lemma_value_concat,
    lemma_value_zeros, lemma_value_bound, lemma_pow_base_positive};
use crate::limbs::lemma_value_split;
use crate::algorithms::addition::add_with_carry;
use crate::algorithms::subtraction::sub_slice;
use crate::algorithms::util::shl_mut_vec;
use vstd::slice::slice_subrange;

verus! {

/// The double-width product of two limbs, as its low and its high limb.
pub fn mul_with_carry(digita: u64, digitb: u64) -> (r: (u64, u64))
    ensures
        r.0 + r.1 * base() == digita * digitb,
        r.1 < u64::MAX,
{
    assert(digita * digitb <= 0xFFFF_FFFF_FFFF_FFFE_0000_0000_0000_0001) by (nonlinear_arith)
        requires
            digita <= 0xFFFF_FFFF_FFFF_FFFF,
            digitb <= 0xFFFF_FFFF_FFFF_FFFF,
    ;
    let result: u128 = (digita as u128) * (digitb as u128);
    assert(result & 0xFFFF_FFFF_FFFF_FFFF == result % 0x1_0000_0000_0000_0000) by (bit_vector);
    assert(result >> 64 == result / 0x1_0000_0000_0000_0000) by (bit_vector);
    let low: u64 = (result & 0xFFFF_FFFF_FFFF_FFFF) as u64;
    let high: u64 = (result >> 64) as u64;
    (low, high)
}

/// The number of limbs of `digits * digit` shifted up by `significance` limbs.
pub open spec fn product_len(digits: Seq<u64>, digit: u64, significance: u64) -> nat {
    if limbs_value(digits) * digit >= pow_base(digits.len()) {
        significance as nat + digits.len() + 1
    } else {
        significance as nat + digits.len()
    }
}

/// One step of multiplying by a limb: appending the limb `cur`, got from
/// `x * digit + msd` with the new carry limb `next`.
proof fn lemma_mul_step(done: Seq<u64>, prod: Seq<u64>, x: u64, digit: u64, msd: u64, cur: u64, next: u64)
    requires
        prod.len() == done.len(),
        limbs_value(prod) + msd * pow_base(done.len()) == limbs_value(done) * digit,
        cur + next * base() == x * digit + msd,
    ensures
        limbs_value(prod.push(cur)) + next * pow_base(done.len() + 1) == limbs_value(done.push(x))
            * digit,
{
    let p = pow_base(done.len());
    lemma_value_push(prod, cur);
    lemma_value_push(done, x);
    let v = limbs_value(done);
    assert(cur * p + next * (base() * p) == (x * p) * digit + msd * p) by (nonlinear_arith)
        requires
            cur + next * base() == x * digit + msd,
    ;
    assert((v + x * p) * digit == v * digit + (x * p) * digit) by (nonlinear_arith);
}

/// Multiplies a limb sequence by one limb and by `base()^significance`:
/// `significance` zero limbs, then the limbs of the product, with a top
/// limb for the last carry where there is one.
pub fn mul_by_single_digit(digits: &[u64], digit: u64, significance: u64) -> (r: Vec<u64>)
    requires
        significance <= usize::MAX,
    ensures
        limbs_value(r@) == limbs_value(digits@) * digit * pow_base(significance as nat),
        r@.len() == product_len(digits@, digit, significance),
{
    let mut result: Vec<u64> = vec![0u64; significance as usize];
    let ghost mut prod: Seq<u64> = Seq::empty();
    let mut msd: u64 = 0;
    let mut i: usize = 0;
    proof {
        assert(limbs_value(digits@.take(0)) * digit == 0) by (nonlinear_arith)
            requires
                limbs_value(digits@.take(0)) == 0,
        ;
        assert(msd * pow_base(0) == 0) by (nonlinear_arith)
            requires
                msd == 0,
        ;
    }
    while i < digits.len()
        invariant
            i <= digits@.len(),
            prod.len() == i,
            result@ == zeros(significance as nat) + prod,
            limbs_value(prod) + msd * pow_base(i as nat) == limbs_value(digits@.take(i as int))
                * digit,
        decreases digits@.len() - i,
    {
        let (lsd, high) = mul_with_carry(digits[i], digit);
        let (current_digit, carry) = add_with_carry(lsd, msd, false);
        let next: u64 = if carry {
            high + 1
        } else {
            high
        };
        proof {
            assert(digits@.take(i as int + 1) =~= digits@.take(i as int).push(digits@[i as int]));
            assert(current_digit + next * base() == digits@[i as int] * digit + msd) by (nonlinear_arith)
                requires
                    lsd + high * base() == digits@[i as int] * digit,
                    current_digit + crate::limbs::flag(carry) * base() == lsd + msd
                        + crate::limbs::flag(false),
                    next == high + crate::limbs::flag(carry),
            ;
            lemma_mul_step(digits@.take(i as int), prod, digits@[i as int], digit, msd, current_digit, next);
            assert((zeros(significance as nat) + prod).push(current_digit) =~= zeros(
                significance as nat,
            ) + prod.push(current_digit));
            prod = prod.push(current_digit);
        }
        result.push(current_digit);
        msd = next;
        i += 1;
    }
    proof {
        assert(digits@.take(i as int) =~= digits@);
        lemma_value_bound(prod);
        lemma_pow_base_positive(i as nat);
        let p = pow_base(i as nat);
        assert(msd > 0 ==> msd * p >= p) by (nonlinear_arith);
    }
    if msd > 0 {
        proof {
            lemma_value_push(prod, msd);
            assert((zeros(significance as nat) + prod).push(msd) =~= zeros(significance as nat)
                + prod.push(msd));
            prod = prod.push(msd);
        }
        result.push(msd);
    }
    proof {
        lemma_value_concat(zeros(significance as nat), prod);
        lemma_value_zeros(significance as nat);
        let v = limbs_value(digits@) * digit;
        assert(pow_base(significance as nat) * v == v * pow_base(significance as nat))
            by (nonlinear_arith);
    }
    result
}

/// The number of limbs of the schoolbook product of `a` and `b`: none for
/// an empty `a`, else one less than the limbs of both together, and one
/// more where the product does not fit in those.
pub open spec fn product_length(a: Seq<u64>, b: Seq<u64>) -> nat {
    if a.len() == 0 {
        0
    } else if limbs_value(a) * limbs_value(b) >= pow_base((a.len() - 1 + b.len()) as nat) {
        a.len() + b.len()
    } else {
        (a.len() + b.len() - 1) as nat
    }
}

/// Adding the partial product for the limb `x` at position `i` to the
/// product of the limbs below it gives as many limbs as the product of
/// the limbs up to `i` has.
proof fn lemma_product_length_step(done: Seq<u64>, x: u64, b: Seq<u64>, partial: Seq<u64>, acc: Seq<u64>)
    requires
        done.len() <= u64::MAX,
        acc.len() == product_length(done, b),
        limbs_value(acc) == limbs_value(done) * limbs_value(b),
        partial.len() == product_len(b, x, done.len() as u64),
        limbs_value(partial) == limbs_value(b) * x * pow_base(done.len()),
    ensures
        crate::algorithms::addition::sum_len(partial, acc) == product_length(done.push(x), b),
        limbs_value(partial) + limbs_value(acc) == limbs_value(done.push(x)) * limbs_value(b),
{
    let i = done.len();
    let lb = b.len();
    let vb = limbs_value(b);
    let va = limbs_value(done);
    let p = pow_base(i);
    lemma_value_push(done, x);
    lemma_value_bound(done.push(x));
    lemma_value_bound(b);
    crate::limbs::lemma_pow_base_add(i, lb);
    crate::limbs::lemma_pow_base_add(i + 1, lb);
    lemma_pow_base_positive(i);
    let total = limbs_value(done.push(x)) * vb;
    assert(total == vb * x * p + va * vb) by (nonlinear_arith)
        requires
            total == (va + x * p) * vb,
    ;
    assert(total < pow_base(i + 1) * pow_base(lb)) by (nonlinear_arith)
        requires
            total == limbs_value(done.push(x)) * vb,
            limbs_value(done.push(x)) < pow_base(i + 1),
            vb < pow_base(lb),
    ;
    if vb * x >= pow_base(lb) {
        assert(vb * x * p >= pow_base(lb) * p) by (nonlinear_arith)
            requires
                vb * x >= pow_base(lb),
                p >= 0,
        ;
    }
}

/// The product of two limb sequences, by the schoolbook method: each limb
/// of `a` multiplies the whole of `b`, shifted to the limb's place, and
/// the partial products are summed.
pub fn mul(a: &[u64], b: &[u64]) -> (r: Vec<u64>)
    ensures
        limbs_value(r@) == limbs_value(a@) * limbs_value(b@),
        r@.len() == product_length(a@, b@),
{
    let mut accumulator: Vec<u64> = Vec::new();
    let mut i: usize = 0;
    proof {
        assert(limbs_value(a@.take(0)) * limbs_value(b@) == 0) by (nonlinear_arith)
            requires
                limbs_value(a@.take(0)) == 0,
        ;
    }
    while i < a.len()
        invariant
            i <= a@.len(),
            limbs_value(accumulator@) == limbs_value(a@.take(i as int)) * limbs_value(b@),
            accumulator@.len() == product_length(a@.take(i as int), b@),
        decreases a@.len() - i,
    {
        let result = mul_by_single_digit(b, a[i], i as u64);
        proof {
            assert(a@.take(i as int + 1) =~= a@.take(i as int).push(a@[i as int]));
            lemma_product_length_step(a@.take(i as int), a@[i as int], b@, result@, accumulator@);
        }
        accumulator = crate::algorithms::addition::add(&result, &accumulator);
        i += 1;
    }
    proof {
        assert(a@.take(i as int) =~= a@);
    }
    accumulator
}

/// Operands with more limbs than this are split; shorter ones are
/// multiplied by the schoolbook method.
pub const KARATSUBA_THRESHOLD: usize = 16;

/// The recombination of the three products of a split multiplication.
///
/// With `x = x0 + x1 * s` and `y = y0 + y1 * s`, the product `x * y` is
/// `z0 + z1 * s + z2 * s * s`, where `z0 = x0 * y0`, `z2 = x1 * y1` and
/// the cross term `z1` is `(x0 + x1) * (y0 + y1) - z2 - z0`.
proof fn lemma_karatsuba(x0: nat, x1: nat, y0: nat, y1: nat, s: nat, z0: nat, z2: nat, z: nat)
    requires
        z0 == x0 * y0,
        z2 == x1 * y1,
        z == (x0 + x1) * (y0 + y1),
    ensures
        z >= z2,
        z - z2 >= z0,
        (x0 + s * x1) * (y0 + s * y1) == z2 * (s * s) + (z - z2 - z0) * s + z0,
{
    assert(z == x0 * y0 + x0 * y1 + x1 * y0 + x1 * y1) by (nonlinear_arith)
        requires
            z == (x0 + x1) * (y0 + y1),
    ;
    assert((x0 + s * x1) * (y0 + s * y1) == (x1 * y1) * (s * s) + (x0 * y1 + x1 * y0) * s + x0
        * y0) by (nonlinear_arith);
}

/// The product of two limb sequences by divide and conquer.
///
/// Where both operands have more than `KARATSUBA_THRESHOLD` limbs, each
/// is split at half the length of the shorter; three products of the
/// halves are computed in the same way and recombined by shifted
/// addition and subtraction, and the result is canonical.  Shorter
/// operands go to [`mul`], which gives as many limbs as `product_length`
/// says.
pub fn karatsuba(a: &[u64], b: &[u64]) -> (r: Vec<u64>)
    ensures
        limbs_value(r@) == limbs_value(a@) * limbs_value(b@),
        if a@.len() <= KARATSUBA_THRESHOLD || b@.len() <= KARATSUBA_THRESHOLD {
            r@.len() == product_length(a@, b@)
        } else {
            crate::limbs::canonical(r@)
        },
    decreases a@.len() + b@.len(),
{
    let n = if a.len() < b.len() {
        a.len()
    } else {
        b.len()
    };
    if n > KARATSUBA_THRESHOLD {
        let half = n / 2;
        let x_0 = slice_subrange(a, 0, half);
        let x_1 = slice_subrange(a, half, a.len());
        let y_0 = slice_subrange(b, 0, half);
        let y_1 = slice_subrange(b, half, b.len());
        proof {
            lemma_value_split(a@, half as int);
            lemma_value_split(b@, half as int);
        }
        let mut z_2 = karatsuba(x_1, y_1);
        let z_0 = karatsuba(x_0, y_0);
        let x_sum = crate::algorithms::addition::add(x_0, x_1);
        let y_sum = crate::algorithms::addition::add(y_0, y_1);
        let z = karatsuba(&x_sum, &y_sum);
        proof {
            lemma_karatsuba(
                limbs_value(x_0@),
                limbs_value(x_1@),
                limbs_value(y_0@),
                limbs_value(y_1@),
                pow_base(half as nat),
                limbs_value(z_0@),
                limbs_value(z_2@),
                limbs_value(z@),
            );
            crate::algorithms::subtraction::lemma_difference_exact(z@, z_2@);
        }
        let without_high = sub_slice(&z, &z_2);
        proof {
            crate::algorithms::subtraction::lemma_difference_exact(without_high@, z_0@);
        }
        let mut z_1 = sub_slice(&without_high, &z_0);
        shl_mut_vec(&mut z_2, half);
        shl_mut_vec(&mut z_2, half);
        shl_mut_vec(&mut z_1, half);
        let upper = crate::algorithms::addition::add(&z_2, &z_1);
        proof {
            let s = pow_base(half as nat);
            assert(limbs_value(x_1@) * limbs_value(y_1@) * s * s == (limbs_value(x_1@)
                * limbs_value(y_1@)) * (s * s)) by (nonlinear_arith);
        }
        let mut result = crate::algorithms::addition::add(&upper, &z_0);
        crate::algorithms::subtraction::normalize_vec(&mut result);
        result
    } else {
        self::mul(a, b)
    }
}

} // verus!
