//! Long division of naturals, with a normalised divisor, quotient limbs
//! estimated from the top two limbs of the remainder, and correction.
use vstd::prelude::*;
use vstd::arithmetic::power2::{pow2, lemma_pow2_adds, lemma_pow2_pos, lemma2_to64, lemma2_to64_rest};
use vstd::arithmetic::div_mod::{lemma_fundamental_div_mod, lemma_fundamental_div_mod_converse};
use vstd::bits::{lemma_u64_shl_is_mul, lemma_u64_pow2_no_overflow};
use crate::limbs::{base, pow_base, limbs_value, canonical, limb_or_zero, lemma_value_bound,
    lemma_value_prepend, lemma_value_split, lemma_value_single, lemma_canonical_length,
    lemma_pow_base_add, lemma_pow_base_positive, lemma_pow_base_monotonic, lemma_value_lower_bound};
use crate::natural::Natural;
use crate::integer::{Sign, signed};
use crate::division_result::DivisionResult;
use crate::algorithms::multiplication::mul_by_single_digit;
use crate::algorithms::subtraction::{sub_signed, sub_slice_assign, normalize_vec, lemma_difference_exact};
use crate::algorithms::util::shl;
use crate::algorithms::comparison::digit_length;
use crate::limbs::{prefix, lemma_significant_prefix};

verus! {

/// The quotient of the two-limb number `p_1 * base() + p_0` by the limb
/// `q_0`, capped at the largest limb.
pub open spec fn short_quotient(p_1: u64, p_0: u64, q_0: u64) -> nat {
    let d = (p_1 * base() + p_0) / (q_0 as int);
    if d >= base() {
        (base() - 1) as nat
    } else {
        d as nat
    }
}

/// Divides a two-limb number by one limb; the quotient is capped at the
/// largest limb where it would not fit in one.
pub fn short_div(p_1: u64, p_0: u64, q_0: u64) -> (r: u64)
    requires
        q_0 != 0,
    ensures
        r == short_quotient(p_1, p_0, q_0),
{
    let high: u128 = p_1 as u128;
    let low: u128 = p_0 as u128;
    assert(((high << 64) | low) == high * 0x1_0000_0000_0000_0000 + low) by (bit_vector)
        requires
            high <= 0xFFFF_FFFF_FFFF_FFFF,
            low <= 0xFFFF_FFFF_FFFF_FFFF,
    ;
    let p: u128 = (high << 64) | low;
    let q: u128 = q_0 as u128;
    let d = p / q;
    assert((d >> 64 != 0) == (d >= 0x1_0000_0000_0000_0000)) by (bit_vector);
    if d >> 64 != 0 {
        u64::MAX
    } else {
        d as u64
    }
}

/// `n` shifted left by `k` bits: `n` times two to the power `k`.
pub fn mul_by_2_to_power_k(n: &Natural, k: u32) -> (r: Natural)
    requires
        k < 64,
    ensures
        r.wf(),
        r@ == n@ * pow2(k as nat),
{
    proof {
        lemma_u64_pow2_no_overflow(k as nat);
        lemma_u64_shl_is_mul(1, k as u64);
        assert(pow_base(0) == 1);
    }
    let factor: u64 = 1u64 << (k as u64);
    Natural::from(mul_by_single_digit(&n.digits, factor, 0))
}

/// `n` shifted right by `k` bits: the quotient of `n` by two to the power
/// `k`, rounded down.
pub fn div_by_2_to_power_k(n: &Natural, k: u32) -> (r: Natural)
    requires
        k < 64,
    ensures
        r.wf(),
        r@ == n@ / pow2(k as nat),
{
    if k == 0 {
        proof {
            lemma2_to64();
        }
        let mut same = n.clone();
        normalize(&mut same);
        return same;
    }
    proof {
        lemma_u64_pow2_no_overflow(k as nat);
        lemma_u64_pow2_no_overflow((64 - k) as nat);
        lemma_u64_shl_is_mul(1, k as u64);
        lemma_u64_shl_is_mul(1, (64 - k) as u64);
        lemma_pow2_adds(k as nat, (64 - k) as nat);
        lemma2_to64_rest();
    }
    // Two to the power k, and what it lacks to make a whole limb.
    let low_size: u64 = 1u64 << (k as u64);
    let high_size: u64 = 1u64 << ((64 - k) as u64);
    let len = n.digits.len();
    let mut new_digits = DivisionResult::new(len);
    let mut carry: u64 = 0;
    let mut i: usize = len;
    proof {
        assert(0 * low_size == 0) by (nonlinear_arith);
    }
    while i > 0
        invariant
            i <= len,
            len == n.limbs().len(),
            low_size == pow2(k as nat),
            high_size == pow2((64 - k) as nat),
            low_size * high_size == base(),
            new_digits.wf(),
            new_digits.capacity() == len,
            new_digits.filled().len() == len - i,
            carry < low_size,
            new_digits.value() * low_size + carry == limbs_value(n.limbs().skip(i as int)),
        decreases i,
    {
        i -= 1;
        let digit = n.digits[i];
        assert(digit / low_size + carry * high_size < base() && carry * high_size <= u64::MAX
            && (digit / low_size + carry * high_size) * low_size + digit % low_size == carry
            * base() + digit) by (nonlinear_arith)
            requires
                carry < low_size,
                low_size > 0,
                low_size * high_size == base(),
                digit < base(),
                base() == 0x1_0000_0000_0000_0000,
        ;
        let out: u64 = digit / low_size + carry * high_size;
        proof {
            assert(n.limbs().skip(i as int) =~= seq![digit] + n.limbs().skip(i as int + 1));
            lemma_value_prepend(digit, n.limbs().skip(i as int + 1));
            let f = new_digits.value();
            let t = limbs_value(n.limbs().skip(i as int + 1));
            assert((out + base() * f) * low_size + digit % low_size == digit + base() * t)
                by (nonlinear_arith)
                requires
                    out * low_size + digit % low_size == carry * base() + digit,
                    f * low_size + carry == t,
            ;
        }
        new_digits.push(out);
        carry = digit % low_size;
    }
    proof {
        assert(n.limbs().skip(0) =~= n.limbs());
        lemma_fundamental_div_mod_converse(
            n@ as int,
            low_size as int,
            new_digits.value() as int,
            carry as int,
        );
    }
    new_digits.into_natural()
}

/// Strips the zero limbs from the top of `n`, leaving it well-formed.
pub fn normalize(n: &mut Natural)
    ensures
        final(n).wf(),
        final(n)@ == old(n)@,
        old(n).wf() ==> final(n).limbs() == old(n).limbs(),
{
    normalize_vec(&mut n.digits);
}

/// A divisor is normalised when the highest bit of its top limb is set:
/// twice its value reaches `base()` to the power of its length.
pub open spec fn is_normalised(q: Natural) -> bool {
    &&& q.wf()
    &&& q.limbs().len() > 0
    &&& 2 * q@ >= pow_base(q.limbs().len())
}

/// `quotient` and `remainder` are those of `p` divided by `q`.
pub open spec fn is_division(p: nat, q: nat, quotient: nat, remainder: nat) -> bool {
    &&& p == quotient * q + remainder
    &&& remainder < q
}

/// A canonical number below `base()^(k + 2)` lies between its top two
/// limbs, read at the positions `k + 1` and `k`, times `base()^k`, and
/// the same with one more.
proof fn lemma_top_two_limbs(a: Seq<u64>, k: nat)
    requires
        canonical(a),
        limbs_value(a) < pow_base(k + 2),
    ensures
        (limb_or_zero(a, k as int + 1) * base() + limb_or_zero(a, k as int)) * pow_base(k)
            <= limbs_value(a),
        limbs_value(a) < (limb_or_zero(a, k as int + 1) * base() + limb_or_zero(a, k as int) + 1)
            * pow_base(k),
{
    let hi = limb_or_zero(a, k as int + 1);
    let lo = limb_or_zero(a, k as int);
    let p = pow_base(k);
    lemma_canonical_length(a, k + 2);
    lemma_pow_base_positive(k);
    if a.len() <= k {
        lemma_value_bound(a);
        lemma_pow_base_monotonic(a.len(), k);
        assert((hi * base() + lo + 1) * p >= p && (hi * base() + lo) * p == 0) by (nonlinear_arith)
            requires
                hi == 0,
                lo == 0,
                p >= 0,
        ;
    } else {
        lemma_value_split(a, k as int);
        lemma_value_bound(a.take(k as int));
        let top = a.skip(k as int);
        if a.len() == k + 1 {
            assert(top =~= seq![lo]);
            lemma_value_single(lo);
        } else {
            assert(top =~= seq![lo] + seq![hi]);
            lemma_value_prepend(lo, seq![hi]);
            lemma_value_single(hi);
        }
        let t = limbs_value(top);
        assert(t == hi * base() + lo) by (nonlinear_arith)
            requires
                (t == lo && hi == 0) || t == lo + base() * hi,
        ;
        assert(p * t + p == (t + 1) * p && p * t == t * p) by (nonlinear_arith);
    }
}

/// The estimate of a quotient limb is never too small.
///
/// Let the remainder `a` be below `q * base()^(j + 1)`, and let `est` be
/// the capped quotient of its top two limbs, at the positions `n + j` and
/// `n + j - 1`, by the top limb of the `n`-limb divisor `q`.  Then `a` is
/// below `(est + 1) * q * base()^j`.
proof fn lemma_quotient_estimate(a: Seq<u64>, q: Seq<u64>, j: nat, est: nat)
    requires
        canonical(a),
        q.len() > 0,
        q.last() != 0,
        limbs_value(a) < limbs_value(q) * pow_base(j + 1),
        est == short_quotient(
            limb_or_zero(a, q.len() as int + j),
            limb_or_zero(a, q.len() + j - 1),
            q.last(),
        ),
    ensures
        limbs_value(a) < (est + 1) * (limbs_value(q) * pow_base(j)),
{
    let n = q.len();
    let k = (n + j - 1) as nat;
    let big_q = limbs_value(q);
    let d = big_q * pow_base(j);
    let qt = q.last() as nat;
    let p = pow_base(k);
    let hi = limb_or_zero(a, n as int + j);
    let lo = limb_or_zero(a, n + j - 1);
    let top2 = hi * base() + lo;
    assert(big_q * pow_base(j + 1) == d * base()) by (nonlinear_arith)
        requires
            pow_base(j + 1) == base() * pow_base(j),
            d == big_q * pow_base(j),
    ;
    if est + 1 == base() {
        assert((est + 1) * d == d * base()) by (nonlinear_arith)
            requires
                est + 1 == base(),
        ;
    } else {
        // The divisor is at least its top limb at its place.
        lemma_value_bound(q);
        lemma_pow_base_add(n, j + 1);
        lemma_pow_base_positive(j + 1);
        assert(big_q * pow_base(j + 1) <= pow_base(n) * pow_base(j + 1)) by (nonlinear_arith)
            requires
                big_q <= pow_base(n),
        ;
        lemma_top_two_limbs(a, k);
        assert(big_q >= qt * pow_base((n - 1) as nat));
        lemma_pow_base_add((n - 1) as nat, j);
        assert(d >= qt * p) by (nonlinear_arith)
            requires
                d == big_q * pow_base(j),
                big_q >= qt * pow_base((n - 1) as nat),
                p == pow_base((n - 1) as nat) * pow_base(j),
        ;
        // The estimate is the quotient of the top two limbs by the top limb.
        let quot = top2 as int / qt as int;
        lemma_fundamental_div_mod(top2 as int, qt as int);
        assert(top2 + 1 <= (est + 1) * qt) by (nonlinear_arith)
            requires
                top2 == qt * quot + (top2 as int % qt as int),
                0 <= (top2 as int % qt as int) < qt,
                est == quot,
        ;
        assert((top2 + 1) * p <= (est + 1) * d) by (nonlinear_arith)
            requires
                top2 + 1 <= (est + 1) * qt,
                d >= qt * p,
                p >= 0,
        ;
    }
}

/// With a normalised divisor the estimate of a quotient limb is too large
/// by two at most.
///
/// Under the conditions of `lemma_quotient_estimate`, and for a divisor
/// whose top limb has its highest bit set, the remainder `a` is at least
/// `(est - 2) * q * base()^j`.
proof fn lemma_estimate_is_close(a: Seq<u64>, q: Natural, j: nat, est: nat)
    requires
        canonical(a),
        is_normalised(q),
        limbs_value(a) < q@ * pow_base(j + 1),
        est == short_quotient(
            limb_or_zero(a, q.limbs().len() as int + j),
            limb_or_zero(a, q.limbs().len() as int + j - 1),
            q.limbs().last(),
        ),
    ensures
        est >= 2 ==> (est - 2) * (q@ * pow_base(j)) <= limbs_value(a),
{
    let n = q.limbs().len();
    let k = (n + j - 1) as nat;
    let big_q = q@;
    let d = big_q * pow_base(j);
    let qt = q.limbs().last() as nat;
    let p = pow_base(k);
    let low = pow_base((n - 1) as nat);
    let hi = limb_or_zero(a, n as int + j);
    let lo = limb_or_zero(a, n as int + j - 1);
    let top2 = hi * base() + lo;
    if est >= 2 {
        // The remainder has at most k + 2 limbs, so its top two limbs bound it.
        lemma_value_bound(q.limbs());
        lemma_pow_base_add(n, j + 1);
        lemma_pow_base_positive(j + 1);
        assert(big_q * pow_base(j + 1) <= pow_base(n) * pow_base(j + 1)) by (nonlinear_arith)
            requires
                big_q <= pow_base(n),
        ;
        lemma_top_two_limbs(a, k);
        // The divisor is below its top limb plus one, at its place; and
        // twice the top limb, plus two, is above the base.
        lemma_value_bound(q.limbs().drop_last());
        lemma_pow_base_positive((n - 1) as nat);
        lemma_pow_base_positive(j);
        assert(2 * qt + 2 > base()) by (nonlinear_arith)
            requires
                2 * big_q >= base() * low,
                big_q < qt * low + low,
                low > 0,
        ;
        lemma_pow_base_add((n - 1) as nat, j);
        assert(d <= qt * p + p) by (nonlinear_arith)
            requires
                d == big_q * pow_base(j),
                big_q <= qt * low + low,
                p == low * pow_base(j),
                pow_base(j) > 0,
        ;
        // The estimate times the top limb is at most the top two limbs.
        lemma_pow_base_positive(k);
        let quot = top2 as int / qt as int;
        lemma_fundamental_div_mod(top2 as int, qt as int);
        assert(est * qt <= top2) by (nonlinear_arith)
            requires
                top2 == qt * quot + (top2 as int % qt as int),
                0 <= (top2 as int % qt as int),
                est <= quot,
                qt > 0,
        ;
        assert((est - 2) * d <= top2 * p) by (nonlinear_arith)
            requires
                est * qt <= top2,
                d <= qt * p + p,
                est <= 2 * qt + 2,
                est >= 2,
                p > 0,
        ;
    }
}

/// The first trial of a long division: with a normalised divisor the top
/// quotient limb is 0 or 1.
proof fn lemma_top_limb_is_bit(p: Seq<u64>, q: Natural, m: nat)
    requires
        is_normalised(q),
        p.len() == q.limbs().len() + m,
    ensures
        limbs_value(p) < 2 * (q@ * pow_base(m)),
{
    let n = q.limbs().len();
    lemma_value_bound(p);
    lemma_pow_base_add(n, m);
    lemma_pow_base_positive(m);
    assert(pow_base(n) * pow_base(m) <= 2 * (q@ * pow_base(m))) by (nonlinear_arith)
        requires
            2 * q@ >= pow_base(n),
    ;
}

/// One position of the long division is done: the quotient takes the limb
/// `q_j` below its limbs so far, and the remainder drops below the
/// divisor at that position.
proof fn lemma_division_step(p: nat, quot: nat, d: nat, a0: nat, q_j: nat, a1: nat)
    requires
        p == quot * (d * base()) + a0,
        a1 == a0 - q_j * d,
    ensures
        p == (q_j + base() * quot) * d + a1,
{
    assert(quot * (d * base()) + q_j * d == (q_j + base() * quot) * d) by (nonlinear_arith);
}

/// Long division by a normalised divisor.
///
/// The quotient is built from its most significant limb down.  The top
/// limb is 1 where the remainder reaches the divisor shifted to that
/// position, else 0.  Each further limb is estimated from the top two
/// limbs of the remainder and the top limb of the divisor; the estimate is
/// never too small, and is lowered by one for as long as subtracting it
/// leaves a negative remainder, which happens twice at most.
pub fn div_normalised(p: &Natural, q: &Natural) -> (r: (Natural, Natural))
    requires
        is_normalised(*q),
    ensures
        r.0.wf(),
        r.1.wf(),
        is_division(p@, q@, r.0@, r.1@),
{
    let mut a = p.clone();
    normalize(&mut a);
    let n = q.digits.len();
    proof {
        lemma_value_lower_bound(q.limbs());
        lemma_pow_base_positive((n - 1) as nat);
    }
    if n > a.digits.len() {
        proof {
            lemma_value_bound(a.limbs());
            lemma_pow_base_monotonic(a.limbs().len(), (n - 1) as nat);
        }
        (Natural::zero(), a)
    } else {
        let m = a.digits.len() - n;
        let mut digits = DivisionResult::new(m + 1);
        let first_candidate = shl(q, m);
        proof {
            lemma_top_limb_is_bit(a.limbs(), *q, m as nat);
        }
        if a.at_least(&first_candidate) {
            digits.push(1);
            proof {
                lemma_difference_exact(a.limbs(), first_candidate.limbs());
            }
            sub_slice_assign(&mut a.digits, &first_candidate.digits);
            normalize(&mut a);
            proof {
                let d = q@ * pow_base(m as nat);
                assert(1 * d == d) by (nonlinear_arith);
            }
        } else {
            digits.push(0);
            proof {
                let d = q@ * pow_base(m as nat);
                assert(0 * d == 0) by (nonlinear_arith);
            }
        }
        let mut j: usize = m;
        while j > 0
            invariant
                j <= m,
                n == q.limbs().len(),
                n + m <= usize::MAX,
                is_normalised(*q),
                a.wf(),
                digits.wf(),
                digits.capacity() == m + 1,
                digits.filled().len() == m + 1 - j,
                p@ == digits.value() * (q@ * pow_base(j as nat)) + a@,
                a@ < q@ * pow_base(j as nat),
            decreases j,
        {
            j -= 1;
            let ghost a0 = a@;
            let ghost d = q@ * pow_base(j as nat);
            let mut q_j = short_div(a.limb_at(n + j), a.limb_at(n + j - 1), q.digits[n - 1]);
            let ghost estimate = q_j;
            proof {
                lemma_quotient_estimate(a.limbs(), q.limbs(), j as nat, q_j as nat);
                lemma_estimate_is_close(a.limbs(), *q, j as nat, q_j as nat);
                assert(q@ * pow_base((j + 1) as nat) == d * base()) by (nonlinear_arith)
                    requires
                        pow_base((j + 1) as nat) == base() * pow_base(j as nat),
                        d == q@ * pow_base(j as nat),
                ;
                assert(q@ * q_j * pow_base(j as nat) == q_j * d) by (nonlinear_arith)
                    requires
                        d == q@ * pow_base(j as nat),
                ;
                assert((q_j + 1) * d == q_j * d + d) by (nonlinear_arith);
            }
            let subtrahend = Natural::from(mul_by_single_digit(&q.digits, q_j, j as u64));
            let (s, temp_a) = sub_signed(&a, &subtrahend);
            let mut sign = s;
            a = temp_a;
            // The number of times that the estimate has been lowered.
            let ghost mut corrections: nat = 0;
            while sign == Sign::Negative
                invariant
                    a.wf(),
                    q.wf(),
                    d == q@ * pow_base(j as nat),
                    signed(sign, a@) == a0 - q_j * d,
                    signed(sign, a@) < d,
                    sign == Sign::Negative ==> a@ > 0,
                    estimate >= 2 ==> (estimate - 2) * d <= a0,
                    corrections == estimate - q_j,
                    corrections <= 2,
                decreases q_j,
            {
                assert(q_j > 0 && (estimate >= 2 ==> q_j > estimate - 2)) by (nonlinear_arith)
                    requires
                        a0 - q_j * d < 0,
                        a0 >= 0,
                        d >= 0,
                        estimate >= 2 ==> (estimate - 2) * d <= a0,
                ;
                proof {
                    assert((q_j - 1) * d == q_j * d - d) by (nonlinear_arith);
                    corrections = corrections + 1;
                }
                q_j -= 1;
                let (s, temp_a) = sub_signed(&shl(q, j), &a);
                sign = s;
                a = temp_a;
            }
            proof {
                lemma_division_step(p@, digits.value(), d, a0, q_j as nat, a@);
            }
            digits.push(q_j);
        }
        proof {
            assert(q@ * 1 == q@) by (nonlinear_arith);
        }
        let mut quotient = digits.into_natural();
        normalize(&mut quotient);
        normalize(&mut a);
        (quotient, a)
    }
}

/// A limb that is not zero, shifted left by the number of its leading
/// zero bits, keeps all its bits and has its highest bit set.
proof fn lemma_normalising_shift(msd: u64, zeroes: u32)
    requires
        msd != 0,
        zeroes as int == vstd::std_specs::bits::u64_leading_zeros(msd),
    ensures
        zeroes < 64,
        2 * (msd * pow2(zeroes as nat)) >= base(),
        (msd + 1) * pow2(zeroes as nat) <= base(),
{
    vstd::std_specs::bits::axiom_u64_leading_zeros(msd);
    let z = zeroes as u64;
    let top: u64 = (63 - z) as u64;
    assert(msd >= (1u64 << top)) by (bit_vector)
        requires
            top < 64,
            (msd >> top) & 1u64 != 0u64,
    ;
    lemma_u64_pow2_no_overflow(top as nat);
    lemma_u64_shl_is_mul(1, top);
    lemma_pow2_adds(top as nat, z as nat);
    lemma_pow2_adds((top + 1) as nat, z as nat);
    lemma_pow2_adds(top as nat, 1);
    lemma2_to64();
    lemma2_to64_rest();
    let pz = pow2(z as nat);
    let pt = pow2(top as nat);
    assert(2 * (msd * pz) >= base()) by (nonlinear_arith)
        requires
            msd >= pt,
            pt * pz == 0x8000_0000_0000_0000,
            base() == 0x1_0000_0000_0000_0000,
    ;
    if z > 0 {
        let up: u64 = (64 - z) as u64;
        assert(msd < (1u64 << up)) by (bit_vector)
            requires
                0 < up < 64,
                msd >> up == 0,
        ;
        lemma_u64_pow2_no_overflow(up as nat);
        lemma_u64_shl_is_mul(1, up);
        let pu = pow2(up as nat);
        assert((msd + 1) * pz <= base()) by (nonlinear_arith)
            requires
                msd + 1 <= pu,
                pu * pz == base(),
        ;
    } else {
        assert((msd + 1) * pz <= base()) by (nonlinear_arith)
            requires
                msd + 1 <= base(),
                pz == 1,
        ;
    }
}

/// A canonical divisor scaled by the power of two that shifts the leading
/// zero bits out of its top limb is normalised.
proof fn lemma_scaled_is_normalised(q: Seq<u64>, scaled: Natural, w: nat)
    requires
        q.len() > 0,
        scaled.wf(),
        scaled@ == limbs_value(q) * w,
        2 * (q.last() * w) >= base(),
        (q.last() + 1) * w <= base(),
    ensures
        is_normalised(scaled),
        scaled.limbs().len() == q.len(),
{
    let n = q.len();
    let low = pow_base((n - 1) as nat);
    let t = q.last() as nat;
    let v = limbs_value(q);
    lemma_value_bound(q.drop_last());
    lemma_pow_base_positive((n - 1) as nat);
    assert(2 * (v * w) >= base() * low) by (nonlinear_arith)
        requires
            v >= t * low,
            2 * (t * w) >= base(),
            low >= 0,
            w >= 0,
    ;
    assert((t + 1) * low == t * low + low) by (nonlinear_arith);
    assert(v * w < base() * low) by (nonlinear_arith)
        requires
            v < (t + 1) * low,
            (t + 1) * w <= base(),
            low > 0,
            2 * (t * w) >= base(),
            base() > 0,
    ;
    lemma_canonical_length(scaled.limbs(), n);
    lemma_value_bound(scaled.limbs());
    if scaled.limbs().len() < n {
        lemma_pow_base_monotonic(scaled.limbs().len(), (n - 1) as nat);
    }
}

/// Scaling dividend and divisor by one factor leaves the quotient as it
/// is and scales the remainder.
proof fn lemma_scaled_division(p: nat, q: nat, w: nat, quot: nat, rem: nat)
    requires
        w > 0,
        is_division(p * w, q * w, quot, rem),
    ensures
        is_division(p, q, quot, rem / w),
{
    let r = p - quot * q;
    assert(rem == w * r) by (nonlinear_arith)
        requires
            p * w == quot * (q * w) + rem,
            r == p - quot * q,
    ;
    assert(r >= 0 && r < q) by (nonlinear_arith)
        requires
            rem == w * r,
            rem < q * w,
            rem >= 0,
            w > 0,
    ;
    vstd::arithmetic::div_mod::lemma_div_multiples_vanish(r, w as int);
}

/// The quotient and the remainder of `p` divided by `q`.
///
/// The divisor is first normalised: where its top limb has leading zero
/// bits, both numbers are shifted left by their number, which leaves the
/// quotient as it is; the remainder is shifted back at the end.
pub fn div(p: &Natural, q: &Natural) -> (r: (Natural, Natural))
    requires
        q@ != 0,
    ensures
        r.0.wf(),
        r.1.wf(),
        is_division(p@, q@, r.0@, r.1@),
        r.0@ == p@ / q@,
        r.1@ == p@ % q@,
{
    let len = digit_length(&q.digits);
    proof {
        lemma_significant_prefix(q.limbs(), len);
        crate::limbs::lemma_canonical_zero(prefix(q.limbs(), len));
    }
    let msd = q.digits[len - 1];
    let zeroes = msd.leading_zeros();
    proof {
        lemma_normalising_shift(msd, zeroes);
        lemma_pow2_pos(zeroes as nat);
    }
    if zeroes == 0 && len == q.digits.len() {
        // The divisor is normalised as it stands.
        proof {
            lemma2_to64();
            lemma_scaled_is_normalised(q.limbs(), *q, 1);
        }
        let (d, r) = div_normalised(p, q);
        proof {
            lemma_fundamental_div_mod_converse(p@ as int, q@ as int, d@ as int, r@ as int);
        }
        (d, r)
    } else {
        let new_p = mul_by_2_to_power_k(p, zeroes);
        let new_q = mul_by_2_to_power_k(q, zeroes);
        proof {
            lemma_scaled_is_normalised(prefix(q.limbs(), len), new_q, pow2(zeroes as nat));
        }
        let (d, r) = div_normalised(&new_p, &new_q);
        let rem = div_by_2_to_power_k(&r, zeroes);
        proof {
            lemma_scaled_division(p@, q@, pow2(zeroes as nat), d@, r@);
            lemma_fundamental_div_mod_converse(p@ as int, q@ as int, d@ as int, rem@ as int);
        }
        (d, rem)
    }
}

} // verus!
