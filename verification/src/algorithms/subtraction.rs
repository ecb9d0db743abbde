//! Subtraction of limb sequences with borrow.
use vstd::prelude::*;
use core::cmp::Ordering;
use crate::limbs::{base, pow_base, limbs_value, canonical, flag, low_limbs, lemma_value_push,
    lemma_value_drop_top_zero, lemma_value_bound, lemma_low_limbs_value};
use crate::algorithms::comparison::cmp_slice;
use crate::natural::Natural;
use crate::integer::Sign;

verus! {

/// Subtracts a limb and an incoming borrow from a limb; returns the low limb
/// of the difference and whether it borrowed from the next position.
pub fn sub_with_carry(digita: u64, digitb: u64, prev_carry: bool) -> (r: (u64, bool))
    ensures
        r.0 + digitb + flag(prev_carry) == digita + flag(r.1) * base(),
{
    let resultdigit = digita.wrapping_sub(digitb);
    let new_carry = digita < digitb;
    if prev_carry {
        // If taking the borrow wraps, the difference of the limbs was zero, so
        // it did not borrow itself; otherwise the first borrow stands.
        if resultdigit == 0 {
            (u64::MAX, true)
        } else {
            (resultdigit - 1, new_carry)
        }
    } else {
        (resultdigit, new_carry)
    }
}

/// What a subtraction over the limbs of `first` leaves: the difference
/// where `first` is at least `second`, and the difference wrapped around
/// `base()^len(first)` where it is not.
pub open spec fn wrapped_difference(first: Seq<u64>, second: Seq<u64>) -> int {
    let a = limbs_value(first);
    let b = limbs_value(low_limbs(second, first.len()));
    if a >= b {
        a - b
    } else {
        a - b + pow_base(first.len())
    }
}

/// One step of a borrowing subtraction: appending the limb `digit` with
/// borrow `c`, got from `x[i] - y - borrow`, keeps the running difference
/// in step.  Here `yt` is the part of the subtrahend that has been
/// consumed, ending in the limb `y`.
proof fn lemma_sub_step(
    x: Seq<u64>,
    yt: Seq<u64>,
    acc: Seq<u64>,
    i: int,
    y: u64,
    borrow: bool,
    digit: u64,
    c: bool,
)
    requires
        0 <= i < x.len(),
        acc.len() == i,
        yt.len() > 0,
        yt.last() == y,
        limbs_value(acc) + limbs_value(yt.drop_last()) == limbs_value(x.take(i)) + flag(borrow)
            * pow_base(i as nat),
        yt.len() == i + 1 || y == 0,
        digit + y + flag(borrow) == x[i] + flag(c) * base(),
    ensures
        limbs_value(acc.push(digit)) + limbs_value(yt) == limbs_value(x.take(i + 1)) + flag(c)
            * pow_base((i + 1) as nat),
{
    let p = pow_base(i as nat);
    lemma_value_push(acc, digit);
    assert(x.take(i + 1) =~= x.take(i).push(x[i]));
    lemma_value_push(x.take(i), x[i]);
    if yt.len() == i + 1 {
    } else {
        lemma_value_drop_top_zero(yt);
    }
    let ypart: nat = if yt.len() == i + 1 {
        (y as nat) * p
    } else {
        0
    };
    assert(ypart == (y as nat) * p) by (nonlinear_arith)
        requires
            ypart == (y as nat) * p || (ypart == 0 && y == 0),
    ;
    assert((digit as nat) * p + (y as nat) * p + flag(borrow) * p == (x[i] as nat) * p + flag(c) * (
    base() * p)) by (nonlinear_arith)
        requires
            digit + y + flag(borrow) == x[i] + flag(c) * base(),
    ;
}

/// The consumed part of the subtrahend after `i` steps, as
/// `lemma_sub_step` wants it for the step at `i`.
spec fn consumed(second: Seq<u64>, i: int) -> Seq<u64> {
    if i < second.len() {
        second.take(i + 1)
    } else {
        second.push(0)
    }
}

/// From the state after the last limb to the wrapped difference.
proof fn lemma_sub_done(first: Seq<u64>, second: Seq<u64>, res: Seq<u64>, borrow: bool)
    requires
        res.len() == first.len(),
        limbs_value(res) + limbs_value(low_limbs(second, first.len())) == limbs_value(first) + flag(
            borrow,
        ) * pow_base(first.len()),
    ensures
        limbs_value(res) == wrapped_difference(first, second),
{
    lemma_value_bound(res);
    lemma_value_bound(first);
    lemma_value_bound(low_limbs(second, first.len()));
    let p = pow_base(first.len());
    assert(flag(borrow) * p == if borrow {
        p
    } else {
        0
    }) by (nonlinear_arith);
}

/// Subtracts `second` from `first` in place, over the limbs of `first`.
///
/// Limbs of `second` beyond the length of `first` are not read.  Where
/// `first` is the smaller number the difference wraps around.
pub fn sub_slice_assign(first: &mut [u64], second: &[u64])
    ensures
        final(first)@.len() == old(first)@.len(),
        limbs_value(final(first)@) == wrapped_difference(old(first)@, second@),
{
    let ghost orig = first@;
    let mut carry: bool = false;
    let mut i: usize = 0;
    while i < first.len()
        invariant
            i <= orig.len(),
            first@.len() == orig.len(),
            first@.skip(i as int) == orig.skip(i as int),
            limbs_value(first@.take(i as int)) + limbs_value(low_limbs(second@, i as nat))
                == limbs_value(orig.take(i as int)) + flag(carry) * pow_base(i as nat),
        decreases orig.len() - i,
    {
        let other_digit = if i < second.len() {
            second[i]
        } else {
            0
        };
        let (digit, c) = sub_with_carry(first[i], other_digit, carry);
        proof {
            assert(first@[i as int] == first@.skip(i as int)[0]);
            let yt = consumed(second@, i as int);
            assert(yt.drop_last() =~= low_limbs(second@, i as nat));
            lemma_sub_step(orig, yt, first@.take(i as int), i as int, other_digit, carry, digit, c);
            lemma_low_limbs_value(second@, i as nat);
        }
        let ghost before = first@;
        carry = c;
        first[i] = digit;
        proof {
            assert(first@.take(i as int + 1) =~= before.take(i as int).push(digit));
            assert(first@.skip(i as int + 1) =~= before.skip(i as int).skip(1));
        }
        i += 1;
    }
    proof {
        assert(first@.take(i as int) =~= first@);
        assert(orig.take(i as int) =~= orig);
        lemma_sub_done(orig, second@, first@, carry);
    }
}

/// Strips the zero limbs from the top of `n`, leaving it canonical.
pub fn normalize_vec(n: &mut Vec<u64>)
    ensures
        canonical(final(n)@),
        limbs_value(final(n)@) == limbs_value(old(n)@),
        final(n)@.len() <= old(n)@.len(),
        final(n)@ == old(n)@.take(final(n)@.len() as int),
        canonical(old(n)@) ==> final(n)@ == old(n)@,
{
    let ghost orig = n@;
    while n.len() > 0 && n[n.len() - 1] == 0
        invariant
            n@.len() <= orig.len(),
            n@ == orig.take(n@.len() as int),
            limbs_value(n@) == limbs_value(orig),
            canonical(orig) ==> n@ == orig,
        decreases n@.len(),
    {
        proof {
            lemma_value_drop_top_zero(n@);
            if canonical(orig) {
            }
        }
        n.pop();
    }
}

/// The difference of two limb sequences in canonical form, computed over
/// the limbs of `first`.
///
/// Limbs of `second` beyond the length of `first` are not read.  Where
/// `first` is the smaller number the difference wraps around.
pub fn sub_slice(first: &[u64], second: &[u64]) -> (r: Vec<u64>)
    ensures
        canonical(r@),
        limbs_value(r@) == wrapped_difference(first@, second@),
{
    let mut carry: bool = false;
    let mut result: Vec<u64> = Vec::with_capacity(first.len());
    let mut i: usize = 0;
    while i < first.len()
        invariant
            i <= first@.len(),
            result@.len() == i,
            limbs_value(result@) + limbs_value(low_limbs(second@, i as nat)) == limbs_value(
                first@.take(i as int),
            ) + flag(carry) * pow_base(i as nat),
        decreases first@.len() - i,
    {
        let other_digit = if i < second.len() {
            second[i]
        } else {
            0
        };
        let (digit, c) = sub_with_carry(first[i], other_digit, carry);
        proof {
            let yt = consumed(second@, i as int);
            assert(yt.drop_last() =~= low_limbs(second@, i as nat));
            lemma_sub_step(first@, yt, result@, i as int, other_digit, carry, digit, c);
            lemma_low_limbs_value(second@, i as nat);
        }
        carry = c;
        result.push(digit);
        i += 1;
    }
    proof {
        assert(first@.take(i as int) =~= first@);
        lemma_sub_done(first@, second@, result@, carry);
    }
    normalize_vec(&mut result);
    result
}

/// Unsigned subtraction: the canonical difference where `first` is at
/// least `second`, and no value where it is smaller.
pub fn sub(first: &[u64], second: &[u64]) -> (r: Option<Vec<u64>>)
    ensures
        limbs_value(first@) < limbs_value(second@) <==> r.is_none(),
        r.is_some() ==> canonical(r.unwrap()@) && limbs_value(r.unwrap()@) + limbs_value(second@)
            == limbs_value(first@),
{
    match cmp_slice(first, second) {
        Ordering::Less => None,
        _ => {
            proof {
                lemma_difference_exact(first@, second@);
            }
            Some(sub_slice(first, second))
        },
    }
}

/// Where `first` is at least `second`, the limbs of `second` beyond the
/// length of `first` are all zero, and the wrapped difference is the
/// difference.
pub proof fn lemma_difference_exact(first: Seq<u64>, second: Seq<u64>)
    requires
        limbs_value(first) >= limbs_value(second),
    ensures
        wrapped_difference(first, second) == limbs_value(first) - limbs_value(second),
{
    crate::limbs::lemma_low_limbs_of_smaller(second, first);
}

/// Signed subtraction of two naturals: the sign and the magnitude of
/// `first - second`.  The difference zero is positive.
pub fn sub_signed(first: &Natural, second: &Natural) -> (r: (Sign, Natural))
    ensures
        r.1.wf(),
        first@ >= second@ ==> r.0 == Sign::Positive && r.1@ == first@ - second@,
        first@ < second@ ==> r.0 == Sign::Negative && r.1@ == second@ - first@,
{
    match cmp_slice(&first.digits, &second.digits) {
        Ordering::Greater => {
            proof {
                lemma_difference_exact(first.limbs(), second.limbs());
            }
            (Sign::Positive, Natural { digits: sub_slice(&first.digits, &second.digits) })
        },
        Ordering::Equal => (Sign::Positive, Natural { digits: Vec::new() }),
        Ordering::Less => {
            proof {
                lemma_difference_exact(second.limbs(), first.limbs());
            }
            (Sign::Negative, Natural { digits: sub_slice(&second.digits, &first.digits) })
        },
    }
}

} // verus!
