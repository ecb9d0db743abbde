//! Addition of limb sequences, allocating and in place.
use vstd::prelude::*;
use crate::limbs::{base, pow_base, limbs_value, canonical, flag, lemma_value_bound,
    lemma_value_push, lemma_value_lower_bound, lemma_value_drop_top_zero, lemma_pow_base_positive};

verus! {

/// Adds two limbs and an incoming carry; returns the low limb of the sum
/// and whether it carried out.
pub fn add_with_carry(digita: u64, digitb: u64, prev_carry: bool) -> (r: (u64, bool))
    ensures
        r.0 + flag(r.1) * base() == digita + digitb + flag(prev_carry),
{
    let resultdigit = digita.wrapping_add(digitb);
    let new_carry = resultdigit < digita;
    if new_carry {
        // The first sum wrapped, so it is at most MAX - 1: adding the carry cannot wrap again.
        if prev_carry {
            (resultdigit + 1, true)
        } else {
            (resultdigit, true)
        }
    } else if prev_carry {
        let with_carry = resultdigit.wrapping_add(1);
        (with_carry, with_carry == 0)
    } else {
        (resultdigit, false)
    }
}

/// The sum of two limb sequences, in a freshly allocated vector.
///
/// The result has as many limbs as the longer operand, and one more when
/// the sum does not fit in them.
pub fn add(a: &[u64], b: &[u64]) -> (r: Vec<u64>)
    ensures
        limbs_value(r@) == limbs_value(a@) + limbs_value(b@),
        r@.len() == sum_len(a@, b@),
        canonical(a@) && canonical(b@) ==> canonical(r@),
{
    // Order the operands so that the first is the one with more limbs.
    if a.len() < b.len() {
        _add(b, a)
    } else {
        _add(a, b)
    }
}

/// The number of limbs of the sum of `a` and `b`: the length of the longer,
/// and one more if the sum carries out of it.
pub open spec fn sum_len(a: Seq<u64>, b: Seq<u64>) -> nat {
    let longer = if a.len() < b.len() {
        b.len()
    } else {
        a.len()
    };
    if limbs_value(a) + limbs_value(b) >= pow_base(longer) {
        longer + 1
    } else {
        longer
    }
}

/// Adds `b` to the longer sequence `a`, allocating a new vector for the result.
pub fn _add(a: &[u64], b: &[u64]) -> (r: Vec<u64>)
    requires
        a@.len() >= b@.len(),
    ensures
        limbs_value(r@) == limbs_value(a@) + limbs_value(b@),
        r@.len() == sum_len(a@, b@),
        canonical(a@) && canonical(b@) ==> canonical(r@),
{
    let mut result: Vec<u64> = Vec::with_capacity(a.len());
    let mut carry = false;
    let mut i: usize = 0;
    // Add the limbs of the second number to the first.
    while i < b.len()
        invariant
            i <= b@.len() <= a@.len(),
            result@.len() == i,
            limbs_value(result@) + flag(carry) * pow_base(i as nat) == limbs_value(a@.take(i as int))
                + limbs_value(b@.take(i as int)),
        decreases b@.len() - i,
    {
        let (digit, c) = add_with_carry(a[i], b[i], carry);
        proof {
            assert(b@.take(i as int + 1).drop_last() =~= b@.take(i as int));
            lemma_add_step(a@, b@.take(i as int + 1), result@, i as int, b@[i as int], carry, digit, c);
        }
        carry = c;
        result.push(digit);
        i += 1;
    }
    proof {
        assert(b@.take(i as int) =~= b@);
    }
    // Propagate the carry through the remaining limbs of the first.
    while i < a.len()
        invariant
            b@.len() <= i <= a@.len(),
            result@.len() == i,
            limbs_value(result@) + flag(carry) * pow_base(i as nat) == limbs_value(a@.take(i as int))
                + limbs_value(b@),
        decreases a@.len() - i,
    {
        let (digit, c) = add_with_carry(a[i], 0, carry);
        proof {
            assert(b@.push(0).drop_last() =~= b@);
            lemma_add_step(a@, b@.push(0), result@, i as int, 0, carry, digit, c);
        }
        carry = c;
        result.push(digit);
        i += 1;
    }
    proof {
        assert(a@.take(i as int) =~= a@);
        lemma_value_bound(result@);
        lemma_pow_base_positive(i as nat);
        assert(flag(carry) * pow_base(i as nat) == if carry {
            pow_base(i as nat)
        } else {
            0
        }) by (nonlinear_arith);
    }
    if carry {
        proof {
            lemma_value_push(result@, 1);
        }
        result.push(1);
    } else {
        proof {
            if canonical(a@) && a@.len() > 0 {
                lemma_value_lower_bound(a@);
                if result@.last() == 0 {
                    lemma_value_drop_top_zero(result@);
                    lemma_value_bound(result@.drop_last());
                }
            }
        }
    }
    result
}

/// One step of a carrying addition: appending the limb `digit` with carry
/// `c`, got from `x[i] + y + carry`, keeps the running sum in step.
/// Here `yt` is the part of the second operand that has been consumed,
/// ending in the limb `y`.
proof fn lemma_add_step(
    x: Seq<u64>,
    yt: Seq<u64>,
    acc: Seq<u64>,
    i: int,
    y: u64,
    carry: bool,
    digit: u64,
    c: bool,
)
    requires
        0 <= i < x.len(),
        acc.len() == i,
        yt.len() > 0,
        yt.last() == y,
        limbs_value(acc) + flag(carry) * pow_base(i as nat) == limbs_value(x.take(i)) + limbs_value(
            yt.drop_last(),
        ),
        yt.len() == i + 1 || y == 0,
        digit + flag(c) * base() == x[i] + y + flag(carry),
    ensures
        limbs_value(acc.push(digit)) + flag(c) * pow_base((i + 1) as nat) == limbs_value(
            x.take(i + 1),
        ) + limbs_value(yt),
{
    let p = pow_base(i as nat);
    lemma_value_push(acc, digit);
    assert(x.take(i + 1) =~= x.take(i).push(x[i]));
    lemma_value_push(x.take(i), x[i]);
    if yt.len() == i + 1 {
    } else {
        lemma_value_drop_top_zero(yt);
    }
    let ypart: nat = if yt.len() == i + 1 {
        (y as nat) * p
    } else {
        0
    };
    assert(ypart == (y as nat) * p) by (nonlinear_arith)
        requires
            ypart == (y as nat) * p || (ypart == 0 && y == 0),
    ;
    assert((digit as nat) * p + flag(c) * (base() * p) == (x[i] as nat) * p + (y as nat) * p + flag(
        carry,
    ) * p) by (nonlinear_arith)
        requires
            digit + flag(c) * base() == x[i] + y + flag(carry),
    ;
}

/// Adds `b` into `a` in place and returns the carry out of `a`'s top limb.
///
/// `a` must have at least as many limbs as `b`; a caller that needs the
/// full sum appends a limb 1 when the carry is set.
pub fn add_mut(a: &mut [u64], b: &[u64]) -> (carry: bool)
    requires
        old(a)@.len() >= b@.len(),
    ensures
        final(a)@.len() == old(a)@.len(),
        limbs_value(final(a)@) + flag(carry) * pow_base(old(a)@.len()) == limbs_value(old(a)@)
            + limbs_value(b@),
{
    let ghost orig = a@;
    let mut carry = false;
    let mut i: usize = 0;
    while i < b.len()
        invariant
            i <= b@.len() <= orig.len(),
            a@.len() == orig.len(),
            a@.skip(i as int) == orig.skip(i as int),
            limbs_value(a@.take(i as int)) + flag(carry) * pow_base(i as nat) == limbs_value(
                orig.take(i as int),
            ) + limbs_value(b@.take(i as int)),
        decreases b@.len() - i,
    {
        let (digit, c) = add_with_carry(a[i], b[i], carry);
        proof {
            assert(a@[i as int] == a@.skip(i as int)[0]);
            assert(b@.take(i as int + 1).drop_last() =~= b@.take(i as int));
            lemma_add_step(orig, b@.take(i as int + 1), a@.take(i as int), i as int, b@[i as int], carry, digit, c);
        }
        let ghost before = a@;
        carry = c;
        a[i] = digit;
        proof {
            assert(a@.take(i as int + 1) =~= before.take(i as int).push(digit));
            assert(a@.skip(i as int + 1) =~= before.skip(i as int).skip(1));
        }
        i += 1;
    }
    proof {
        assert(b@.take(i as int) =~= b@);
    }
    while i < a.len()
        invariant
            b@.len() <= i <= orig.len(),
            a@.len() == orig.len(),
            a@.skip(i as int) == orig.skip(i as int),
            limbs_value(a@.take(i as int)) + flag(carry) * pow_base(i as nat) == limbs_value(
                orig.take(i as int),
            ) + limbs_value(b@),
        decreases orig.len() - i,
    {
        let (digit, c) = add_with_carry(a[i], 0, carry);
        proof {
            assert(a@[i as int] == a@.skip(i as int)[0]);
            assert(b@.push(0).drop_last() =~= b@);
            lemma_add_step(orig, b@.push(0), a@.take(i as int), i as int, 0, carry, digit, c);
        }
        let ghost before = a@;
        carry = c;
        a[i] = digit;
        proof {
            assert(a@.take(i as int + 1) =~= before.take(i as int).push(digit));
            assert(a@.skip(i as int + 1) =~= before.skip(i as int).skip(1));
        }
        i += 1;
    }
    proof {
        assert(a@.take(i as int) =~= a@);
        assert(orig.take(i as int) =~= orig);
    }
    carry
}

} // verus!
