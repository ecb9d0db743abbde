//! The laws of arithmetic that the operations on naturals obey.
//!
//! Each operation returns the well-formed natural whose value its
//! contract names.  A number has exactly one well-formed representation,
//! so two results with the same value are the same, limb for limb.  The
//! laws below are stated of such results: `x` is any value that a call may
//! return under its contract.
use vstd::prelude::*;
use crate::natural::Natural;
use crate::limbs::lemma_canonical_unique;
use crate::decimal::{all_digits, decimal_digits, decimal_value, lemma_decimal_digits_are_digits,
    lemma_decimal_round_trip};
use crate::algorithms::division::is_division;

verus! {

/// Two well-formed naturals that stand for the same number have the same
/// limbs.
pub proof fn lemma_unique_representation(x: Natural, y: Natural)
    requires
        x.wf(),
        y.wf(),
        x@ == y@,
    ensures
        x.limbs() == y.limbs(),
{
    lemma_canonical_unique(x.limbs(), y.limbs());
}

/// Addition is commutative: the sums `a + b` and `b + a` are the same.
pub proof fn lemma_add_commutative(a: Natural, b: Natural, x: Natural, y: Natural)
    requires
        x.wf() && x@ == a@ + b@,
        y.wf() && y@ == b@ + a@,
    ensures
        x@ == y@,
        x.limbs() == y.limbs(),
{
    lemma_unique_representation(x, y);
}

/// Addition is associative: `(a + b) + c` and `a + (b + c)` are the same.
/// Here `ab` is the sum `a + b` and `bc` the sum `b + c`.
pub proof fn lemma_add_associative(
    a: Natural,
    b: Natural,
    c: Natural,
    ab: Natural,
    bc: Natural,
    x: Natural,
    y: Natural,
)
    requires
        ab@ == a@ + b@,
        bc@ == b@ + c@,
        x.wf() && x@ == ab@ + c@,
        y.wf() && y@ == a@ + bc@,
    ensures
        x@ == y@,
        x.limbs() == y.limbs(),
{
    lemma_unique_representation(x, y);
}

/// Multiplication is commutative: the products `a * b` and `b * a` are
/// the same.
pub proof fn lemma_mul_commutative(a: Natural, b: Natural, x: Natural, y: Natural)
    requires
        x.wf() && x@ == a@ * b@,
        y.wf() && y@ == b@ * a@,
    ensures
        x@ == y@,
        x.limbs() == y.limbs(),
{
    lemma_unique_representation(x, y);
}

/// Multiplication is associative: `(a * b) * c` and `a * (b * c)` are the
/// same.  Here `ab` is the product `a * b` and `bc` the product `b * c`.
pub proof fn lemma_mul_associative(
    a: Natural,
    b: Natural,
    c: Natural,
    ab: Natural,
    bc: Natural,
    x: Natural,
    y: Natural,
)
    requires
        ab@ == a@ * b@,
        bc@ == b@ * c@,
        x.wf() && x@ == ab@ * c@,
        y.wf() && y@ == a@ * bc@,
    ensures
        x@ == y@,
        x.limbs() == y.limbs(),
{
    assert((a@ * b@) * c@ == a@ * (b@ * c@)) by (nonlinear_arith);
    lemma_unique_representation(x, y);
}

/// Zero is the identity of addition: `a + 0` is `a`.
pub proof fn lemma_add_zero(a: Natural, zero: Natural, x: Natural)
    requires
        a.wf(),
        zero@ == 0,
        x.wf() && x@ == a@ + zero@,
    ensures
        x@ == a@,
        x.limbs() == a.limbs(),
{
    lemma_unique_representation(x, a);
}

/// One is the identity of multiplication: `a * 1` is `a`.
pub proof fn lemma_mul_one(a: Natural, one: Natural, x: Natural)
    requires
        a.wf(),
        one@ == 1,
        x.wf() && x@ == a@ * one@,
    ensures
        x@ == a@,
        x.limbs() == a.limbs(),
{
    lemma_unique_representation(x, a);
}

/// Zero annihilates: `a * 0` is zero, which has no limbs.
pub proof fn lemma_mul_zero(a: Natural, zero: Natural, x: Natural)
    requires
        zero@ == 0,
        x.wf() && x@ == a@ * zero@,
    ensures
        x@ == 0,
        x.limbs() == Seq::<u64>::empty(),
{
    crate::limbs::lemma_canonical_zero(x.limbs());
}

/// Division: a quotient `q` and a remainder `r` of `a` by `b`, as `div`
/// returns them, satisfy `a == q * b + r` and `r < b`, and no other pair
/// of numbers does.
pub proof fn lemma_division_unique(a: nat, b: nat, q: nat, r: nat, q2: nat, r2: nat)
    requires
        is_division(a, b, q, r),
        is_division(a, b, q2, r2),
    ensures
        a == q * b + r,
        r < b,
        q == q2,
        r == r2,
        q == a / b,
        r == a % b,
{
    vstd::arithmetic::div_mod::lemma_fundamental_div_mod_converse(
        a as int,
        b as int,
        q as int,
        r as int,
    );
    vstd::arithmetic::div_mod::lemma_fundamental_div_mod_converse(
        a as int,
        b as int,
        q2 as int,
        r2 as int,
    );
}

/// Subtraction undoes addition: for `a >= b`, the difference `d = a - b`
/// added to `b` gives `a` back.
pub proof fn lemma_sub_then_add(a: Natural, b: Natural, d: Natural, x: Natural)
    requires
        a.wf(),
        a@ >= b@,
        d@ == a@ - b@,
        x.wf() && x@ == d@ + b@,
    ensures
        x@ == a@,
        x.limbs() == a.limbs(),
{
    lemma_unique_representation(x, a);
}

/// Text round trip: the decimal text of `a` is made of digits only, and a
/// natural `x` read from it is `a`.
pub proof fn lemma_text_round_trip(a: Natural, x: Natural)
    requires
        a.wf(),
        x.wf() && x@ == decimal_value(decimal_digits(a@)),
    ensures
        all_digits(decimal_digits(a@)),
        x@ == a@,
        x.limbs() == a.limbs(),
{
    lemma_decimal_digits_are_digits(a@);
    lemma_decimal_round_trip(a@);
    lemma_unique_representation(x, a);
}

} // verus!
