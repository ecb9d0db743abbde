//! The mathematical model of a limb sequence and the facts the kernels rest on.
use vstd::prelude::*;

verus! {

/// The radix of the representation: one more than the largest limb.
pub open spec fn base() -> nat {
    0x1_0000_0000_0000_0000
}

/// `base()` raised to the power `n`.
pub open spec fn pow_base(n: nat) -> nat
    decreases n,
{
    if n == 0 {
        1
    } else {
        base() * pow_base((n - 1) as nat)
    }
}

/// The number that a little-endian limb sequence stands for:
/// the sum of `s[i] * base()^i`.
pub open spec fn limbs_value(s: Seq<u64>) -> nat
    decreases s.len(),
{
    if s.len() == 0 {
        0
    } else {
        limbs_value(s.drop_last()) + (s.last() as nat) * pow_base((s.len() - 1) as nat)
    }
}

/// A sequence is canonical when its most significant limb is not zero.
/// The empty sequence is the canonical zero.
pub open spec fn canonical(s: Seq<u64>) -> bool {
    s.len() > 0 ==> s.last() != 0
}

/// What a carry or borrow flag counts for: one if set, zero if not.
pub open spec fn flag(c: bool) -> nat {
    if c {
        1
    } else {
        0
    }
}

/// A sequence of `n` zero limbs.
pub open spec fn zeros(n: nat) -> Seq<u64> {
    Seq::new(n, |i: int| 0u64)
}

/// The limb at position `i`, reading zero past the end.
pub open spec fn limb_or_zero(s: Seq<u64>, i: int) -> u64 {
    if 0 <= i < s.len() {
        s[i]
    } else {
        0
    }
}

/// The lowest `n` limbs of `s`.
pub open spec fn prefix(s: Seq<u64>, n: usize) -> Seq<u64> {
    s.take(n as int)
}

/// `l` is the number of limbs of `s` up to and including the most
/// significant one that is not zero.
pub open spec fn significant_length(s: Seq<u64>, l: usize) -> bool {
    &&& l <= s.len()
    &&& l > 0 ==> s[l - 1] != 0
    &&& forall|i: int| l <= i < s.len() ==> s[i] == 0
}

/// The lowest `n` limbs of `s`, or all of `s` where it has fewer.
pub open spec fn low_limbs(s: Seq<u64>, n: nat) -> Seq<u64> {
    if n < s.len() {
        s.take(n as int)
    } else {
        s
    }
}

/// A power of the base is at least one.
pub proof fn lemma_pow_base_positive(n: nat)
    ensures
        pow_base(n) >= 1,
    decreases n,
{
    if n > 0 {
        lemma_pow_base_positive((n - 1) as nat);
        assert(base() * pow_base((n - 1) as nat) >= 1) by (nonlinear_arith)
            requires
                pow_base((n - 1) as nat) >= 1,
                base() >= 1,
        ;
    }
}

/// Exponents add where powers of the base are multiplied.
pub proof fn lemma_pow_base_add(a: nat, b: nat)
    ensures
        pow_base(a + b) == pow_base(a) * pow_base(b),
    decreases a,
{
    if a == 0 {
        assert(pow_base(a) * pow_base(b) == pow_base(b)) by (nonlinear_arith)
            requires
                pow_base(a) == 1,
        ;
    } else {
        lemma_pow_base_add((a - 1) as nat, b);
        let x = pow_base((a - 1) as nat);
        let y = pow_base(b);
        assert(base() * (x * y) == (base() * x) * y) by (nonlinear_arith);
    }
}

/// A greater exponent gives a power of the base that is no smaller.
pub proof fn lemma_pow_base_monotonic(a: nat, b: nat)
    requires
        a <= b,
    ensures
        pow_base(a) <= pow_base(b),
{
    lemma_pow_base_add(a, (b - a) as nat);
    lemma_pow_base_positive((b - a) as nat);
    lemma_pow_base_positive(a);
    assert(pow_base(a) * pow_base((b - a) as nat) >= pow_base(a)) by (nonlinear_arith)
        requires
            pow_base((b - a) as nat) >= 1,
    ;
}

/// Putting a limb on top adds it at its place.
pub proof fn lemma_value_push(s: Seq<u64>, x: u64)
    ensures
        limbs_value(s.push(x)) == limbs_value(s) + (x as nat) * pow_base(s.len()),
{
    assert(s.push(x).drop_last() =~= s);
}

/// A single limb stands for itself.
pub proof fn lemma_value_single(x: u64)
    ensures
        limbs_value(seq![x]) == x,
{
    assert(limbs_value(seq![x].drop_last()) == 0);
    assert((x as nat) * pow_base(0) == x) by (nonlinear_arith)
        requires
            pow_base(0) == 1,
    ;
}

/// A sequence of `n` limbs stands for a number below `base()^n`.
pub proof fn lemma_value_bound(s: Seq<u64>)
    ensures
        limbs_value(s) < pow_base(s.len()),
    decreases s.len(),
{
    if s.len() > 0 {
        lemma_value_bound(s.drop_last());
        let p = pow_base((s.len() - 1) as nat);
        let x = s.last() as nat;
        assert(x * p + p <= base() * p) by (nonlinear_arith)
            requires
                x + 1 <= base(),
        ;
    }
}

/// A sequence whose top limb is not zero stands for a number of at least
/// `base()^(len - 1)`.
pub proof fn lemma_value_lower_bound(s: Seq<u64>)
    requires
        s.len() > 0,
        s.last() != 0,
    ensures
        limbs_value(s) >= pow_base((s.len() - 1) as nat),
{
    let p = pow_base((s.len() - 1) as nat);
    let x = s.last() as nat;
    assert(x * p >= p) by (nonlinear_arith)
        requires
            x >= 1,
    ;
}

/// The value of a concatenation: the high part counts `base()^len(low)` times.
pub proof fn lemma_value_concat(a: Seq<u64>, b: Seq<u64>)
    ensures
        limbs_value(a + b) == limbs_value(a) + pow_base(a.len()) * limbs_value(b),
    decreases b.len(),
{
    if b.len() == 0 {
        assert(pow_base(a.len()) * limbs_value(b) == 0) by (nonlinear_arith)
            requires
                limbs_value(b) == 0,
        ;
    } else {
        let bl = b.drop_last();
        assert((a + b).drop_last() =~= a + bl);
        lemma_value_concat(a, bl);
        lemma_pow_base_add(a.len(), bl.len());
        let pa = pow_base(a.len());
        let pb = pow_base(bl.len());
        let x = b.last() as nat;
        let vb = limbs_value(bl);
        assert(pa * (vb + x * pb) == pa * vb + x * (pa * pb)) by (nonlinear_arith);
    }
}

/// Putting a limb in front: the rest counts `base()` times.
pub proof fn lemma_value_prepend(x: u64, s: Seq<u64>)
    ensures
        limbs_value(seq![x] + s) == x + base() * limbs_value(s),
{
    lemma_value_concat(seq![x], s);
    lemma_value_single(x);
    assert(pow_base(1) == base());
}

/// Splitting a sequence at `k`.
pub proof fn lemma_value_split(s: Seq<u64>, k: int)
    requires
        0 <= k <= s.len(),
    ensures
        limbs_value(s) == limbs_value(s.take(k)) + pow_base(k as nat) * limbs_value(s.skip(k)),
{
    assert(s =~= s.take(k) + s.skip(k));
    lemma_value_concat(s.take(k), s.skip(k));
}

/// Zero limbs stand for zero.
pub proof fn lemma_value_zeros(n: nat)
    ensures
        limbs_value(zeros(n)) == 0,
    decreases n,
{
    if n > 0 {
        assert(zeros(n).drop_last() =~= zeros((n - 1) as nat));
        lemma_value_zeros((n - 1) as nat);
        assert((zeros(n).last() as nat) * pow_base((n - 1) as nat) == 0) by (nonlinear_arith)
            requires
                zeros(n).last() == 0,
        ;
    }
}

/// Dropping a zero limb from the top leaves the value unchanged.
pub proof fn lemma_value_drop_top_zero(s: Seq<u64>)
    requires
        s.len() > 0,
        s.last() == 0,
    ensures
        limbs_value(s.drop_last()) == limbs_value(s),
{
    assert((s.last() as nat) * pow_base((s.len() - 1) as nat) == 0) by (nonlinear_arith)
        requires
            s.last() == 0,
    ;
}

/// Dropping any number of zero limbs from the top leaves the value unchanged.
pub proof fn lemma_value_take_zeros(s: Seq<u64>, k: int)
    requires
        0 <= k <= s.len(),
        forall|i: int| k <= i < s.len() ==> s[i] == 0,
    ensures
        limbs_value(s.take(k)) == limbs_value(s),
    decreases s.len() - k,
{
    if k < s.len() {
        lemma_value_drop_top_zero(s);
        assert(s.drop_last().take(k) =~= s.take(k));
        lemma_value_take_zeros(s.drop_last(), k);
    } else {
        assert(s.take(k) =~= s);
    }
}

/// Two sequences of one length that stand for one number are the same.
pub proof fn lemma_same_length_unique(a: Seq<u64>, b: Seq<u64>)
    requires
        a.len() == b.len(),
        limbs_value(a) == limbs_value(b),
    ensures
        a == b,
    decreases a.len(),
{
    if a.len() > 0 {
        let p = pow_base((a.len() - 1) as nat);
        let x = a.last() as nat;
        let y = b.last() as nat;
        let u = limbs_value(a.drop_last());
        let v = limbs_value(b.drop_last());
        lemma_value_bound(a.drop_last());
        lemma_value_bound(b.drop_last());
        assert(x == y) by (nonlinear_arith)
            requires
                u + x * p == v + y * p,
                u < p,
                v < p,
        ;
        lemma_same_length_unique(a.drop_last(), b.drop_last());
        assert(a =~= a.drop_last().push(a.last()));
    }
}

/// A canonical sequence that stands for a number below `base()^e` has at
/// most `e` limbs.
pub proof fn lemma_canonical_length(s: Seq<u64>, e: nat)
    requires
        canonical(s),
        limbs_value(s) < pow_base(e),
    ensures
        s.len() <= e,
{
    if s.len() > e {
        lemma_value_lower_bound(s);
        lemma_pow_base_monotonic(e, (s.len() - 1) as nat);
    }
}

/// Every number has exactly one canonical representation.
pub proof fn lemma_canonical_unique(a: Seq<u64>, b: Seq<u64>)
    requires
        canonical(a),
        canonical(b),
        limbs_value(a) == limbs_value(b),
    ensures
        a == b,
{
    lemma_value_bound(a);
    lemma_value_bound(b);
    lemma_canonical_length(a, b.len());
    lemma_canonical_length(b, a.len());
    lemma_same_length_unique(a, b);
}

/// Only the empty sequence is a canonical zero.
pub proof fn lemma_canonical_zero(s: Seq<u64>)
    requires
        canonical(s),
    ensures
        limbs_value(s) == 0 <==> s.len() == 0,
{
    if s.len() > 0 {
        lemma_value_lower_bound(s);
        lemma_pow_base_positive((s.len() - 1) as nat);
    }
}

/// The significant prefix of a sequence is canonical and stands for the
/// same number.
pub proof fn lemma_significant_prefix(s: Seq<u64>, l: usize)
    requires
        significant_length(s, l),
    ensures
        canonical(prefix(s, l)),
        limbs_value(prefix(s, l)) == limbs_value(s),
{
    lemma_value_take_zeros(s, l as int);
}

/// Of two numbers, the one with more significant limbs is the greater.
pub proof fn lemma_longer_is_greater(a: Seq<u64>, la: usize, b: Seq<u64>, lb: usize)
    requires
        significant_length(a, la),
        significant_length(b, lb),
        la < lb,
    ensures
        limbs_value(a) < limbs_value(b),
{
    lemma_significant_prefix(a, la);
    lemma_significant_prefix(b, lb);
    lemma_value_bound(prefix(a, la));
    lemma_value_lower_bound(prefix(b, lb));
    lemma_pow_base_monotonic(la as nat, (lb - 1) as nat);
}

/// Of two sequences of one length that agree above position `i`, the one
/// with the smaller limb at `i` stands for the smaller number.
pub proof fn lemma_first_difference(a: Seq<u64>, b: Seq<u64>, i: int)
    requires
        a.len() == b.len(),
        0 <= i < a.len(),
        a[i] < b[i],
        forall|k: int| i < k < a.len() ==> a[k] == b[k],
    ensures
        limbs_value(a) < limbs_value(b),
{
    lemma_value_split(a, i);
    lemma_value_split(b, i);
    lemma_value_bound(a.take(i));
    let ha = a.skip(i);
    let hb = b.skip(i);
    assert(ha =~= seq![a[i]] + a.skip(i + 1));
    assert(hb =~= seq![b[i]] + b.skip(i + 1));
    assert(a.skip(i + 1) =~= b.skip(i + 1));
    lemma_value_prepend(a[i], a.skip(i + 1));
    lemma_value_prepend(b[i], b.skip(i + 1));
    let p = pow_base(i as nat);
    let va = limbs_value(ha);
    let vb = limbs_value(hb);
    assert(p * va + p <= p * vb) by (nonlinear_arith)
        requires
            va + 1 <= vb,
    ;
}

/// Taking one more low limb adds that limb at its place, and nothing once
/// the sequence is exhausted.
pub proof fn lemma_low_limbs_value(s: Seq<u64>, i: nat)
    ensures
        i < s.len() ==> limbs_value(low_limbs(s, i + 1)) == limbs_value(s.take(i as int + 1)),
        i < s.len() ==> low_limbs(s, i + 1) == s.take(i as int + 1),
        i >= s.len() ==> low_limbs(s, i + 1) == s && limbs_value(s.push(0)) == limbs_value(s),
{
    if i < s.len() {
        assert(s.take(s.len() as int) =~= s);
    } else {
        assert(s.push(0).drop_last() =~= s);
        lemma_value_drop_top_zero(s.push(0));
    }
}

/// A number that is at most the value of `n` limbs lies wholly in its
/// lowest `n` limbs.
pub proof fn lemma_low_limbs_of_smaller(s: Seq<u64>, t: Seq<u64>)
    requires
        limbs_value(s) <= limbs_value(t),
    ensures
        limbs_value(low_limbs(s, t.len())) == limbs_value(s),
{
    let n = t.len() as int;
    if n < s.len() {
        lemma_value_split(s, n);
        lemma_value_bound(t);
        let p = pow_base(n as nat);
        let h = limbs_value(s.skip(n));
        if h > 0 {
            assert(p * h >= p) by (nonlinear_arith)
                requires
                    h >= 1,
            ;
        }
        assert(p * h == 0) by (nonlinear_arith)
            requires
                h == 0,
        ;
    }
}

} // verus!
