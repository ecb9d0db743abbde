//! Shifts by whole limbs.
use vstd::prelude::*;
use crate::limbs::{pow_base, limbs_value, zeros, lemma_value_concat, lemma_value_zeros};
use crate::algorithms::subtraction::normalize_vec;
use crate::natural::Natural;

verus! {

/// Puts `n` zero limbs below the limbs of `v`: a multiplication by
/// `base()^n`.
pub fn shl_mut_vec(v: &mut Vec<u64>, n: usize)
    ensures
        final(v)@ == zeros(n as nat) + old(v)@,
        limbs_value(final(v)@) == limbs_value(old(v)@) * pow_base(n as nat),
{
    let ghost orig = v@;
    let mut shifted: Vec<u64> = vec![0u64; n];
    shifted.extend_from_slice(v.as_slice());
    proof {
        assert(shifted@ =~= zeros(n as nat) + orig);
    }
    *v = shifted;
    proof {
        lemma_value_concat(zeros(n as nat), orig);
        lemma_value_zeros(n as nat);
        assert(pow_base(n as nat) * limbs_value(orig) == limbs_value(orig) * pow_base(n as nat))
            by (nonlinear_arith);
    }
}

/// Multiplies `p` by `base()^n` in place.
pub fn shl_mut(p: &mut Natural, n: usize)
    ensures
        final(p).wf(),
        final(p)@ == old(p)@ * pow_base(n as nat),
{
    shl_mut_vec(&mut p.digits, n);
    // Zero has no limbs, however far it is shifted.
    normalize_vec(&mut p.digits);
}

/// `p` multiplied by `base()^n`.
pub fn shl(p: &Natural, n: usize) -> (q: Natural)
    ensures
        q.wf(),
        q@ == p@ * pow_base(n as nat),
{
    let mut q = p.clone();
    shl_mut(&mut q, n);
    q
}

} // verus!
