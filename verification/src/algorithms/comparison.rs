//! The total order on limb sequences.
use vstd::prelude::*;
use core::cmp::Ordering;
use crate::limbs::{limbs_value, prefix, significant_length, lemma_longer_is_greater,
    lemma_significant_prefix};

verus! {

/// The number of limbs up to and including the most significant one that is
/// not zero.
pub fn digit_length(digits: &[u64]) -> (l: usize)
    ensures
        significant_length(digits@, l),
{
    let mut l = digits.len();
    while l > 0 && digits[l - 1] == 0
        invariant
            l <= digits@.len(),
            forall|i: int| l <= i < digits@.len() ==> digits@[i] == 0,
        decreases l,
    {
        l -= 1;
    }
    l
}

/// How the top-down scan of two equally long prefixes ended: whether the
/// first differing limb was smaller, or greater, in the first sequence.
/// Both are false when the prefixes are the same.
pub struct Difference {
    pub less: bool,
    pub greater: bool,
}

/// Scans the lowest `len` limbs of both sequences from the most significant
/// one downward; the first limb that differs decides.
pub fn first_difference(first: &[u64], second: &[u64], len: usize) -> (d: Difference)
    requires
        len <= first@.len(),
        len <= second@.len(),
    ensures
        d.less <==> limbs_value(prefix(first@, len)) < limbs_value(prefix(second@, len)),
        d.greater <==> limbs_value(prefix(first@, len)) > limbs_value(prefix(second@, len)),
{
    let mut i = len;
    while i > 0
        invariant
            i <= len,
            len <= first@.len(),
            len <= second@.len(),
            forall|k: int| i <= k < len ==> first@[k] == second@[k],
        decreases i,
    {
        i -= 1;
        if first[i] > second[i] {
            proof {
                crate::limbs::lemma_first_difference(second@.take(len as int), first@.take(len as int), i as int);
            }
            return Difference { less: false, greater: true };
        } else if first[i] < second[i] {
            proof {
                crate::limbs::lemma_first_difference(first@.take(len as int), second@.take(len as int), i as int);
            }
            return Difference { less: true, greater: false };
        }
    }
    proof {
        assert(first@.take(len as int) =~= second@.take(len as int));
    }
    Difference { less: false, greater: false }
}

/// Compares the numbers that two little-endian limb sequences stand for.
///
/// The sequence with more significant limbs is the greater; between two
/// of the same length, the most significant limb that differs decides.
/// Zero limbs at the top are not counted, so the operands need not be
/// canonical.
pub fn cmp_slice(first: &[u64], second: &[u64]) -> (r: Ordering)
    ensures
        match r {
            Ordering::Less => limbs_value(first@) < limbs_value(second@),
            Ordering::Equal => limbs_value(first@) == limbs_value(second@),
            Ordering::Greater => limbs_value(first@) > limbs_value(second@),
        },
{
    let first_len = digit_length(first);
    let second_len = digit_length(second);
    proof {
        lemma_significant_prefix(first@, first_len);
        lemma_significant_prefix(second@, second_len);
    }
    if first_len > second_len {
        proof {
            lemma_longer_is_greater(second@, second_len, first@, first_len);
        }
        Ordering::Greater
    } else if first_len < second_len {
        proof {
            lemma_longer_is_greater(first@, first_len, second@, second_len);
        }
        Ordering::Less
    } else {
        let d = first_difference(first, second, first_len);
        if d.greater {
            Ordering::Greater
        } else if d.less {
            Ordering::Less
        } else {
            Ordering::Equal
        }
    }
}

} // verus!
