//! A fixed-capacity limb buffer that is filled from its last slot toward
//! its first.
use vstd::prelude::*;
use crate::limbs::{limbs_value, lemma_value_prepend, lemma_value_take_zeros};
use crate::natural::Natural;

verus! {

/// A buffer of fixed capacity that grows downwards.
///
/// Long division produces its quotient most significant limb first, while
/// a number is stored least significant limb first.  Each value pushed
/// here goes below the ones pushed before it, so that the filled part
/// always reads as a little-endian number.  The zeros pushed before the
/// first value that is not zero are counted, so that they can be dropped
/// at the end without another scan.
pub struct DivisionResult {
    data: Vec<u64>,
    length: usize,
    capacity: usize,
    seen_nonzero: bool,
    zeroes: usize,
}

impl DivisionResult {
    /// The limbs pushed so far, least significant (last pushed) first.
    pub closed spec fn filled(&self) -> Seq<u64> {
        self.data@.skip(self.capacity - self.length)
    }

    /// The number of values that the buffer takes.
    pub closed spec fn capacity(&self) -> nat {
        self.capacity as nat
    }

    /// The number of zero limbs at the top of the filled part.
    pub closed spec fn leading_zeros(&self) -> nat {
        self.zeroes as nat
    }

    /// Well-formedness: the filled part fits the capacity, and the count
    /// of zeros pushed first is exact.
    pub closed spec fn wf(&self) -> bool {
        &&& self.data@.len() == self.capacity
        &&& self.length <= self.capacity
        &&& self.zeroes <= self.length
        &&& forall|i: int| self.capacity - self.zeroes <= i < self.capacity ==> self.data@[i] == 0
        &&& if self.seen_nonzero {
            self.zeroes < self.length && self.data@[self.capacity - self.zeroes - 1] != 0
        } else {
            self.zeroes == self.length
        }
    }

    /// The number that the filled part stands for.
    pub open spec fn value(&self) -> nat {
        limbs_value(self.filled())
    }

    /// An empty buffer that takes `capacity` values.
    pub fn new(capacity: usize) -> (r: DivisionResult)
        ensures
            r.wf(),
            r.capacity() == capacity,
            r.filled() == Seq::<u64>::empty(),
            r.leading_zeros() == 0,
    {
        let data: Vec<u64> = vec![0u64; capacity];
        let r = DivisionResult { data, length: 0, capacity, seen_nonzero: false, zeroes: 0 };
        r
    }

    /// Puts `value` below the values pushed so far.
    pub fn push(&mut self, value: u64)
        requires
            old(self).wf(),
            old(self).filled().len() < old(self).capacity(),
        ensures
            final(self).wf(),
            final(self).capacity() == old(self).capacity(),
            final(self).filled() == seq![value] + old(self).filled(),
            final(self).value() == value + crate::limbs::base() * old(self).value(),
            final(self).leading_zeros() == if old(self).leading_zeros() == old(self).filled().len()
                && value == 0 {
                old(self).leading_zeros() + 1
            } else {
                old(self).leading_zeros()
            },
    {
        let ghost before = self.data@;
        let slot = self.capacity - self.length - 1;
        self.data[slot] = value;
        self.length += 1;
        if !self.seen_nonzero && value == 0 {
            self.zeroes += 1;
        } else if !self.seen_nonzero && value != 0 {
            self.seen_nonzero = true;
        }
        proof {
            assert(self.filled() =~= seq![value] + before.skip(slot + 1));
            lemma_value_prepend(value, before.skip(slot + 1));
        }
    }

    /// The number that was pushed, most significant limb first, in
    /// canonical form.  The buffer must have been filled to its capacity.
    pub fn into_natural(self) -> (r: Natural)
        requires
            self.wf(),
            self.filled().len() == self.capacity(),
        ensures
            r.wf(),
            r@ == self.value(),
            r.limbs() == self.filled().take(self.capacity() - self.leading_zeros()),
    {
        let mut digits = self.data;
        proof {
            assert(self.filled() =~= digits@);
            lemma_value_take_zeros(digits@, self.capacity - self.zeroes);
        }
        digits.truncate(self.capacity - self.zeroes);
        Natural { digits }
    }
}

} // verus!
