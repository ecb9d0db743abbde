//! A range of naturals that is walked upwards.
use vstd::prelude::*;
use crate::natural::Natural;

verus! {

/// The naturals from a first one up to, and without, a last one.
///
/// Only the next number and the end are kept, so a walk takes no more
/// memory than two numbers.
pub struct Range {
    current: Natural,
    end: Natural,
}

impl Range {
    /// The number that the next step gives, if it is below the end.
    pub closed spec fn current(&self) -> nat {
        self.current@
    }

    /// The end of the range, which is not part of it.
    pub closed spec fn end(&self) -> nat {
        self.end@
    }

    /// The range of the naturals that are at least `a` and less than `b`.
    pub fn new(a: Natural, b: Natural) -> (r: Range)
        ensures
            r.current() == a@,
            r.end() == b@,
    {
        Range { current: a, end: b }
    }

    /// Steps one number up: gives the current number where it is below
    /// the end, and nothing where the range is exhausted.
    pub fn next(&mut self) -> (r: Option<Natural>)
        ensures
            r.is_some() <==> old(self).current() < old(self).end(),
            r.is_some() ==> r.unwrap()@ == old(self).current(),
            final(self).current() == old(self).current() + 1,
            final(self).end() == old(self).end(),
    {
        let value = if self.end.at_least(&self.current) && !self.current.at_least(&self.end) {
            Some(self.current.clone())
        } else {
            None
        };
        self.current = self.current.add(&Natural::one());
        value
    }
}

} // verus!
