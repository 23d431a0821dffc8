//! Numbers as the terms of the sums that other crates take.
use vstd::prelude::*;

use crate::number::{is_sum, is_zero, Real};

verus! {

/// A number that is added by [`Real::plus`], and whose zero is [`Real::zero`].
pub struct Summand<W>(pub W);

impl<W: Copy> Clone for Summand<W> {
    fn clone(&self) -> (r: Summand<W>)
        ensures
            r == *self,
    {
        *self
    }
}

impl<W: Copy> Copy for Summand<W> {

}

impl<W: Real> vstd::std_specs::ops::AddSpecImpl<Summand<W>> for Summand<W> {
    open spec fn obeys_add_spec() -> bool {
        false
    }

    open spec fn add_req(self, rhs: Summand<W>) -> bool {
        true
    }

    open spec fn add_spec(self, rhs: Summand<W>) -> Summand<W> {
        self
    }
}

impl<W: Real> std::ops::Add<Summand<W>> for Summand<W> {
    type Output = Summand<W>;

    fn add(self, rhs: Summand<W>) -> (r: Summand<W>)
        ensures
            is_sum(self.0, rhs.0, r.0),
    {
        Summand(self.0.plus(rhs.0))
    }
}

impl<W: Real> num_traits::Zero for Summand<W> {
    fn zero() -> (r: Summand<W>)
        ensures
            is_zero(r.0),
    {
        Summand(W::zero())
    }

    fn is_zero(&self) -> (r: bool) {
        self.0.at_most(W::zero()) && W::zero().at_most(self.0)
    }
}

} // verus!
