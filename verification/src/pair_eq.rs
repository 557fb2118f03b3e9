//! When two pairs of submissions are the same pair.

use crate::phase_ii::SubPair;
use vstd::prelude::*;
use vstd::std_specs::cmp::{PartialEqSpec, PartialEqSpecImpl};

verus! {

/// Two pairs are equal where they are of the same two submissions, in whichever order.
impl PartialEq for SubPair {
    fn eq(&self, other: &Self) -> (same: bool) {
        (self.a == other.a && self.b == other.b) || (self.a == other.b && self.b == other.a)
    }
}

impl Eq for SubPair {

}

impl PartialEqSpecImpl for SubPair {
    open spec fn obeys_eq_spec() -> bool {
        true
    }

    open spec fn eq_spec(&self, other: &Self) -> bool {
        (self.a == other.a && self.b == other.b) || (self.a == other.b && self.b == other.a)
    }
}

/// The pair of the same two submissions, the other way round.
pub open spec fn swapped(pair: SubPair) -> SubPair {
    SubPair {
        a: pair.b,
        a_percent: pair.b_percent,
        b: pair.a,
        b_percent: pair.a_percent,
        matches: pair.matches,
        percentile: pair.percentile,
    }
}

/// Equality of pairs does not look at the order of the two submissions: a pair equals the
/// pair the other way round, and whether two pairs are equal does not depend on which of
/// them is asked, nor on the order within either.
pub proof fn lemma_pair_eq_symmetric(p: SubPair, q: SubPair)
    ensures
        PartialEqSpec::eq_spec(&p, &swapped(p)),
        PartialEqSpec::eq_spec(&p, &q) == PartialEqSpec::eq_spec(&q, &p),
        PartialEqSpec::eq_spec(&p, &q) == PartialEqSpec::eq_spec(&swapped(p), &q),
        PartialEqSpec::eq_spec(&p, &q) == PartialEqSpec::eq_spec(&p, &swapped(q)),
{
}

} // verus!
