//! Shares of a whole.

use vstd::prelude::*;

verus! {

/// A part of a whole, as two counts.
#[derive(Debug, Clone, Copy, PartialEq, Eq)]
pub struct Ratio {
    pub part: u64,
    pub whole: u64,
}

impl Ratio {
    /// Whether the ratio lies between 0 and 1: the whole is not nothing, and the part is no
    /// more than the whole.
    pub open spec fn is_share(self) -> bool {
        self.whole > 0 && self.part <= self.whole
    }
}

} // verus!
