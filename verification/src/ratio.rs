//! Exact fractions for ratio-valued graph metrics.

use vstd::prelude::*;

verus! {

/// An exact non-negative fraction `num / den`.
///
/// Metric values such as density, closeness centrality and normalized degree
/// are ratios of integer counts; they are reported unreduced, exactly as the
/// defining quotient, with `den >= 1`.
#[derive(Clone, Copy, PartialEq, Eq, Structural, Debug)]
pub struct Ratio {
    pub num: u128,
    pub den: u128,
}

impl Ratio {
    /// True of every fraction the library hands out: the denominator is
    /// positive, so the value is well defined.
    pub open spec fn wf(self) -> bool {
        self.den >= 1
    }

    /// Builds the fraction `num / den`.
    pub fn new(num: u128, den: u128) -> (r: Ratio)
        requires
            den >= 1,
        ensures
            r == (Ratio { num, den }),
            r.wf(),
    {
        Ratio { num, den }
    }

    /// The exact value zero, written `0 / 1`.
    pub fn zero() -> (r: Ratio)
        ensures
            r == (Ratio { num: 0, den: 1 }),
            r.wf(),
    {
        Ratio { num: 0, den: 1 }
    }
}

} // verus!
