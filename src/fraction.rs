//! Exact non-negative fractions, for the shares and rates that the library reports.
use vstd::prelude::*;

verus! {

/// The fraction `numerator / denominator`, kept exact and not reduced.
#[derive(PartialEq, Eq, Structural, Clone, Copy, Debug)]
pub struct Fraction {
    pub numerator: u128,
    pub denominator: u128,
}

} // verus!
