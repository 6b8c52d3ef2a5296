//! The ways in which a measurement can fail to be applied.

use vstd::prelude::*;

verus! {

/// Why two estimates could not be fused.
#[derive(Clone, Copy, Debug, PartialEq, Eq)]
pub enum FilterError {
    /// The sum of the two covariance matrices has no inverse.
    SingularCovariance,
    /// An exact intermediate result does not fit a 64-bit fraction.
    Overflow,
}

} // verus!
