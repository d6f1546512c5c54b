//! Exact results of the fitting routines.
use vstd::prelude::*;

verus! {

/// The rational number `num / den`, not reduced.
#[derive(Debug, Clone, Copy, PartialEq, Eq, Structural)]
pub struct Ratio {
    pub num: i128,
    pub den: i128,
}

/// The line `y = intercept + slope * x`, for `x_lo <= x <= x_hi`.
#[derive(Debug, Clone, Copy, PartialEq, Eq, Structural)]
pub struct LinearFit {
    pub x_lo: u64,
    pub x_hi: u64,
    pub intercept: Ratio,
    pub slope: Ratio,
}

/// Why a fit could not be computed.
#[derive(Debug, Clone, Copy, PartialEq, Eq, Structural)]
pub enum FitError {
    /// Two consecutive points share their time: the slope would divide by zero.
    ZeroInterval,
    /// The times have no spread (all equal, or no point at all): the
    /// least-squares system is singular.
    ZeroDeterminant,
    /// An intermediate sum or product does not fit in 128 bits.
    Overflow,
}

} // verus!
