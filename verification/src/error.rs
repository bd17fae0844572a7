//! The ways in which an estimator declines an input.

use vstd::prelude::*;

verus! {

/// Why an estimator gave no score.
#[derive(Clone, Copy, Debug, PartialEq, Eq, Structural)]
pub enum EstimatorError {
    /// The input cannot be scored: it is too short for the parameters, it is
    /// malformed, or it holds a value that has no place in an order.
    InvalidInput,
    /// The input is fine, but the score is a ratio whose denominator is zero.
    Undefined,
}

} // verus!
