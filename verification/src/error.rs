//! Error taxonomy of the core.

use vstd::prelude::*;

verus! {

/// The rule on which a block was rejected.
#[derive(Debug, Clone, Copy, PartialEq, Eq, Structural)]
pub enum ValidationFailure {
    /// The header's timestamp lies more than the tolerated drift ahead of the clock.
    TimestampTooFarAhead,
    /// The transaction at this position is malformed or was refused by the verifier.
    BadTransaction(usize),
    /// The intent's requirements are malformed or its proof was refused by the verifier.
    BadIntent,
}

/// Everything the core can fail with.
#[derive(Debug, Clone, Copy, PartialEq, Eq, Structural)]
pub enum Error {
    /// A block broke a validation rule.
    ValidationFailed(ValidationFailure),
    /// A nonce search used up its attempts without finding a solution.
    MiningCancelled,
    /// A retarget would have produced the all-zero target.
    RetargetUnderflow,
    /// A retarget was asked for with an expected interval of zero.
    DegenerateInterval,
}

} // verus!
