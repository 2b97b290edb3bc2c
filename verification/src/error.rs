//! Error taxonomy for the ownership/pattern/strategy core.

use vstd::prelude::*;

verus! {

/// Typed errors surfaced by registration and by runtime routing.
///
/// - `PatternConflict`: two owner registrations overlap, or a newly
///   introduced invalidation edge would create a cycle. The payload names
///   the pre-existing pattern (or the edge target) that caused the clash.
/// - `InvalidBorrowing`: a borrow was attempted where no governing
///   ownership exists.
/// - `LayerViolation`: an operation or borrow was directed at a layer
///   outside the governing ownership's primary layer and fallback chain.
/// - `StrategyError`: resolution failed for any other reason, such as a
///   malformed pattern template, an unresolved key with no default layer
///   configured, or an ownership removed while still referenced.
#[derive(Debug, Clone, PartialEq, Eq)]
pub enum Error {
    PatternConflict(String),
    InvalidBorrowing(String),
    LayerViolation(String),
    StrategyError(String),
}

impl Error {
    /// A short human-readable description of the error.
    pub fn describe(&self) -> (r: String)
        ensures
            r@ == self.payload(),
    {
        match self {
            Error::PatternConflict(m) => m.clone(),
            Error::InvalidBorrowing(m) => m.clone(),
            Error::LayerViolation(m) => m.clone(),
            Error::StrategyError(m) => m.clone(),
        }
    }

    /// The message carried by the error, whatever its variant.
    pub open spec fn payload(self) -> Seq<char> {
        match self {
            Error::PatternConflict(m) => m@,
            Error::InvalidBorrowing(m) => m@,
            Error::LayerViolation(m) => m@,
            Error::StrategyError(m) => m@,
        }
    }

}

} // verus!
