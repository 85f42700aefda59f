//! Error values a path conversion can surface.

use vstd::prelude::*;

verus! {

/// The ways a conversion of one path description can fail.  Each failure is
/// unrecoverable for that path: the computation is deterministic, so retrying
/// with the same input cannot change the outcome.
#[derive(Clone, Copy, Debug, PartialEq, Eq, Structural)]
pub enum PathError {
    /// A numeric literal was malformed where a command needed a number, or a
    /// literal's magnitude exceeds the representable coordinate range.
    TokenizeError,
    /// A drawing command was encountered before any `M`/`m` established a
    /// current point.
    MissingInitialMove,
    /// A command would consume tokens beyond the end of the sequence.
    InsufficientArguments,
    /// A resolved coordinate left the representable range; a machine limit of
    /// the fixed-point representation, not part of the path grammar.
    CoordinateOverflow,
    /// The whole path has arc length zero (a single point, or no recognized
    /// drawing command), so no length-proportional sampling is possible.
    DegeneratePath,
}

impl PathError {
    /// A short name for the error, for callers that print it.
    pub fn describe(&self) -> (r: &'static str)
    {
        match self {
            PathError::TokenizeError => "malformed or out-of-range numeric literal",
            PathError::MissingInitialMove => "drawing command before any move command",
            PathError::InsufficientArguments => "command arguments missing at end of path",
            PathError::CoordinateOverflow => "coordinate outside the representable range",
            PathError::DegeneratePath => "path has zero total length",
        }
    }
}

} // verus!
