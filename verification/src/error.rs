//! The error kinds that the validating operations of the crate report.

use vstd::prelude::*;

verus! {

/// Everything that a validating operation of this crate can reject.
///
/// The move generator itself never fails: it is total over raw masks.
/// The coordinate codecs and the board types validate their inputs and
/// report one of these kinds instead of panicking.
#[derive(Clone, Copy, Debug, PartialEq, Eq, Structural)]
pub enum OthelloError {
    /// A coordinate, linear index, or bit index outside the valid
    /// `0..8` / `0..64` domain.
    OutOfRange,
    /// An algebraic-notation string that is not a letter followed by digits.
    InvalidFormat,
    /// The two color masks of a bitboard were found non-disjoint.
    StateInvariantViolation,
    /// A board size that the representation cannot support.
    UnsupportedDimension,
}

impl OthelloError {
    /// A short stable label for the error kind, for callers that print it.
    pub fn label(&self) -> (r: &'static str)
        ensures
            r@ == match *self {
                OthelloError::OutOfRange => "out of range"@,
                OthelloError::InvalidFormat => "invalid format"@,
                OthelloError::StateInvariantViolation => "state invariant violation"@,
                OthelloError::UnsupportedDimension => "unsupported dimension"@,
            },
    {
        match *self {
            OthelloError::OutOfRange => "out of range",
            OthelloError::InvalidFormat => "invalid format",
            OthelloError::StateInvariantViolation => "state invariant violation",
            OthelloError::UnsupportedDimension => "unsupported dimension",
        }
    }
}

} // verus!
