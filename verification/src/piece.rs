//! The two kinds of disc that can sit on a square.

use vstd::prelude::*;

verus! {

/// A disc of one of the two sides.
#[derive(Clone, Copy, Debug, PartialEq, Eq, Structural)]
pub enum Piece {
    White,
    Black,
}

impl Piece {
    /// The piece of the other side.
    pub open spec fn spec_swap(self) -> Piece {
        match self {
            Piece::White => Piece::Black,
            Piece::Black => Piece::White,
        }
    }

    /// Return the piece of the other side.
    pub fn swap(&self) -> (r: Piece)
        ensures
            r == self.spec_swap(),
    {
        match *self {
            Piece::White => Piece::Black,
            Piece::Black => Piece::White,
        }
    }
}

/// Swapping a piece twice returns the piece itself.
pub proof fn lemma_swap_involution(p: Piece)
    ensures
        p.spec_swap().spec_swap() == p,
{
}

} // verus!
