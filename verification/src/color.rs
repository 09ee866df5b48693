//! The two disc colors.

use vstd::prelude::*;

verus! {

/// One of the two sides of the game.
#[derive(Clone, Copy, Debug, PartialEq, Eq, Hash, Structural)]
pub enum Color {
    White,
    Black,
}

impl Color {
    /// The other color.
    pub open spec fn spec_flip(self) -> Color {
        match self {
            Color::White => Color::Black,
            Color::Black => Color::White,
        }
    }

    /// Return the other color.
    pub fn flip(&self) -> (r: Color)
        ensures
            r == self.spec_flip(),
    {
        match *self {
            Color::White => Color::Black,
            Color::Black => Color::White,
        }
    }
}

/// Flipping a color twice returns the color itself.
pub proof fn lemma_flip_involution(c: Color)
    ensures
        c.spec_flip().spec_flip() == c,
{
}

} // verus!
