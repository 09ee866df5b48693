//! The per-color occupancy board: one 64-bit mask for each side.

use vstd::prelude::*;

use crate::color::Color;
use crate::direction::Direction;
use crate::error::OthelloError;

verus! {

/// The number of zero bits among the `n` lowest bits of `m`.
pub open spec fn zeros_below(m: u64, n: int) -> int
    decreases n,
{
    if n <= 0 {
        0
    } else {
        zeros_below(m, n - 1) + if (m >> ((n - 1) as u64)) & 1u64 == 0u64 {
            1int
        } else {
            0int
        }
    }
}

/// At most `n` of the `n` lowest bits of `m` are zero.
pub proof fn lemma_zeros_below_bound(m: u64, n: int)
    requires
        n >= 0,
    ensures
        0 <= zeros_below(m, n) <= n,
    decreases n,
{
    if n > 0 {
        lemma_zeros_below_bound(m, n - 1);
    }
}

/// The occupancy of a whole position, one 64-bit mask per color.
///
/// The two masks are kept disjoint: no square is ever occupied by both
/// colors. The constructor establishes the invariant and [`BitBoard::set_value`]
/// rejects a mask that would break it.
pub struct BitBoard {
    black: u64,
    white: u64,
}

impl BitBoard {
    /// The occupancy mask of one color.
    pub closed spec fn spec_get(&self, color: Color) -> u64 {
        match color {
            Color::Black => self.black,
            Color::White => self.white,
        }
    }

    /// The number of squares occupied by neither color.
    pub open spec fn spec_nb_empty(&self) -> int {
        zeros_below(self.spec_get(Color::Black) | self.spec_get(Color::White), 64)
    }

    /// The number of squares occupied by either color.
    pub open spec fn spec_nb_occupied(&self) -> int {
        64 - self.spec_nb_empty()
    }

    /// The state invariant: the two color masks are disjoint.
    pub open spec fn wf(&self) -> bool {
        self.spec_get(Color::Black) & self.spec_get(Color::White) == 0u64
    }

    /// The standard initial position: Black on D5 and E4 (bit indexes 28
    /// and 35), White on D4 and E5 (bit indexes 36 and 27).
    pub fn new() -> (r: BitBoard)
        ensures
            r.wf(),
            r.spec_get(Color::Black) == 0x0000_0008_1000_0000u64,
            r.spec_get(Color::White) == 0x0000_0010_0800_0000u64,
    {
        let r = BitBoard {
            black: 0b00000000_00000000_00000000_00001000_00010000_00000000_00000000_00000000u64,
            white: 0b00000000_00000000_00000000_00010000_00001000_00000000_00000000_00000000u64,
        };
        proof {
            assert(0x0000_0008_1000_0000u64 & 0x0000_0010_0800_0000u64 == 0u64) by (bit_vector);
        }
        r
    }

    /// The occupancy mask of `color`.
    pub fn get(&self, color: Color) -> (r: u64)
        ensures
            r == self.spec_get(color),
    {
        match color {
            Color::Black => self.black,
            Color::White => self.white,
        }
    }

    /// Count the number of free squares of the position.
    pub fn nb_empty(&self) -> (r: u32)
        ensures
            r == self.spec_nb_empty(),
    {
        let u = self.black | self.white;
        let mut count: u32 = 0;
        let mut b: usize = 0;
        while b < 64
            invariant
                b <= 64,
                count == zeros_below(u, b as int),
                count <= b,
            decreases 64 - b,
        {
            proof {
                lemma_zeros_below_bound(u, b as int);
            }
            if (u >> (b as u64)) & 1 == 0 {
                count = count + 1;
            }
            b = b + 1;
        }
        count
    }

    /// Count the number of occupied squares of the position.
    pub fn nb_occupied(&self) -> (r: u32)
        ensures
            r == self.spec_nb_occupied(),
    {
        proof {
            lemma_zeros_below_bound(self.black | self.white, 64);
        }
        64 - self.nb_empty()
    }

    /// Shift the occupancy of `color` one step toward `dir`, through the
    /// occupancy shift primitive.
    pub fn shift(&self, dir: Direction, color: Color) -> (r: u64)
        ensures
            r == dir.spec_shift(self.spec_get(color)),
    {
        let bb = self.get(color);
        dir.shift(bb)
    }

    /// Replace the occupancy of `color` outright, as a test setup or
    /// loading step. The new mask must stay disjoint from the other
    /// color's; a violating mask is rejected and nothing changes.
    pub fn set_value(&mut self, pieces: u64, color: Color) -> (r: Result<(), OthelloError>)
        ensures
            match r {
                Ok(()) => pieces & old(self).spec_get(color.spec_flip()) == 0u64
                    && final(self).spec_get(color) == pieces
                    && final(self).spec_get(color.spec_flip())
                        == old(self).spec_get(color.spec_flip())
                    && final(self).wf(),
                Err(e) => e == OthelloError::StateInvariantViolation
                    && pieces & old(self).spec_get(color.spec_flip()) != 0u64
                    && *final(self) == *old(self),
            },
    {
        let other = match color {
            Color::Black => self.white,
            Color::White => self.black,
        };
        if pieces & other != 0 {
            return Err(OthelloError::StateInvariantViolation);
        }
        match color {
            Color::Black => {
                self.black = pieces;
            },
            Color::White => {
                self.white = pieces;
            },
        }
        proof {
            assert(forall|a: u64, b: u64| #[trigger] (a & b) == b & a) by (bit_vector);
        }
        Ok(())
    }
}

/// The free squares and the occupied squares always account for the whole
/// board: their counts sum to 64 in every state.
pub proof fn lemma_empty_occupied_sum(board: &BitBoard)
    ensures
        0 <= board.spec_nb_empty() <= 64,
        board.spec_nb_empty() + board.spec_nb_occupied() == 64,
{
    lemma_zeros_below_bound(
        board.spec_get(Color::Black) | board.spec_get(Color::White),
        64,
    );
}

} // verus!
