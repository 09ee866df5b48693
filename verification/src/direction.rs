//! The eight compass directions and the occupancy shift primitive.
//!
//! Each direction carries a shift distance (1, 7, 8 or 9 bit positions), a
//! sense (toward lower or toward higher bit indexes) and an edge mask. The
//! edge mask is applied to the shift *result* so that discs which would wrap
//! from column H to column A of an adjacent row (or the other way round)
//! vanish instead, and discs shifted past the first or last row vanish
//! through the 64-bit shift itself.

use vstd::prelude::*;

verus! {

/// All possible directions for moving pieces in a bitboard.
///
/// `N` points toward row 1 (decreasing y), `S` toward row 8 (increasing y),
/// `E` toward column H (increasing x), `W` toward column A (decreasing x).
#[derive(Clone, Copy, Debug, PartialEq, Eq, Structural)]
pub enum Direction {
    N,
    NE,
    E,
    SE,
    S,
    SW,
    W,
    NW,
}

impl Direction {
    /// How one step in this direction changes the grid column x.
    pub open spec fn delta_x(self) -> int {
        match self {
            Direction::N => 0,
            Direction::NE => 1,
            Direction::E => 1,
            Direction::SE => 1,
            Direction::S => 0,
            Direction::SW => -1,
            Direction::W => -1,
            Direction::NW => -1,
        }
    }

    /// How one step in this direction changes the grid row y.
    pub open spec fn delta_y(self) -> int {
        match self {
            Direction::N => -1,
            Direction::NE => -1,
            Direction::E => 0,
            Direction::SE => 1,
            Direction::S => 1,
            Direction::SW => 1,
            Direction::W => 0,
            Direction::NW => -1,
        }
    }

    /// The magnitude of the bit shift that one step in this direction takes.
    pub open spec fn spec_shift_distance(self) -> u64 {
        match self {
            Direction::N => 8,
            Direction::NE => 7,
            Direction::E => 1,
            Direction::SE => 9,
            Direction::S => 8,
            Direction::SW => 7,
            Direction::W => 1,
            Direction::NW => 9,
        }
    }

    /// Whether the step shifts toward lower bit indexes (a right shift).
    pub open spec fn spec_toward_lower(self) -> bool {
        match self {
            Direction::E => true,
            Direction::SE => true,
            Direction::S => true,
            Direction::SW => true,
            Direction::N => false,
            Direction::NE => false,
            Direction::W => false,
            Direction::NW => false,
        }
    }

    /// The edge mask that one step in this direction applies to the shift
    /// result, annihilating bits that crossed the left or right board edge.
    pub open spec fn spec_edge_mask(self) -> u64 {
        match self {
            Direction::E => 0x7F7F7F7F7F7F7F7Fu64,
            Direction::SE => 0x007F7F7F7F7F7F7Fu64,
            Direction::S => 0xFFFFFFFFFFFFFFFFu64,
            Direction::SW => 0x00FEFEFEFEFEFEFEu64,
            Direction::W => 0xFEFEFEFEFEFEFEFEu64,
            Direction::NW => 0xFEFEFEFEFEFEFE00u64,
            Direction::N => 0xFFFFFFFFFFFFFFFFu64,
            Direction::NE => 0x7F7F7F7F7F7F7F00u64,
        }
    }

    /// The shift distance (magnitude) of this direction.
    pub fn shift_distance(&self) -> (r: u64)
        ensures
            r == self.spec_shift_distance(),
    {
        match *self {
            Direction::N => 8,
            Direction::NE => 7,
            Direction::E => 1,
            Direction::SE => 9,
            Direction::S => 8,
            Direction::SW => 7,
            Direction::W => 1,
            Direction::NW => 9,
        }
    }

    /// The sense of this direction: true when it shifts toward lower bit
    /// indexes.
    pub fn toward_lower(&self) -> (r: bool)
        ensures
            r == self.spec_toward_lower(),
    {
        match *self {
            Direction::E => true,
            Direction::SE => true,
            Direction::S => true,
            Direction::SW => true,
            Direction::N => false,
            Direction::NE => false,
            Direction::W => false,
            Direction::NW => false,
        }
    }

    /// The edge mask of this direction.
    pub fn edge_mask(&self) -> (r: u64)
        ensures
            r == self.spec_edge_mask(),
    {
        match *self {
            Direction::E => 0x7F7F7F7F7F7F7F7Fu64,
            Direction::SE => 0x007F7F7F7F7F7F7Fu64,
            Direction::S => 0xFFFFFFFFFFFFFFFFu64,
            Direction::SW => 0x00FEFEFEFEFEFEFEu64,
            Direction::W => 0xFEFEFEFEFEFEFEFEu64,
            Direction::NW => 0xFEFEFEFEFEFEFE00u64,
            Direction::N => 0xFFFFFFFFFFFFFFFFu64,
            Direction::NE => 0x7F7F7F7F7F7F7F00u64,
        }
    }

    /// The mask that one step in this direction turns `m` into: the bit
    /// shift of the direction's magnitude and sense, then the edge mask.
    pub open spec fn spec_shift(self, m: u64) -> u64 {
        if self.spec_toward_lower() {
            (m >> self.spec_shift_distance()) & self.spec_edge_mask()
        } else {
            (m << self.spec_shift_distance()) & self.spec_edge_mask()
        }
    }

    /// The occupancy shift primitive: move every disc of `m` one step in
    /// this direction, dropping the discs that would leave the board.
    ///
    /// All directional reasoning of the crate routes through this one
    /// operation rather than re-deriving ad hoc shift/mask pairs.
    pub fn shift(&self, m: u64) -> (r: u64)
        ensures
            r == self.spec_shift(m),
    {
        if self.toward_lower() {
            (m >> self.shift_distance()) & self.edge_mask()
        } else {
            (m << self.shift_distance()) & self.edge_mask()
        }
    }

    /// The direction at position `i` of the fixed direction table
    /// N, NE, E, SE, S, SW, W, NW.
    pub fn from_index(i: usize) -> (r: Direction)
        requires
            i < 8,
        ensures
            r == Direction::spec_from_index(i as int),
    {
        match i {
            0 => Direction::N,
            1 => Direction::NE,
            2 => Direction::E,
            3 => Direction::SE,
            4 => Direction::S,
            5 => Direction::SW,
            6 => Direction::W,
            _ => Direction::NW,
        }
    }

    /// The fixed enumeration order of the eight directions.
    pub open spec fn spec_from_index(i: int) -> Direction {
        if i == 0 {
            Direction::N
        } else if i == 1 {
            Direction::NE
        } else if i == 2 {
            Direction::E
        } else if i == 3 {
            Direction::SE
        } else if i == 4 {
            Direction::S
        } else if i == 5 {
            Direction::SW
        } else if i == 6 {
            Direction::W
        } else {
            Direction::NW
        }
    }
}

/// Every direction stands at exactly one position of the fixed table.
pub proof fn lemma_direction_table_complete(d: Direction)
    ensures
        exists|i: int| 0 <= i < 8 && Direction::spec_from_index(i) == d,
{
    match d {
        Direction::N => assert(Direction::spec_from_index(0) == d),
        Direction::NE => assert(Direction::spec_from_index(1) == d),
        Direction::E => assert(Direction::spec_from_index(2) == d),
        Direction::SE => assert(Direction::spec_from_index(3) == d),
        Direction::S => assert(Direction::spec_from_index(4) == d),
        Direction::SW => assert(Direction::spec_from_index(5) == d),
        Direction::W => assert(Direction::spec_from_index(6) == d),
        Direction::NW => assert(Direction::spec_from_index(7) == d),
    }
}

} // verus!
