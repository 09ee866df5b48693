//! The fixed 8x8 coordinate codec over plain (x, y) pairs.

use vstd::prelude::*;

use crate::coordinate::algebraic_code;
use crate::coordinate::digits_value;
use crate::coordinate::is_algebraic;
use crate::coordinate::letter_value;
use crate::coordinate::parse_algebraic;
use crate::coordinate::Coordinate;
use crate::error::OthelloError;

verus! {

/// The 8x8 coordinate codec: conversions between a point (x, y), the
/// linear row-major index, the bit index, and algebraic notation.
#[derive(Clone, Copy, Debug, PartialEq, Eq, Structural)]
pub struct Point {}

impl Point {
    /// The linear row-major index of the point `pt`.
    pub fn to_index(pt: (usize, usize)) -> (r: usize)
        requires
            pt.0 < 8,
            pt.1 < 8,
        ensures
            r == pt.0 + 8 * pt.1,
    {
        pt.0 + 8 * pt.1
    }

    /// The point at the linear row-major index `index`.
    pub fn to_coordinate(index: usize) -> (r: (usize, usize))
        requires
            index < 64,
        ensures
            r.0 == index % 8,
            r.1 == index / 8,
    {
        (index % 8, index / 8)
    }

    /// The point of the square that owns bit index `index`. Fails with
    /// `OutOfRange` when `index` exceeds 63.
    pub fn to_bitboard_coordinate(index: usize) -> (r: Result<(usize, usize), OthelloError>)
        ensures
            match r {
                Ok(pt) => index <= 63 && pt.0 == (63 - index) % 8 && pt.1 == (63 - index) / 8,
                Err(e) => index > 63 && e == OthelloError::OutOfRange,
            },
    {
        if index > 63 {
            return Err(OthelloError::OutOfRange);
        }
        Ok(((63 - index) % 8, (63 - index) / 8))
    }

    /// The algebraic code of the point `pt`: the column letter 'A' plus
    /// x, then the row digit `y + 1`. Fails with `OutOfRange` outside the
    /// board.
    pub fn to_algebric(pt: (usize, usize)) -> (r: Result<String, OthelloError>)
        ensures
            match r {
                Ok(s) => pt.0 < 8 && pt.1 < 8 && s@ == algebraic_code(pt.0 as int, pt.1 as int),
                Err(e) => (pt.0 >= 8 || pt.1 >= 8) && e == OthelloError::OutOfRange,
            },
    {
        if pt.0 >= 8 || pt.1 >= 8 {
            return Err(OthelloError::OutOfRange);
        }
        let c = Coordinate { x: pt.0, y: pt.1 };
        match c.to_algebric() {
            Ok(s) => Ok(s),
            Err(e) => Err(e),
        }
    }

    /// The point that an algebraic code names on the 8x8 board: one
    /// letter (case-insensitive), then one or more digits spelling the
    /// 1-based row number 1 to 8.
    pub fn from_algebric(algebric_coord: &str) -> (r: Result<(usize, usize), OthelloError>)
        ensures
            match r {
                Ok(pt) => is_algebraic(algebric_coord@) && pt.0 == letter_value(algebric_coord@[0])
                    && pt.0 < 8 && pt.1 + 1 == digits_value(algebric_coord@.skip(1)) && pt.1 < 8,
                Err(e) => (e == OthelloError::InvalidFormat && !is_algebraic(algebric_coord@)) || (
                e == OthelloError::OutOfRange && is_algebraic(algebric_coord@) && (letter_value(
                    algebric_coord@[0],
                ) >= 8 || digits_value(algebric_coord@.skip(1)) < 1 || digits_value(
                    algebric_coord@.skip(1),
                ) > 8)),
            },
    {
        parse_algebraic(algebric_coord, 8)
    }
}

} // verus!
