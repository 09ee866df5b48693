//! One square of the square-array board.

use vstd::prelude::*;

use crate::color::Color;
use crate::coordinate::Coordinate;
use crate::piece::Piece;

verus! {

/// A square is either free, or occupied by a black or white piece.
#[derive(Clone, Copy, Debug, PartialEq, Eq, Structural)]
pub enum Status {
    Empty,
    Occupied(Piece),
}

/// The piece of a given color.
pub open spec fn piece_of_color(c: Color) -> Piece {
    match c {
        Color::White => Piece::White,
        Color::Black => Piece::Black,
    }
}

/// A square of the board, keeping its own coordinate for convenience.
#[derive(Clone, Copy, Debug, PartialEq, Eq, Structural)]
pub struct Square {
    pub status: Status,
    pub coord: Coordinate,
}

impl Square {
    /// A square with the given status and coordinate.
    pub fn new(s: Status, c: Coordinate) -> (r: Square)
        ensures
            r.status == s,
            r.coord == c,
    {
        Square { status: s, coord: c }
    }

    /// The square holds a white piece.
    pub fn is_white(&self) -> (r: bool)
        ensures
            r == (self.status == Status::Occupied(Piece::White)),
    {
        match self.status {
            Status::Occupied(Piece::White) => true,
            _ => false,
        }
    }

    /// The square holds a black piece.
    pub fn is_black(&self) -> (r: bool)
        ensures
            r == (self.status == Status::Occupied(Piece::Black)),
    {
        match self.status {
            Status::Occupied(Piece::Black) => true,
            _ => false,
        }
    }

    /// The square holds a piece of the given color.
    pub fn is_color(&self, p: Color) -> (r: bool)
        ensures
            r == (self.status == Status::Occupied(piece_of_color(p))),
    {
        match (self.status, p) {
            (Status::Occupied(Piece::White), Color::White) => true,
            (Status::Occupied(Piece::Black), Color::Black) => true,
            _ => false,
        }
    }

    /// The square holds no piece.
    pub fn is_free(&self) -> (r: bool)
        ensures
            r == (self.status == Status::Empty),
    {
        match self.status {
            Status::Empty => true,
            _ => false,
        }
    }
}

impl Default for Square {
    /// An empty square at the board origin.
    fn default() -> (r: Square)
        ensures
            r.status == Status::Empty,
            r.coord == (Coordinate { x: 0, y: 0 }),
    {
        Square { status: Status::Empty, coord: Coordinate { x: 0, y: 0 } }
    }
}

} // verus!
