//! The square-array board representation and the bitboard move engine.

pub mod bitboard;

use vstd::arithmetic::div_mod::lemma_fundamental_div_mod;
use vstd::arithmetic::div_mod::lemma_fundamental_div_mod_converse;
use vstd::prelude::*;
use vstd::slice::SliceAdditionalExecFns;

use crate::coordinate::spec_adjacent;
use crate::coordinate::Coordinate;
use crate::error::OthelloError;
use crate::piece::Piece;
use crate::square::Square;
use crate::square::Status;

verus! {

/// The dimension of a standard board.
pub const OTHELLO_BOARD_DIMENSION: usize = 8;

/// The number of squares of `s` whose status is `want`.
pub open spec fn count_status(s: Seq<Square>, want: Status) -> int
    decreases s.len(),
{
    if s.len() == 0 {
        0
    } else {
        count_status(s.drop_last(), want) + if s.last().status == want {
            1int
        } else {
            0int
        }
    }
}

/// A square board of `dimension` rows and columns, stored row-major.
pub struct Board {
    pub dimension: usize,
    pub squares: Vec<Square>,
}

impl Board {
    /// The board shape is consistent: there is one square per position,
    /// and each square keeps its own coordinate.
    pub open spec fn wf(&self) -> bool {
        self.squares@.len() == self.dimension * self.dimension && (forall|i: int|
            0 <= i < self.squares@.len() ==> ((#[trigger] self.squares@[i]).coord.x == i % (
            self.dimension as int) && self.squares@[i].coord.y == i / (self.dimension as int)))
    }

    /// The square at grid (x, y) has an adjacent square holding a piece of
    /// `p`.
    pub open spec fn spec_has_adjacent_piece(&self, x: int, y: int, p: Piece) -> bool {
        exists|a: int, b: int|
            spec_adjacent(x, y, a, b, self.dimension as int) && (#[trigger] self.squares@[a + (
            self.dimension as int) * b]).status == Status::Occupied(p)
    }

    /// A new empty board of `board_dimension` rows and columns. An odd
    /// dimension is rejected as `UnsupportedDimension`.
    pub fn new(board_dimension: usize) -> (r: Result<Board, OthelloError>)
        requires
            board_dimension * board_dimension <= usize::MAX,
        ensures
            match r {
                Ok(b) => board_dimension % 2 == 0 && b.wf() && b.dimension == board_dimension && (
                forall|i: int|
                    0 <= i < b.squares@.len() ==> (#[trigger] b.squares@[i]).status
                        == Status::Empty),
                Err(e) => board_dimension % 2 != 0 && e == OthelloError::UnsupportedDimension,
            },
    {
        // odd board dimensions have no center square block
        if board_dimension % 2 != 0 {
            return Err(OthelloError::UnsupportedDimension);
        }
        let n = board_dimension * board_dimension;
        let mut v: Vec<Square> = Vec::new();
        let mut i: usize = 0;
        while i < n
            invariant
                i <= n,
                n == board_dimension * board_dimension,
                v@.len() == i,
                forall|k: int|
                    0 <= k < i ==> ((#[trigger] v@[k]).status == Status::Empty && v@[k].coord.x == k
                        % (board_dimension as int) && v@[k].coord.y == k / (
                    board_dimension as int)),
            decreases n - i,
        {
            assert(board_dimension > 0);
            let x = i % board_dimension;
            let y = i / board_dimension;
            v.push(Square { status: Status::Empty, coord: Coordinate { x: x, y: y } });
            i = i + 1;
        }
        Ok(Board { dimension: board_dimension, squares: v })
    }

    /// Initialize the four center squares to the standard start position:
    /// with c the half dimension, White on (c-1, c-1) and (c, c), Black on
    /// (c-1, c) and (c, c-1). On the 8x8 board that is White on D4 and E5
    /// and Black on D5 and E4.
    pub fn init(&mut self) -> (r: Result<(), OthelloError>)
        requires
            old(self).wf(),
        ensures
            final(self).dimension == old(self).dimension,
            final(self).wf(),
            match r {
                Ok(()) => {
                    let dim = old(self).dimension as int;
                    let c = dim / 2;
                    old(self).dimension >= 2 && final(self).squares@.len()
                        == old(self).squares@.len() && (forall|i: int|
                        0 <= i < old(self).squares@.len()
                            ==> (#[trigger] final(self).squares@[i]).status == (if i == (c - 1) + dim
                            * (c - 1) || i == c + dim * c {
                            Status::Occupied(Piece::White)
                        } else if i == (c - 1) + dim * c || i == c + dim * (c - 1) {
                            Status::Occupied(Piece::Black)
                        } else {
                            old(self).squares@[i].status
                        })) && (forall|i: int|
                        0 <= i < old(self).squares@.len()
                            ==> (#[trigger] final(self).squares@[i]).coord
                            == old(self).squares@[i].coord)
                },
                Err(e) => old(self).dimension < 2 && e == OthelloError::UnsupportedDimension
                    && *final(self) == *old(self),
            },
    {
        if self.dimension < 2 {
            return Err(OthelloError::UnsupportedDimension);
        }
        let dim = self.dimension;
        let center = dim / 2;
        let n = self.squares.len();
        proof {
            let dimi = dim as int;
            let c = dimi / 2;
            assert(1 <= c < dimi);
            assert(0 <= (c - 1) + dimi * (c - 1) && (c - 1) + dimi * (c - 1) < dimi * dimi && c
                + dimi * c < dimi * dimi && (c - 1) + dimi * c < dimi * dimi && c + dimi * (c - 1)
                < dimi * dimi) by (nonlinear_arith)
                requires
                    1 <= c < dimi,
            ;
        }
        let i1 = (center - 1) + dim * (center - 1);
        let i2 = center + dim * center;
        let i3 = (center - 1) + dim * center;
        let i4 = center + dim * (center - 1);
        let c1 = self.squares[i1].coord;
        self.squares.set(i1, Square { status: Status::Occupied(Piece::White), coord: c1 });
        let c2 = self.squares[i2].coord;
        self.squares.set(i2, Square { status: Status::Occupied(Piece::White), coord: c2 });
        let c3 = self.squares[i3].coord;
        self.squares.set(i3, Square { status: Status::Occupied(Piece::Black), coord: c3 });
        let c4 = self.squares[i4].coord;
        self.squares.set(i4, Square { status: Status::Occupied(Piece::Black), coord: c4 });
        proof {
            assert(i1 != i2 && i1 != i3 && i1 != i4 && i2 != i3 && i2 != i4 && i3 != i4) by (
            nonlinear_arith)
                requires
                    dim >= 2,
                    i1 == (center - 1) + dim * (center - 1),
                    i2 == center + dim * center,
                    i3 == (center - 1) + dim * center,
                    i4 == center + dim * (center - 1),
                    center == dim / 2,
                    1 <= center < dim,
            ;
            assert(self.squares@.len() == old(self).squares@.len());
            assert forall|i: int| 0 <= i < self.squares@.len() implies (
            #[trigger] self.squares@[i]).coord == old(self).squares@[i].coord by {}
            assert(self.wf());
        }
        Ok(())
    }

    /// The square at grid (x, y): the entry at the linear index
    /// `x + dimension * y`, or `None` when that index lies past the end of
    /// the board.
    pub fn get_piece(&self, x: usize, y: usize) -> (r: Option<&Square>)
        requires
            x + self.dimension * y <= usize::MAX,
        ensures
            match r {
                Some(sq) => x + self.dimension * y < self.squares@.len() && *sq == self.squares@[x
                    + self.dimension * y],
                None => x + self.dimension * y >= self.squares@.len(),
            },
    {
        let idx = x + self.dimension * y;
        if idx < self.squares.len() {
            Some(&self.squares[idx])
        } else {
            None
        }
    }

    /// The square at a coordinate, as [`Board::get_piece`].
    pub fn at(&self, coord: &Coordinate) -> (r: Option<&Square>)
        requires
            coord.x + self.dimension * coord.y <= usize::MAX,
        ensures
            match r {
                Some(sq) => coord.x + self.dimension * coord.y < self.squares@.len() && *sq
                    == self.squares@[coord.x + self.dimension * coord.y],
                None => coord.x + self.dimension * coord.y >= self.squares@.len(),
            },
    {
        self.get_piece(coord.x, coord.y)
    }

    /// Put a piece of `p` on the square at (x, y), without checking
    /// whether that is a legal play. A position past the end of the board
    /// is rejected as `OutOfRange`.
    pub fn set_piece(&mut self, x: usize, y: usize, p: Piece) -> (r: Result<(), OthelloError>)
        requires
            x + old(self).dimension * y <= usize::MAX,
        ensures
            final(self).dimension == old(self).dimension,
            old(self).wf() ==> final(self).wf(),
            match r {
                Ok(()) => x + old(self).dimension * y < old(self).squares@.len()
                    && final(self).squares@ == old(self).squares@.update(
                    x + old(self).dimension * y,
                    Square {
                        status: Status::Occupied(p),
                        coord: old(self).squares@[x + old(self).dimension * y].coord,
                    },
                ),
                Err(e) => e == OthelloError::OutOfRange
                    && x + old(self).dimension * y >= old(self).squares@.len()
                    && *final(self) == *old(self),
            },
    {
        let idx = x + self.dimension * y;
        if idx >= self.squares.len() {
            return Err(OthelloError::OutOfRange);
        }
        let c = self.squares[idx].coord;
        self.squares.set(idx, Square { status: Status::Occupied(p), coord: c });
        Ok(())
    }

    /// The coordinates of the squares whose status is `want`, in row-major
    /// order.
    fn collect_with_status(&self, want: Status) -> (v: Vec<Coordinate>)
        requires
            self.wf(),
        ensures
            v@.len() == count_status(self.squares@, want),
            forall|k: int|
                0 <= k < v@.len() ==> ((#[trigger] v@[k]).x < self.dimension && v@[k].y
                    < self.dimension && self.squares@[v@[k].x + self.dimension * v@[k].y].status
                    == want),
            forall|k1: int, k2: int|
                0 <= k1 < k2 < v@.len() ==> (#[trigger] v@[k1]).x + self.dimension * v@[k1].y < (
                #[trigger] v@[k2]).x + self.dimension * v@[k2].y,
            forall|i: int|
                0 <= i < self.squares@.len() && (#[trigger] self.squares@[i]).status == want
                    ==> v@.contains(
                    Coordinate {
                        x: (i % (self.dimension as int)) as usize,
                        y: (i / (self.dimension as int)) as usize,
                    },
                ),
    {
        proof {
            broadcast use vstd::seq_lib::lemma_seq_contains_after_push;

        }
        let dim = self.dimension;
        let n = self.squares.len();
        let mut v: Vec<Coordinate> = Vec::new();
        let mut i: usize = 0;
        while i < n
            invariant
                self.wf(),
                i <= n,
                dim == self.dimension,
                n == self.squares@.len(),
                v@.len() == count_status(self.squares@.subrange(0, i as int), want),
                forall|k: int|
                    0 <= k < v@.len() ==> ((#[trigger] v@[k]).x < dim && v@[k].y < dim && v@[k].x
                        + dim * v@[k].y < i && self.squares@[v@[k].x + dim * v@[k].y].status
                        == want),
                forall|k1: int, k2: int|
                    0 <= k1 < k2 < v@.len() ==> (#[trigger] v@[k1]).x + dim * v@[k1].y < (
                    #[trigger] v@[k2]).x + dim * v@[k2].y,
                forall|t: int|
                    0 <= t < i && (#[trigger] self.squares@[t]).status == want ==> v@.contains(
                        Coordinate {
                            x: (t % (dim as int)) as usize,
                            y: (t / (dim as int)) as usize,
                        },
                    ),
            decreases n - i,
        {
            proof {
                assert(dim > 0) by (nonlinear_arith)
                    requires
                        i < n,
                        n == dim * dim,
                ;
                assert(self.squares@.subrange(0, (i + 1) as int).drop_last() =~= self.squares@.subrange(
                    0,
                    i as int,
                ));
                assert(self.squares@.subrange(0, (i + 1) as int).last() == self.squares@[i as int]);
                lemma_fundamental_div_mod(i as int, dim as int);
                assert((i as int) / (dim as int) < dim && (i as int) % (dim as int) < dim) by (
                nonlinear_arith)
                    requires
                        dim > 0,
                        i < n,
                        n == dim * dim,
                ;
            }
            let x = i % dim;
            let y = i / dim;
            let ghost vold = v@;
            if self.squares[i].status == want {
                v.push(Coordinate { x: x, y: y });
                proof {
                    assert forall|c: Coordinate| vold.contains(c) implies v@.contains(c) by {
                        vstd::seq_lib::lemma_seq_contains_after_push(
                            vold,
                            Coordinate { x: x, y: y },
                            c,
                        );
                    }
                    vstd::seq_lib::lemma_seq_contains_after_push(
                        vold,
                        Coordinate { x: x, y: y },
                        Coordinate { x: x, y: y },
                    );
                }
            }
            i = i + 1;
        }
        proof {
            assert(self.squares@.subrange(0, n as int) =~= self.squares@);
        }
        v
    }

    /// The coordinates of all empty squares, in row-major order.
    pub fn free_squares(&self) -> (v: Vec<Coordinate>)
        requires
            self.wf(),
        ensures
            v@.len() == count_status(self.squares@, Status::Empty),
            forall|k: int|
                0 <= k < v@.len() ==> ((#[trigger] v@[k]).x < self.dimension && v@[k].y
                    < self.dimension && self.squares@[v@[k].x + self.dimension * v@[k].y].status
                    == Status::Empty),
            forall|k1: int, k2: int|
                0 <= k1 < k2 < v@.len() ==> (#[trigger] v@[k1]).x + self.dimension * v@[k1].y < (
                #[trigger] v@[k2]).x + self.dimension * v@[k2].y,
            forall|i: int|
                0 <= i < self.squares@.len() && (#[trigger] self.squares@[i]).status
                    == Status::Empty ==> v@.contains(
                    Coordinate {
                        x: (i % (self.dimension as int)) as usize,
                        y: (i / (self.dimension as int)) as usize,
                    },
                ),
    {
        self.collect_with_status(Status::Empty)
    }

    /// The coordinates of all squares holding a piece of `p`, in row-major
    /// order.
    pub fn occupied_squares(&self, p: Piece) -> (v: Vec<Coordinate>)
        requires
            self.wf(),
        ensures
            v@.len() == count_status(self.squares@, Status::Occupied(p)),
            forall|k: int|
                0 <= k < v@.len() ==> ((#[trigger] v@[k]).x < self.dimension && v@[k].y
                    < self.dimension && self.squares@[v@[k].x + self.dimension * v@[k].y].status
                    == Status::Occupied(p)),
            forall|k1: int, k2: int|
                0 <= k1 < k2 < v@.len() ==> (#[trigger] v@[k1]).x + self.dimension * v@[k1].y < (
                #[trigger] v@[k2]).x + self.dimension * v@[k2].y,
            forall|i: int|
                0 <= i < self.squares@.len() && (#[trigger] self.squares@[i]).status
                    == Status::Occupied(p) ==> v@.contains(
                    Coordinate {
                        x: (i % (self.dimension as int)) as usize,
                        y: (i / (self.dimension as int)) as usize,
                    },
                ),
    {
        self.collect_with_status(Status::Occupied(p))
    }

    /// The empty squares adjacent to at least one square holding a piece
    /// of `player`, in row-major order: the candidate squares that a move
    /// of `player` could possibly land on. Whether such a square really is
    /// a legal move is the bitboard move generator's question.
    pub fn allowed_moves(&self, player: Piece) -> (v: Vec<Coordinate>)
        requires
            self.wf(),
        ensures
            forall|k: int|
                0 <= k < v@.len() ==> ((#[trigger] v@[k]).x < self.dimension && v@[k].y
                    < self.dimension && self.squares@[v@[k].x + self.dimension * v@[k].y].status
                    == Status::Empty && self.spec_has_adjacent_piece(
                    v@[k].x as int,
                    v@[k].y as int,
                    player,
                )),
            forall|k1: int, k2: int|
                0 <= k1 < k2 < v@.len() ==> (#[trigger] v@[k1]).x + self.dimension * v@[k1].y < (
                #[trigger] v@[k2]).x + self.dimension * v@[k2].y,
            forall|i: int|
                0 <= i < self.squares@.len() && (#[trigger] self.squares@[i]).status
                    == Status::Empty && self.spec_has_adjacent_piece(
                    i % (self.dimension as int),
                    i / (self.dimension as int),
                    player,
                ) ==> v@.contains(
                    Coordinate {
                        x: (i % (self.dimension as int)) as usize,
                        y: (i / (self.dimension as int)) as usize,
                    },
                ),
    {
        let dim = self.dimension;
        let n = self.squares.len();
        let mut v: Vec<Coordinate> = Vec::new();
        let mut i: usize = 0;
        while i < n
            invariant
                self.wf(),
                i <= n,
                dim == self.dimension,
                n == self.squares@.len(),
                forall|k: int|
                    0 <= k < v@.len() ==> ((#[trigger] v@[k]).x < dim && v@[k].y < dim && v@[k].x
                        + dim * v@[k].y < i && self.squares@[v@[k].x + dim * v@[k].y].status
                        == Status::Empty && self.spec_has_adjacent_piece(
                        v@[k].x as int,
                        v@[k].y as int,
                        player,
                    )),
                forall|k1: int, k2: int|
                    0 <= k1 < k2 < v@.len() ==> (#[trigger] v@[k1]).x + dim * v@[k1].y < (
                    #[trigger] v@[k2]).x + dim * v@[k2].y,
                forall|t: int|
                    0 <= t < i && (#[trigger] self.squares@[t]).status == Status::Empty
                        && self.spec_has_adjacent_piece(
                        t % (dim as int),
                        t / (dim as int),
                        player,
                    ) ==> v@.contains(
                        Coordinate {
                            x: (t % (dim as int)) as usize,
                            y: (t / (dim as int)) as usize,
                        },
                    ),
            decreases n - i,
        {
            proof {
                assert(dim > 0) by (nonlinear_arith)
                    requires
                        i < n,
                        n == dim * dim,
                ;
                lemma_fundamental_div_mod(i as int, dim as int);
                assert((i as int) / (dim as int) < dim && (i as int) % (dim as int) < dim) by (
                nonlinear_arith)
                    requires
                        dim > 0,
                        i < n,
                        n == dim * dim,
                ;
            }
            let x = i % dim;
            let y = i / dim;
            if self.squares[i].status == Status::Empty {
                let here = Coordinate { x: x, y: y };
                let adj = here.adjacent(dim);
                let mut found = false;
                let mut k: usize = 0;
                while k < adj.len()
                    invariant
                        self.wf(),
                        dim == self.dimension,
                        n == self.squares@.len(),
                        x < dim,
                        y < dim,
                        k <= adj@.len(),
                        forall|j: int|
                            0 <= j < adj@.len() ==> crate::coordinate::spec_adjacent(
                                x as int,
                                y as int,
                                (#[trigger] adj@[j]).x as int,
                                adj@[j].y as int,
                                dim as int,
                            ),
                        forall|a: int, b: int|
                            crate::coordinate::spec_adjacent(x as int, y as int, a, b, dim as int)
                                ==> exists|j: int|
                                0 <= j < adj@.len() && (#[trigger] adj@[j]).x == a && adj@[j].y
                                    == b,
                        found <==> exists|j: int|
                            0 <= j < k && (#[trigger] self.squares@[adj@[j].x + (dim as int)
                                * adj@[j].y]).status == Status::Occupied(player),
                    decreases adj@.len() - k,
                {
                    let c = adj[k];
                    proof {
                        assert(c.x + (dim as int) * c.y < dim * dim) by (nonlinear_arith)
                            requires
                                c.x < dim,
                                c.y < dim,
                                dim > 0,
                        ;
                    }
                    let idx2 = c.x + dim * c.y;
                    if self.squares[idx2].status == Status::Occupied(player) {
                        found = true;
                    }
                    k = k + 1;
                }
                proof {
                    if found {
                        let j = choose|j: int|
                            0 <= j < adj@.len() && (#[trigger] self.squares@[adj@[j].x + (
                            dim as int) * adj@[j].y]).status == Status::Occupied(player);
                        assert(self.spec_has_adjacent_piece(x as int, y as int, player)) by {
                            assert(crate::coordinate::spec_adjacent(
                                x as int,
                                y as int,
                                adj@[j].x as int,
                                adj@[j].y as int,
                                dim as int,
                            ));
                        }
                    } else {
                        if self.spec_has_adjacent_piece(x as int, y as int, player) {
                            let (a, b) = choose|a: int, b: int|
                                crate::coordinate::spec_adjacent(
                                    x as int,
                                    y as int,
                                    a,
                                    b,
                                    dim as int,
                                ) && (#[trigger] self.squares@[a + (dim as int) * b]).status
                                    == Status::Occupied(player);
                            let j = choose|j: int|
                                0 <= j < adj@.len() && (#[trigger] adj@[j]).x == a && adj@[j].y
                                    == b;
                            assert(false);
                        }
                    }
                }
                let ghost vold = v@;
                if found {
                    v.push(here);
                    proof {
                        assert forall|c: Coordinate| vold.contains(c) implies v@.contains(c) by {
                            vstd::seq_lib::lemma_seq_contains_after_push(vold, here, c);
                        }
                        vstd::seq_lib::lemma_seq_contains_after_push(vold, here, here);
                    }
                }
            }
            i = i + 1;
        }
        v
    }

    /// The number of squares holding a piece of `p`.
    pub fn value(&self, p: Piece) -> (r: usize)
        requires
            self.wf(),
        ensures
            r == count_status(self.squares@, Status::Occupied(p)),
    {
        let v = self.occupied_squares(p);
        v.len()
    }
}


/// A character that a board description may hold: a piece mark, a free
/// square, a row separator, or blank padding.
pub open spec fn load_char_ok(c: char) -> bool {
    c == 'B' || c == 'W' || c == '-' || c == '\n' || c == ' ' || c == '\t' || c == '\r'
}

/// Every character of the description is one the loader understands.
pub open spec fn load_ok(s: Seq<char>) -> bool {
    forall|i: int| 0 <= i < s.len() ==> load_char_ok(#[trigger] s[i])
}

/// The column the loader stands on after reading `s`: piece and
/// free-square marks advance it, a newline resets it, blanks leave it.
pub open spec fn load_x(s: Seq<char>) -> int
    decreases s.len(),
{
    if s.len() == 0 {
        0
    } else {
        let c = s.last();
        if c == '\n' {
            0
        } else if c == 'B' || c == 'W' || c == '-' {
            load_x(s.drop_last()) + 1
        } else {
            load_x(s.drop_last())
        }
    }
}

/// The row the loader stands on after reading `s`: the number of row
/// separators read.
pub open spec fn load_y(s: Seq<char>) -> int
    decreases s.len(),
{
    if s.len() == 0 {
        0
    } else {
        load_y(s.drop_last()) + if s.last() == '\n' {
            1int
        } else {
            0int
        }
    }
}

/// The board dimension a description asks for: its number of rows.
pub open spec fn load_dimension(s: Seq<char>) -> int {
    if s.len() == 0 {
        0
    } else {
        load_y(s) + 1
    }
}

/// The pieces that a description places, in reading order.
pub open spec fn load_placements(s: Seq<char>) -> Seq<(int, int, Piece)>
    decreases s.len(),
{
    if s.len() == 0 {
        Seq::empty()
    } else {
        let ps = load_placements(s.drop_last());
        let c = s.last();
        if c == 'B' {
            ps.push((load_x(s.drop_last()), load_y(s.drop_last()), Piece::Black))
        } else if c == 'W' {
            ps.push((load_x(s.drop_last()), load_y(s.drop_last()), Piece::White))
        } else {
            ps
        }
    }
}

/// The status that a list of placements leaves on the square (x, y): the
/// last piece placed there, if any.
pub open spec fn placed_status(ps: Seq<(int, int, Piece)>, x: int, y: int) -> Status
    decreases ps.len(),
{
    if ps.len() == 0 {
        Status::Empty
    } else if ps.last().0 == x && ps.last().1 == y {
        Status::Occupied(ps.last().2)
    } else {
        placed_status(ps.drop_last(), x, y)
    }
}

/// Every placement lies on the dim-by-dim board.
pub open spec fn placements_in_range(ps: Seq<(int, int, Piece)>, dim: int) -> bool {
    forall|k: int| 0 <= k < ps.len() ==> (0 <= (#[trigger] ps[k]).0 < dim && 0 <= ps[k].1 < dim)
}

/// The placements of a prefix of a description come first among the
/// placements of the whole description.
proof fn lemma_load_placements_prefix(s: Seq<char>, i: int)
    requires
        0 <= i <= s.len(),
    ensures
        load_placements(s.subrange(0, i)).len() <= load_placements(s).len(),
        forall|k: int|
            0 <= k < load_placements(s.subrange(0, i)).len() ==> #[trigger] load_placements(
                s.subrange(0, i),
            )[k] == load_placements(s)[k],
    decreases s.len() - i,
{
    if i == s.len() {
        assert(s.subrange(0, i) =~= s);
    } else {
        lemma_load_placements_prefix(s, i + 1);
        assert(s.subrange(0, i + 1).drop_last() =~= s.subrange(0, i));
        assert(s.subrange(0, i + 1).last() == s[i]);
        let a = load_placements(s.subrange(0, i));
        let b = load_placements(s.subrange(0, i + 1));
        let c = s[i];
        if c == 'B' {
            assert(b == a.push((load_x(s.subrange(0, i)), load_y(s.subrange(0, i)), Piece::Black)));
        } else if c == 'W' {
            assert(b == a.push((load_x(s.subrange(0, i)), load_y(s.subrange(0, i)), Piece::White)));
        } else {
            assert(b == a);
        }
        assert forall|k: int| 0 <= k < a.len() implies #[trigger] a[k] == load_placements(s)[k] by {
            assert(a[k] == b[k]);
            assert(b[k] == load_placements(s)[k]);
        }
    }
}

impl Board {
    /// Load a board from a drawing of it: rows separated by newlines,
    /// each square spelled 'B', 'W' or '-', with blanks, tabs and
    /// carriage returns ignored. The number of rows fixes the board
    /// dimension. Any other character is an `InvalidFormat` error; an odd
    /// or oversized dimension is `UnsupportedDimension`; a piece placed
    /// past the board is `OutOfRange`.
    #[verifier::rlimit(50)]
    pub fn load(data: &str) -> (r: Result<Board, OthelloError>)
        ensures
            match r {
                Ok(b) => {
                    let dim = load_dimension(data@);
                    load_ok(data@) && dim % 2 == 0 && dim * dim <= usize::MAX
                        && placements_in_range(load_placements(data@), dim) && b.wf()
                        && b.dimension == dim && (forall|t: int|
                        0 <= t < b.squares@.len() ==> (#[trigger] b.squares@[t]).status
                            == placed_status(load_placements(data@), t % dim, t / dim))
                },
                Err(e) => {
                    let dim = load_dimension(data@);
                    (e == OthelloError::InvalidFormat && !load_ok(data@)) || (e
                        == OthelloError::UnsupportedDimension && load_ok(data@) && (dim % 2 != 0
                        || dim * dim > usize::MAX)) || (e == OthelloError::OutOfRange && load_ok(
                        data@,
                    ) && dim % 2 == 0 && dim * dim <= usize::MAX && !placements_in_range(
                        load_placements(data@),
                        dim,
                    ))
                },
            },
    {
        let len = data.unicode_len();

        // first pass: check the characters and count the rows
        let mut nl: usize = 0;
        let mut i: usize = 0;
        while i < len
            invariant
                i <= len,
                len == data@.len(),
                nl <= i,
                forall|t: int| 0 <= t < i ==> load_char_ok(#[trigger] data@[t]),
                nl == load_y(data@.subrange(0, i as int)),
            decreases len - i,
        {
            proof {
                assert(data@.subrange(0, (i + 1) as int).drop_last() =~= data@.subrange(
                    0,
                    i as int,
                ));
                assert(data@.subrange(0, (i + 1) as int).last() == data@[i as int]);
            }
            let c = data.get_char(i);
            if c == '\n' {
                nl = nl + 1;
            } else if c == 'B' || c == 'W' || c == '-' || c == ' ' || c == '\t' || c == '\r' {
            } else {
                return Err(OthelloError::InvalidFormat);
            }
            i = i + 1;
        }
        proof {
            assert(data@.subrange(0, len as int) =~= data@);
        }
        if len == 0 {
            // an empty description is an empty zero-dimension board
            let board = match Board::new(0) {
                Ok(b) => b,
                Err(_) => {
                    return Err(OthelloError::UnsupportedDimension);
                },
            };
            return Ok(board);
        }
        if nl == usize::MAX {
            proof {
                assert((nl + 1) * (nl + 1) > usize::MAX) by (nonlinear_arith)
                    requires
                        nl == usize::MAX,
                ;
            }
            return Err(OthelloError::UnsupportedDimension);
        }
        let dim = nl + 1;
        if dim % 2 != 0 {
            return Err(OthelloError::UnsupportedDimension);
        }
        proof {
            lemma_fundamental_div_mod(usize::MAX as int, dim as int);
        }
        if dim > usize::MAX / dim {
            proof {
                assert(dim * dim > usize::MAX) by (nonlinear_arith)
                    requires
                        dim > usize::MAX / dim,
                        dim >= 1,
                        usize::MAX == (dim * ((usize::MAX as int) / (dim as int))) + ((
                        usize::MAX as int) % (dim as int)),
                        0 <= (usize::MAX as int) % (dim as int),
                        (usize::MAX as int) % (dim as int) < dim,
                ;
            }
            return Err(OthelloError::UnsupportedDimension);
        }
        proof {
            assert(dim * dim <= usize::MAX) by (nonlinear_arith)
                requires
                    dim <= usize::MAX / dim,
                    dim >= 1,
                    usize::MAX == (dim * ((usize::MAX as int) / (dim as int))) + ((
                    usize::MAX as int) % (dim as int)),
                    0 <= (usize::MAX as int) % (dim as int),
                    (usize::MAX as int) % (dim as int) < dim,
            ;
        }
        let mut board = match Board::new(dim) {
            Ok(b) => b,
            Err(_) => {
                return Err(OthelloError::UnsupportedDimension);
            },
        };

        // second pass: walk the drawing and place the pieces
        let mut x: usize = 0;
        let mut y: usize = 0;
        let mut i: usize = 0;
        while i < len
            invariant
                i <= len,
                len == data@.len(),
                load_ok(data@),
                x <= i,
                y <= i,
                x == load_x(data@.subrange(0, i as int)),
                y == load_y(data@.subrange(0, i as int)),
                dim >= 1,
                dim == load_dimension(data@),
                dim % 2 == 0,
                dim * dim <= usize::MAX,
                board.wf(),
                board.dimension == dim,
                board.squares@.len() == dim * dim,
                placements_in_range(load_placements(data@.subrange(0, i as int)), dim as int),
                forall|t: int|
                    0 <= t < board.squares@.len() ==> (#[trigger] board.squares@[t]).status
                        == placed_status(
                        load_placements(data@.subrange(0, i as int)),
                        t % (dim as int),
                        t / (dim as int),
                    ),
            decreases len - i,
        {
            proof {
                assert(data@.subrange(0, (i + 1) as int).drop_last() =~= data@.subrange(
                    0,
                    i as int,
                ));
                assert(data@.subrange(0, (i + 1) as int).last() == data@[i as int]);
            }
            let c = data.get_char(i);
            if c == '\n' {
                y = y + 1;
                x = 0;
            } else if c == 'B' || c == 'W' {
                let p = if c == 'B' {
                    Piece::Black
                } else {
                    Piece::White
                };
                let ghost before = load_placements(data@.subrange(0, i as int));
                let ghost after = load_placements(data@.subrange(0, (i + 1) as int));
                proof {
                    assert(after == before.push((x as int, y as int, p)));
                    assert(after.drop_last() =~= before);
                    assert(after.last() == (x as int, y as int, p));
                }
                if x >= dim || y >= dim {
                    proof {
                        lemma_load_placements_prefix(data@, (i + 1) as int);
                        assert(after[before.len() as int] == (x as int, y as int, p));
                        assert(after.len() <= load_placements(data@).len());
                        assert(load_placements(data@)[before.len() as int] == (
                        x as int,
                        y as int,
                        p,
                        ));
                        assert(!placements_in_range(load_placements(data@), dim as int));
                        assert(load_dimension(data@) == dim);
                    }
                    return Err(OthelloError::OutOfRange);
                }
                proof {
                    assert(x + (dim as int) * y < dim * dim) by (nonlinear_arith)
                        requires
                            x < dim,
                            y < dim,
                            dim >= 1,
                    ;
                }
                let idx = x + dim * y;
                let coord = board.squares[idx].coord;
                let ghost sq_old = board.squares@;
                board.squares.set(idx, Square { status: Status::Occupied(p), coord: coord });
                proof {
                    assert(board.squares@ == sq_old.update(
                        idx as int,
                        Square { status: Status::Occupied(p), coord: coord },
                    ));
                    assert forall|t: int| 0 <= t < board.squares@.len() implies ((
                    #[trigger] board.squares@[t]).coord == sq_old[t].coord && sq_old[t].coord.x == t
                        % (dim as int) && sq_old[t].coord.y == t / (dim as int)) by {
                        assert(sq_old[t].coord.x == t % (dim as int) && sq_old[t].coord.y == t / (
                        dim as int));
                        if t != idx {
                            assert(board.squares@[t] == sq_old[t]);
                        } else {
                            assert(board.squares@[t].coord == coord);
                            assert(coord == sq_old[t].coord);
                        }
                    }
                    assert(board.wf());
                    assert forall|t: int| 0 <= t < board.squares@.len() implies (
                    #[trigger] board.squares@[t]).status == placed_status(
                        after,
                        t % (dim as int),
                        t / (dim as int),
                    ) by {
                        lemma_fundamental_div_mod(t, dim as int);
                        if t == idx {
                            lemma_fundamental_div_mod_converse(t, dim as int, y as int, x as int);
                        } else {
                            assert(!(t % (dim as int) == x && t / (dim as int) == y)) by (
                            nonlinear_arith)
                                requires
                                    t != x + (dim as int) * y,
                                    t == (dim as int) * (t / (dim as int)) + t % (dim as int),
                            ;
                        }
                    }
                }
                x = x + 1;
            } else if c == '-' {
                x = x + 1;
            }
            i = i + 1;
        }
        proof {
            assert(data@.subrange(0, len as int) =~= data@);
        }
        Ok(board)
    }
}

} // verus!
