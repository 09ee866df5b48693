//! A 64-bit occupancy mask and the flood-fill legal-move generator.
//!
//! The model of a mask is the predicate [`cell`]: which grid squares carry
//! a disc. A square at grid (x, y), with x the column and y the row, both
//! counted from 0, owns bit index `63 - (x + 8*y)`; so bit 63 is A1 at
//! (0, 0) and bit 0 is H8 at (7, 7).

use vstd::prelude::*;

use crate::coordinate::algebraic_code;
use crate::coordinate::digits_value;
use crate::coordinate::is_algebraic;
use crate::coordinate::letter_value;
use crate::coordinate::Coordinate;
use crate::direction::Direction;
use crate::error::OthelloError;
use crate::point::Point;

verus! {

/// (x, y) lies on the 8x8 board.
pub open spec fn in_bounds(x: int, y: int) -> bool {
    0 <= x < 8 && 0 <= y < 8
}

/// The bit index that the square at grid (x, y) owns.
pub open spec fn bit_index(x: int, y: int) -> int {
    63 - (x + 8 * y)
}

/// Bit `b` of the mask `m` is set.
pub open spec fn nth_bit(m: u64, b: u64) -> bool {
    (m >> b) & 1u64 == 1u64
}

/// The square at grid (x, y) is occupied in the mask `m`.
pub open spec fn cell(m: u64, x: int, y: int) -> bool {
    in_bounds(x, y) && nth_bit(m, bit_index(x, y) as u64)
}

/// The mask of the squares occupied by neither side.
pub open spec fn empty_mask(own: u64, opp: u64) -> u64 {
    !(own | opp)
}

/// How the boolean connectives act on single bits of a mask.
proof fn lemma_bit_ops()
    by (bit_vector)
    ensures
        forall|a: u64, b: u64, n: u64|
            n < 64 ==> (#[trigger] nth_bit(a & b, n) == (nth_bit(a, n) && nth_bit(b, n))),
        forall|a: u64, b: u64, n: u64|
            n < 64 ==> (#[trigger] nth_bit(a | b, n) == (nth_bit(a, n) || nth_bit(b, n))),
        forall|a: u64, n: u64| n < 64 ==> (#[trigger] nth_bit(!a, n) == !nth_bit(a, n)),
        forall|n: u64| n < 64 ==> !#[trigger] nth_bit(0u64, n),
        forall|n: u64| n < 64 ==> #[trigger] nth_bit(0xFFFF_FFFF_FFFF_FFFFu64, n),
{
}

/// Bitwise or builds unions: it is associative and 0 is its unit.
proof fn lemma_or_algebra()
    by (bit_vector)
    ensures
        forall|a: u64, b: u64, c: u64| #[trigger] ((a | b) | c) == a | (b | c),
        forall|a: u64| #[trigger] (a | 0u64) == a,
{
}

/// Shifting a mask one step moves every disc by the direction's delta:
/// the square (x, y) is occupied afterwards exactly when the square one
/// step against the direction was occupied before.
pub proof fn lemma_shift_cell(d: Direction, m: u64, x: int, y: int)
    requires
        in_bounds(x, y),
    ensures
        cell(d.spec_shift(m), x, y) == cell(m, x - d.delta_x(), y - d.delta_y()),
{
    let xb = x as u64;
    let yb = y as u64;
    let b = bit_index(x, y) as u64;
    match d {
        Direction::E => {
            assert(nth_bit((m >> 1) & 0x7F7F7F7F7F7F7F7Fu64, b) == (xb >= 1 && nth_bit(
                m,
                (b + 1) as u64,
            ))) by (bit_vector)
                requires
                    xb < 8 && yb < 8 && b == 63 - (xb + 8 * yb),
            ;
        },
        Direction::SE => {
            assert(nth_bit((m >> 9) & 0x007F7F7F7F7F7F7Fu64, b) == (xb >= 1 && yb >= 1 && nth_bit(
                m,
                (b + 9) as u64,
            ))) by (bit_vector)
                requires
                    xb < 8 && yb < 8 && b == 63 - (xb + 8 * yb),
            ;
        },
        Direction::S => {
            assert(nth_bit((m >> 8) & 0xFFFFFFFFFFFFFFFFu64, b) == (yb >= 1 && nth_bit(
                m,
                (b + 8) as u64,
            ))) by (bit_vector)
                requires
                    xb < 8 && yb < 8 && b == 63 - (xb + 8 * yb),
            ;
        },
        Direction::SW => {
            assert(nth_bit((m >> 7) & 0x00FEFEFEFEFEFEFEu64, b) == (xb <= 6 && yb >= 1 && nth_bit(
                m,
                (b + 7) as u64,
            ))) by (bit_vector)
                requires
                    xb < 8 && yb < 8 && b == 63 - (xb + 8 * yb),
            ;
        },
        Direction::W => {
            assert(nth_bit((m << 1) & 0xFEFEFEFEFEFEFEFEu64, b) == (xb <= 6 && nth_bit(
                m,
                (b - 1) as u64,
            ))) by (bit_vector)
                requires
                    xb < 8 && yb < 8 && b == 63 - (xb + 8 * yb),
            ;
        },
        Direction::NW => {
            assert(nth_bit((m << 9) & 0xFEFEFEFEFEFEFE00u64, b) == (xb <= 6 && yb <= 6 && nth_bit(
                m,
                (b - 9) as u64,
            ))) by (bit_vector)
                requires
                    xb < 8 && yb < 8 && b == 63 - (xb + 8 * yb),
            ;
        },
        Direction::N => {
            assert(nth_bit((m << 8) & 0xFFFFFFFFFFFFFFFFu64, b) == (yb <= 6 && nth_bit(
                m,
                (b - 8) as u64,
            ))) by (bit_vector)
                requires
                    xb < 8 && yb < 8 && b == 63 - (xb + 8 * yb),
            ;
        },
        Direction::NE => {
            assert(nth_bit((m << 7) & 0x7F7F7F7F7F7F7F00u64, b) == (xb >= 1 && yb <= 6 && nth_bit(
                m,
                (b - 7) as u64,
            ))) by (bit_vector)
                requires
                    xb < 8 && yb < 8 && b == 63 - (xb + 8 * yb),
            ;
        },
    }
}

/// A square of the empty mask is occupied exactly when neither side holds
/// the square.
pub proof fn lemma_empty_cell(own: u64, opp: u64, x: int, y: int)
    ensures
        cell(empty_mask(own, opp), x, y) == (in_bounds(x, y) && !cell(own, x, y) && !cell(
            opp,
            x,
            y,
        )),
{
    lemma_bit_ops();
}

/// From the square (x, y), walking further against direction `d`: the
/// square itself and the `extra` squares after it hold opponent discs, and
/// the square right behind that run holds one of the mover's own discs.
pub open spec fn opponent_run_anchored(
    own: u64,
    opp: u64,
    d: Direction,
    x: int,
    y: int,
    extra: nat,
) -> bool
    decreases extra,
{
    if extra == 0 {
        cell(opp, x, y) && cell(own, x - d.delta_x(), y - d.delta_y())
    } else {
        cell(opp, x, y) && opponent_run_anchored(
            own,
            opp,
            d,
            x - d.delta_x(),
            y - d.delta_y(),
            (extra - 1) as nat,
        )
    }
}

/// The square one step against `d` from (x, y) starts an unbroken run of
/// opponent discs terminated by an own disc.
pub open spec fn direction_has_capture(own: u64, opp: u64, d: Direction, x: int, y: int) -> bool {
    exists|extra: nat|
        #[trigger] opponent_run_anchored(own, opp, d, x - d.delta_x(), y - d.delta_y(), extra)
}

/// Placing a disc on (x, y) is a legal move for the side whose discs are
/// `own`: the square is empty, and in at least one direction the adjacent
/// square starts an unbroken run of opponent discs terminated by an own
/// disc.
pub open spec fn is_legal_move(own: u64, opp: u64, x: int, y: int) -> bool {
    in_bounds(x, y) && !cell(own, x, y) && !cell(opp, x, y) && (exists|d: Direction|
        #[trigger] direction_has_capture(own, opp, d, x, y))
}

/// The frontier of the flood fill in direction `d` after `j` extension
/// steps: opponent discs that end a run of `j + 1` opponent discs anchored
/// on an own disc against `d`.
pub open spec fn frontier(own: u64, opp: u64, d: Direction, j: nat) -> u64
    decreases j,
{
    if j == 0 {
        opp & d.spec_shift(own)
    } else {
        opp & d.spec_shift(frontier(own, opp, d, (j - 1) as nat))
    }
}

/// The candidate moves that the flood fill in direction `d` has found
/// after `j` loop iterations.
pub open spec fn found_moves(own: u64, opp: u64, d: Direction, j: nat) -> u64
    decreases j,
{
    if j == 0 {
        0u64
    } else {
        found_moves(own, opp, d, (j - 1) as nat) | (empty_mask(own, opp) & d.spec_shift(
            frontier(own, opp, d, (j - 1) as nat),
        ))
    }
}

/// A square of the frontier after `j` steps is exactly a square that ends
/// an anchored opponent run with `j` squares after it.
proof fn lemma_frontier_cell(own: u64, opp: u64, d: Direction, j: nat, x: int, y: int)
    ensures
        cell(frontier(own, opp, d, j), x, y) == opponent_run_anchored(own, opp, d, x, y, j),
    decreases j,
{
    lemma_bit_ops();
    if in_bounds(x, y) {
        lemma_shift_cell(d, if j == 0 {
            own
        } else {
            frontier(own, opp, d, (j - 1) as nat)
        }, x, y);
        if j > 0 {
            lemma_frontier_cell(own, opp, d, (j - 1) as nat, x - d.delta_x(), y - d.delta_y());
        }
    }
}

/// An anchored opponent run keeps its head on the board and pushes the
/// anchor `extra + 1` steps further, so it never has more than six squares
/// after its head: nine collinear squares do not fit on an 8x8 board.
proof fn lemma_run_bound(own: u64, opp: u64, d: Direction, x: int, y: int, extra: nat)
    requires
        opponent_run_anchored(own, opp, d, x, y, extra),
    ensures
        in_bounds(x, y),
        d.delta_x() == 1 ==> x - extra >= 1,
        d.delta_x() == -1 ==> x + extra <= 6,
        d.delta_y() == 1 ==> y - extra >= 1,
        d.delta_y() == -1 ==> y + extra <= 6,
        extra <= 6,
    decreases extra,
{
    if extra == 0 {
        assert(cell(own, x - d.delta_x(), y - d.delta_y()));
    } else {
        lemma_run_bound(own, opp, d, x - d.delta_x(), y - d.delta_y(), (extra - 1) as nat);
    }
    assert(d.delta_x() == 1 || d.delta_x() == -1 || d.delta_y() == 1 || d.delta_y() == -1);
}

/// A run with `e` squares after its head contains, further along, a run
/// with only `s` squares after its head, for any s <= e.
proof fn lemma_run_peel_to(own: u64, opp: u64, d: Direction, x: int, y: int, e: nat, s: nat)
    requires
        opponent_run_anchored(own, opp, d, x, y, e),
        s <= e,
    ensures
        exists|x2: int, y2: int| opponent_run_anchored(own, opp, d, x2, y2, s),
    decreases e,
{
    if e == s {
        assert(opponent_run_anchored(own, opp, d, x, y, s));
    } else {
        lemma_run_peel_to(own, opp, d, x - d.delta_x(), y - d.delta_y(), (e - 1) as nat, s);
    }
}

/// A square of the fill's accumulator after `j` iterations is exactly an
/// empty square whose neighbour against `d` ends an anchored opponent run
/// with fewer than `j` squares after it.
proof fn lemma_found_moves_cell(own: u64, opp: u64, d: Direction, j: nat, x: int, y: int)
    ensures
        cell(found_moves(own, opp, d, j), x, y) == (cell(empty_mask(own, opp), x, y) && exists|
            t: nat,
        |
            t < j && #[trigger] opponent_run_anchored(
                own,
                opp,
                d,
                x - d.delta_x(),
                y - d.delta_y(),
                t,
            )),
    decreases j,
{
    lemma_bit_ops();
    if j == 0 {
    } else {
        let jm = (j - 1) as nat;
        lemma_found_moves_cell(own, opp, d, jm, x, y);
        if in_bounds(x, y) {
            lemma_shift_cell(d, frontier(own, opp, d, jm), x, y);
            lemma_frontier_cell(own, opp, d, jm, x - d.delta_x(), y - d.delta_y());
        }
        if cell(found_moves(own, opp, d, j), x, y) {
            if !cell(found_moves(own, opp, d, jm), x, y) {
                assert(opponent_run_anchored(own, opp, d, x - d.delta_x(), y - d.delta_y(), jm));
            }
        }
        if cell(empty_mask(own, opp), x, y) && (exists|t: nat|
            t < j && #[trigger] opponent_run_anchored(
                own,
                opp,
                d,
                x - d.delta_x(),
                y - d.delta_y(),
                t,
            )) {
            let t = choose|t: nat|
                t < j && #[trigger] opponent_run_anchored(
                    own,
                    opp,
                    d,
                    x - d.delta_x(),
                    y - d.delta_y(),
                    t,
                );
            if t < jm {
                assert(cell(found_moves(own, opp, d, jm), x, y));
            } else {
                assert(t == jm);
            }
        }
    }
}

/// Once the frontier has emptied, or after seven iterations, the fill in
/// direction `d` has found exactly the empty squares with a capture in
/// that direction: a longer run would either still be in the frontier or
/// not fit on the board.
proof fn lemma_fill_complete(own: u64, opp: u64, d: Direction, j: nat, x: int, y: int)
    requires
        frontier(own, opp, d, j) == 0 || j == 7,
    ensures
        cell(found_moves(own, opp, d, j), x, y) == (cell(empty_mask(own, opp), x, y)
            && direction_has_capture(own, opp, d, x, y)),
{
    lemma_bit_ops();
    lemma_found_moves_cell(own, opp, d, j, x, y);
    if cell(empty_mask(own, opp), x, y) && direction_has_capture(own, opp, d, x, y) {
        let t = choose|t: nat|
            #[trigger] opponent_run_anchored(own, opp, d, x - d.delta_x(), y - d.delta_y(), t);
        if t >= j {
            if frontier(own, opp, d, j) == 0 {
                lemma_run_peel_to(own, opp, d, x - d.delta_x(), y - d.delta_y(), t, j);
                let (x2, y2) = choose|x2: int, y2: int|
                    opponent_run_anchored(own, opp, d, x2, y2, j);
                lemma_frontier_cell(own, opp, d, j, x2, y2);
                assert(cell(opp, x2, y2));
                assert(false);
            } else {
                lemma_run_bound(own, opp, d, x - d.delta_x(), y - d.delta_y(), t);
                assert(false);
            }
        }
        assert(t < j && opponent_run_anchored(
            own,
            opp,
            d,
            x - d.delta_x(),
            y - d.delta_y(),
            t,
        ));
    }
}

/// A 64-bit occupancy mask: bit i set means that the square at bit index i
/// is occupied.
pub struct BitBoard {
    pub bits: u64,
}

impl BitBoard {
    /// Wrap a raw `u64` occupancy value.
    pub fn new(bits: u64) -> (r: BitBoard)
        ensures
            r.bits == bits,
    {
        BitBoard { bits: bits }
    }

    /// The empty mask.
    pub fn zero() -> (r: BitBoard)
        ensures
            r.bits == 0u64,
            forall|x: int, y: int| !#[trigger] cell(r.bits, x, y),
    {
        proof {
            lemma_bit_ops();
        }
        BitBoard::new(0)
    }

    /// The full mask: every square occupied.
    pub fn max_value() -> (r: BitBoard)
        ensures
            r.bits == 0xFFFF_FFFF_FFFF_FFFFu64,
            forall|x: int, y: int| in_bounds(x, y) ==> #[trigger] cell(r.bits, x, y),
    {
        proof {
            lemma_bit_ops();
        }
        BitBoard::new(u64::MAX)
    }

    /// The eight squares of row `i` of the board, top row first, each 1
    /// when occupied and 0 when free, left column first.
    pub fn row(&self, i: usize) -> (r: Result<Vec<usize>, OthelloError>)
        ensures
            match r {
                Ok(v) => i <= 7 && v@.len() == 8 && forall|j: int|
                    0 <= j < 8 ==> v@[j] == (if cell(self.bits, j, i as int) {
                        1usize
                    } else {
                        0usize
                    }),
                Err(e) => i > 7 && e == OthelloError::OutOfRange,
            },
    {
        if i > 7 {
            return Err(OthelloError::OutOfRange);
        }
        let mut v: Vec<usize> = Vec::new();
        let mut j: usize = 0;
        while j < 8
            invariant
                i <= 7,
                j <= 8,
                v@.len() == j,
                forall|t: int|
                    0 <= t < j ==> v@[t] == (if cell(self.bits, t, i as int) {
                        1usize
                    } else {
                        0usize
                    }),
            decreases 8 - j,
        {
            let b: u64 = (63 - (j + 8 * i)) as u64;
            if (self.bits >> b) & 1 == 1 {
                v.push(1);
            } else {
                v.push(0);
            }
            j = j + 1;
        }
        Ok(v)
    }

    /// The eight squares of column `j` of the board, top row first, each 1
    /// when occupied and 0 when free.
    pub fn col(&self, j: usize) -> (r: Result<Vec<usize>, OthelloError>)
        ensures
            match r {
                Ok(v) => j <= 7 && v@.len() == 8 && forall|t: int|
                    0 <= t < 8 ==> v@[t] == (if cell(self.bits, j as int, t) {
                        1usize
                    } else {
                        0usize
                    }),
                Err(e) => j > 7 && e == OthelloError::OutOfRange,
            },
    {
        if j > 7 {
            return Err(OthelloError::OutOfRange);
        }
        let mut v: Vec<usize> = Vec::new();
        let mut i: usize = 0;
        while i < 8
            invariant
                j <= 7,
                i <= 8,
                v@.len() == i,
                forall|t: int|
                    0 <= t < i ==> v@[t] == (if cell(self.bits, j as int, t) {
                        1usize
                    } else {
                        0usize
                    }),
            decreases 8 - i,
        {
            let b: u64 = (63 - (j + 8 * i)) as u64;
            if (self.bits >> b) & 1 == 1 {
                v.push(1);
            } else {
                v.push(0);
            }
            i = i + 1;
        }
        Ok(v)
    }

    /// Shift the whole mask one step toward direction `dir`, dropping the
    /// discs that would leave the board.
    pub fn shr(&self, dir: &Direction) -> (r: BitBoard)
        ensures
            r.bits == dir.spec_shift(self.bits),
            forall|x: int, y: int|
                in_bounds(x, y) ==> #[trigger] cell(r.bits, x, y) == cell(
                    self.bits,
                    x - dir.delta_x(),
                    y - dir.delta_y(),
                ),
    {
        let r = BitBoard::new(dir.shift(self.bits));
        proof {
            assert forall|x: int, y: int| in_bounds(x, y) implies #[trigger] cell(r.bits, x, y)
                == cell(self.bits, x - dir.delta_x(), y - dir.delta_y()) by {
                lemma_shift_cell(*dir, self.bits, x, y);
            }
        }
        r
    }

    /// The legal moves for the side whose discs are `self`, against the
    /// discs of `opponent_player`: a flood fill follows runs of opponent
    /// discs away from each own disc, direction by direction, until the
    /// frontier stops growing, and keeps the empty squares just past a run.
    ///
    /// The result is pinned square by square: a bit of the result is set
    /// exactly when the square is a legal move. The fill is total: it never
    /// fails, whatever the two masks hold, even degenerate overlapping
    /// occupancies.
    pub fn line_cap_moves(&self, opponent_player: &BitBoard) -> (r: BitBoard)
        ensures
            forall|x: int, y: int|
                #[trigger] cell(r.bits, x, y) == is_legal_move(
                    self.bits,
                    opponent_player.bits,
                    x,
                    y,
                ),
    {
        let own = self.bits;
        let opp = opponent_player.bits;
        let mut possible_moves: u64 = 0;

        // calculate empty squares
        let empty = !(own | opp);
        proof {
            lemma_bit_ops();
        }

        // for each direction, follow opponent pieces till an empty square is found
        let mut i: usize = 0;
        while i < 8
            invariant
                i <= 8,
                empty == empty_mask(own, opp),
                forall|x: int, y: int|
                    #[trigger] cell(possible_moves, x, y) == (cell(empty_mask(own, opp), x, y)
                        && exists|di: int|
                        0 <= di < i && #[trigger] direction_has_capture(
                            own,
                            opp,
                            Direction::spec_from_index(di),
                            x,
                            y,
                        )),
            decreases 8 - i,
        {
            let dir = Direction::from_index(i);
            let ghost base = possible_moves;
            let mut candidates: u64 = opp & dir.shift(own);
            let mut step: usize = 0;
            proof {
                lemma_or_algebra();
            }
            while candidates != 0u64 && step < 7
                invariant
                    step <= 7,
                    candidates == frontier(own, opp, dir, step as nat),
                    possible_moves == base | found_moves(own, opp, dir, step as nat),
                    empty == empty_mask(own, opp),
                decreases 7 - step,
            {
                let shifted = dir.shift(candidates);
                possible_moves = possible_moves | (empty & shifted);
                candidates = opp & shifted;
                step = step + 1;
                proof {
                    lemma_or_algebra();
                }
            }
            proof {
                lemma_bit_ops();
                assert forall|x: int, y: int| #[trigger] cell(possible_moves, x, y) == (cell(
                    empty_mask(own, opp),
                    x,
                    y,
                ) && exists|di: int|
                    0 <= di < i + 1 && #[trigger] direction_has_capture(
                        own,
                        opp,
                        Direction::spec_from_index(di),
                        x,
                        y,
                    )) by {
                    lemma_fill_complete(own, opp, dir, step as nat, x, y);
                    if cell(possible_moves, x, y) {
                        if cell(base, x, y) {
                            let di = choose|di: int|
                                0 <= di < i && #[trigger] direction_has_capture(
                                    own,
                                    opp,
                                    Direction::spec_from_index(di),
                                    x,
                                    y,
                                );
                            assert(0 <= di < i + 1 && direction_has_capture(
                                own,
                                opp,
                                Direction::spec_from_index(di),
                                x,
                                y,
                            ));
                        } else {
                            assert(cell(found_moves(own, opp, dir, step as nat), x, y));
                            assert(0 <= i < i + 1 && direction_has_capture(
                                own,
                                opp,
                                Direction::spec_from_index(i as int),
                                x,
                                y,
                            ));
                        }
                    } else {
                        if cell(empty_mask(own, opp), x, y) && (exists|di: int|
                            0 <= di < i + 1 && #[trigger] direction_has_capture(
                                own,
                                opp,
                                Direction::spec_from_index(di),
                                x,
                                y,
                            )) {
                            let di = choose|di: int|
                                0 <= di < i + 1 && #[trigger] direction_has_capture(
                                    own,
                                    opp,
                                    Direction::spec_from_index(di),
                                    x,
                                    y,
                                );
                            if di < i {
                                assert(cell(base, x, y));
                            } else {
                                assert(cell(found_moves(own, opp, dir, step as nat), x, y));
                            }
                            assert(false);
                        }
                    }
                }
            }
            i = i + 1;
        }
        proof {
            assert forall|x: int, y: int| #[trigger] cell(possible_moves, x, y) == is_legal_move(
                own,
                opp,
                x,
                y,
            ) by {
                lemma_empty_cell(own, opp, x, y);
                if cell(possible_moves, x, y) {
                    let di = choose|di: int|
                        0 <= di < 8 && #[trigger] direction_has_capture(
                            own,
                            opp,
                            Direction::spec_from_index(di),
                            x,
                            y,
                        );
                    assert(direction_has_capture(own, opp, Direction::spec_from_index(di), x, y));
                } else {
                    if is_legal_move(own, opp, x, y) {
                        let d = choose|d: Direction|
                            #[trigger] direction_has_capture(own, opp, d, x, y);
                        crate::direction::lemma_direction_table_complete(d);
                        let di = choose|di: int|
                            0 <= di < 8 && Direction::spec_from_index(di) == d;
                        assert(direction_has_capture(
                            own,
                            opp,
                            Direction::spec_from_index(di),
                            x,
                            y,
                        ));
                        assert(false);
                    }
                }
            }
        }
        BitBoard::new(possible_moves)
    }
}


/// The algebraic codes of the squares occupied in `m` among the first
/// `n` linear positions, in board order.
pub open spec fn algebric_list(m: u64, n: int) -> Seq<Seq<char>>
    decreases n,
{
    if n <= 0 {
        Seq::empty()
    } else {
        algebric_list(m, n - 1) + if cell(m, (n - 1) % 8, (n - 1) / 8) {
            seq![algebraic_code((n - 1) % 8, (n - 1) / 8)]
        } else {
            Seq::empty()
        }
    }
}

/// The code names a square of the 8x8 board.
pub open spec fn code_on_board(s: Seq<char>) -> bool {
    is_algebraic(s) && 0 <= letter_value(s[0]) < 8 && 1 <= digits_value(s.skip(1)) <= 8
}

/// The single-bit mask of the square that an algebraic code names.
pub open spec fn code_bit(s: Seq<char>) -> u64 {
    1u64 << ((63 - (letter_value(s[0]) + 8 * (digits_value(s.skip(1)) - 1))) as u64)
}

/// The mask with the bit of each listed code set.
pub open spec fn mask_of_codes(cs: Seq<Seq<char>>) -> u64
    decreases cs.len(),
{
    if cs.len() == 0 {
        0u64
    } else {
        mask_of_codes(cs.drop_last()) | code_bit(cs.last())
    }
}

impl BitBoard {
    /// The algebraic codes of the occupied squares, in board order: A1
    /// (bit 63) first, H8 (bit 0) last.
    pub fn to_algebric_coordinates(&self) -> (v: Vec<String>)
        ensures
            v.deep_view() == algebric_list(self.bits, 64),
    {
        let mut v: Vec<String> = Vec::new();
        let mut i: usize = 0;
        while i < 64
            invariant
                i <= 64,
                v.deep_view() == algebric_list(self.bits, i as int),
            decreases 64 - i,
        {
            let x = i % 8;
            let y = i / 8;
            let ghost dv_old = v.deep_view();
            let b: u64 = (63 - (x + 8 * y)) as u64;
            if (self.bits >> b) & 1 == 1 {
                let code = match Coordinate::new(x, y).to_algebric() {
                    Ok(code) => code,
                    Err(_) => {
                        return v;  // x and y are below 8, so this cannot happen
                    },
                };
                proof {
                    assert(x < 8 && y < 8);
                    assert(code@ == algebraic_code(x as int, y as int));
                }
                v.push(code);
                proof {
                    assert(v.deep_view() =~= dv_old.push(code@));
                    assert(algebric_list(self.bits, i + 1) =~= dv_old.push(
                        algebraic_code(x as int, y as int),
                    ));
                }
            } else {
                proof {
                    assert(algebric_list(self.bits, i + 1) =~= dv_old);
                }
            }
            i = i + 1;
        }
        v
    }

    /// Build a mask from a list of algebraic codes: the bit of each named
    /// square is set. The first code that does not name a square of the
    /// 8x8 board is reported as [`Point::from_algebric`] reports it.
    pub fn from_algebric_coordinates(alg_vec: &Vec<&str>) -> (r: Result<BitBoard, OthelloError>)
        ensures
            match r {
                Ok(b) => (forall|k: int|
                    0 <= k < alg_vec.deep_view().len() ==> code_on_board(
                        #[trigger] alg_vec.deep_view()[k],
                    )) && b.bits == mask_of_codes(alg_vec.deep_view()),
                Err(e) => exists|k: int|
                    0 <= k < alg_vec.deep_view().len() && (forall|j: int|
                        0 <= j < k ==> code_on_board(#[trigger] alg_vec.deep_view()[j]))
                        && !code_on_board(#[trigger] alg_vec.deep_view()[k]) && ((e
                        == OthelloError::InvalidFormat && !is_algebraic(alg_vec.deep_view()[k]))
                        || (e == OthelloError::OutOfRange && is_algebraic(
                        alg_vec.deep_view()[k],
                    ))),
            },
    {
        let ghost dv = alg_vec.deep_view();
        let mut bits: u64 = 0;
        let mut k: usize = 0;
        while k < alg_vec.len()
            invariant
                k <= alg_vec@.len(),
                dv == alg_vec.deep_view(),
                dv.len() == alg_vec@.len(),
                forall|t: int| 0 <= t < dv.len() ==> #[trigger] dv[t] == alg_vec@[t]@,
                forall|j: int| 0 <= j < k ==> code_on_board(#[trigger] dv[j]),
                bits == mask_of_codes(dv.subrange(0, k as int)),
            decreases alg_vec@.len() - k,
        {
            proof {
                assert(dv.subrange(0, (k + 1) as int).drop_last() =~= dv.subrange(0, k as int));
                assert(dv.subrange(0, (k + 1) as int).last() == dv[k as int]);
            }
            let code = alg_vec[k];
            match Point::from_algebric(code) {
                Ok(pt) => {
                    let b: u64 = (63 - (pt.0 + 8 * pt.1)) as u64;
                    bits = bits | (1u64 << b);
                },
                Err(e) => {
                    return Err(e);
                },
            }
            k = k + 1;
        }
        proof {
            assert(dv.subrange(0, alg_vec@.len() as int) =~= dv);
        }
        Ok(BitBoard::new(bits))
    }
}

/// Applying the one-step shift `n` times in the same direction.
pub open spec fn iter_shift(d: Direction, m: u64, n: nat) -> u64
    decreases n,
{
    if n == 0 {
        m
    } else {
        d.spec_shift(iter_shift(d, m, (n - 1) as nat))
    }
}

/// Eight one-step shifts in one direction clear any mask: every disc has
/// left the board by then, and no disc ever survives by wrapping around an
/// edge.
pub proof fn lemma_eight_shifts_vanish(d: Direction, m: u64)
    ensures
        iter_shift(d, m, 8) == 0u64,
{
    let m1 = d.spec_shift(m);
    let m2 = d.spec_shift(m1);
    let m3 = d.spec_shift(m2);
    let m4 = d.spec_shift(m3);
    let m5 = d.spec_shift(m4);
    let m6 = d.spec_shift(m5);
    let m7 = d.spec_shift(m6);
    let m8 = d.spec_shift(m7);
    assert(iter_shift(d, m, 0) == m);
    assert(iter_shift(d, m, 1) == m1);
    assert(iter_shift(d, m, 2) == m2);
    assert(iter_shift(d, m, 3) == m3);
    assert(iter_shift(d, m, 4) == m4);
    assert(iter_shift(d, m, 5) == m5);
    assert(iter_shift(d, m, 6) == m6);
    assert(iter_shift(d, m, 7) == m7);
    assert(iter_shift(d, m, 8) == m8);
    match d {
        Direction::E => {
            assert(m8 == 0u64) by (bit_vector)
                requires
                    m1 == (m >> 1) & 0x7F7F7F7F7F7F7F7Fu64,
                    m2 == (m1 >> 1) & 0x7F7F7F7F7F7F7F7Fu64,
                    m3 == (m2 >> 1) & 0x7F7F7F7F7F7F7F7Fu64,
                    m4 == (m3 >> 1) & 0x7F7F7F7F7F7F7F7Fu64,
                    m5 == (m4 >> 1) & 0x7F7F7F7F7F7F7F7Fu64,
                    m6 == (m5 >> 1) & 0x7F7F7F7F7F7F7F7Fu64,
                    m7 == (m6 >> 1) & 0x7F7F7F7F7F7F7F7Fu64,
                    m8 == (m7 >> 1) & 0x7F7F7F7F7F7F7F7Fu64,
            ;
        },
        Direction::SE => {
            assert(m8 == 0u64) by (bit_vector)
                requires
                    m1 == (m >> 9) & 0x007F7F7F7F7F7F7Fu64,
                    m2 == (m1 >> 9) & 0x007F7F7F7F7F7F7Fu64,
                    m3 == (m2 >> 9) & 0x007F7F7F7F7F7F7Fu64,
                    m4 == (m3 >> 9) & 0x007F7F7F7F7F7F7Fu64,
                    m5 == (m4 >> 9) & 0x007F7F7F7F7F7F7Fu64,
                    m6 == (m5 >> 9) & 0x007F7F7F7F7F7F7Fu64,
                    m7 == (m6 >> 9) & 0x007F7F7F7F7F7F7Fu64,
                    m8 == (m7 >> 9) & 0x007F7F7F7F7F7F7Fu64,
            ;
        },
        Direction::S => {
            assert(m8 == 0u64) by (bit_vector)
                requires
                    m1 == (m >> 8) & 0xFFFFFFFFFFFFFFFFu64,
                    m2 == (m1 >> 8) & 0xFFFFFFFFFFFFFFFFu64,
                    m3 == (m2 >> 8) & 0xFFFFFFFFFFFFFFFFu64,
                    m4 == (m3 >> 8) & 0xFFFFFFFFFFFFFFFFu64,
                    m5 == (m4 >> 8) & 0xFFFFFFFFFFFFFFFFu64,
                    m6 == (m5 >> 8) & 0xFFFFFFFFFFFFFFFFu64,
                    m7 == (m6 >> 8) & 0xFFFFFFFFFFFFFFFFu64,
                    m8 == (m7 >> 8) & 0xFFFFFFFFFFFFFFFFu64,
            ;
        },
        Direction::SW => {
            assert(m8 == 0u64) by (bit_vector)
                requires
                    m1 == (m >> 7) & 0x00FEFEFEFEFEFEFEu64,
                    m2 == (m1 >> 7) & 0x00FEFEFEFEFEFEFEu64,
                    m3 == (m2 >> 7) & 0x00FEFEFEFEFEFEFEu64,
                    m4 == (m3 >> 7) & 0x00FEFEFEFEFEFEFEu64,
                    m5 == (m4 >> 7) & 0x00FEFEFEFEFEFEFEu64,
                    m6 == (m5 >> 7) & 0x00FEFEFEFEFEFEFEu64,
                    m7 == (m6 >> 7) & 0x00FEFEFEFEFEFEFEu64,
                    m8 == (m7 >> 7) & 0x00FEFEFEFEFEFEFEu64,
            ;
        },
        Direction::W => {
            assert(m8 == 0u64) by (bit_vector)
                requires
                    m1 == (m << 1) & 0xFEFEFEFEFEFEFEFEu64,
                    m2 == (m1 << 1) & 0xFEFEFEFEFEFEFEFEu64,
                    m3 == (m2 << 1) & 0xFEFEFEFEFEFEFEFEu64,
                    m4 == (m3 << 1) & 0xFEFEFEFEFEFEFEFEu64,
                    m5 == (m4 << 1) & 0xFEFEFEFEFEFEFEFEu64,
                    m6 == (m5 << 1) & 0xFEFEFEFEFEFEFEFEu64,
                    m7 == (m6 << 1) & 0xFEFEFEFEFEFEFEFEu64,
                    m8 == (m7 << 1) & 0xFEFEFEFEFEFEFEFEu64,
            ;
        },
        Direction::NW => {
            assert(m8 == 0u64) by (bit_vector)
                requires
                    m1 == (m << 9) & 0xFEFEFEFEFEFEFE00u64,
                    m2 == (m1 << 9) & 0xFEFEFEFEFEFEFE00u64,
                    m3 == (m2 << 9) & 0xFEFEFEFEFEFEFE00u64,
                    m4 == (m3 << 9) & 0xFEFEFEFEFEFEFE00u64,
                    m5 == (m4 << 9) & 0xFEFEFEFEFEFEFE00u64,
                    m6 == (m5 << 9) & 0xFEFEFEFEFEFEFE00u64,
                    m7 == (m6 << 9) & 0xFEFEFEFEFEFEFE00u64,
                    m8 == (m7 << 9) & 0xFEFEFEFEFEFEFE00u64,
            ;
        },
        Direction::N => {
            assert(m8 == 0u64) by (bit_vector)
                requires
                    m1 == (m << 8) & 0xFFFFFFFFFFFFFFFFu64,
                    m2 == (m1 << 8) & 0xFFFFFFFFFFFFFFFFu64,
                    m3 == (m2 << 8) & 0xFFFFFFFFFFFFFFFFu64,
                    m4 == (m3 << 8) & 0xFFFFFFFFFFFFFFFFu64,
                    m5 == (m4 << 8) & 0xFFFFFFFFFFFFFFFFu64,
                    m6 == (m5 << 8) & 0xFFFFFFFFFFFFFFFFu64,
                    m7 == (m6 << 8) & 0xFFFFFFFFFFFFFFFFu64,
                    m8 == (m7 << 8) & 0xFFFFFFFFFFFFFFFFu64,
            ;
        },
        Direction::NE => {
            assert(m8 == 0u64) by (bit_vector)
                requires
                    m1 == (m << 7) & 0x7F7F7F7F7F7F7F00u64,
                    m2 == (m1 << 7) & 0x7F7F7F7F7F7F7F00u64,
                    m3 == (m2 << 7) & 0x7F7F7F7F7F7F7F00u64,
                    m4 == (m3 << 7) & 0x7F7F7F7F7F7F7F00u64,
                    m5 == (m4 << 7) & 0x7F7F7F7F7F7F7F00u64,
                    m6 == (m5 << 7) & 0x7F7F7F7F7F7F7F00u64,
                    m7 == (m6 << 7) & 0x7F7F7F7F7F7F7F00u64,
                    m8 == (m7 << 7) & 0x7F7F7F7F7F7F7F00u64,
            ;
        },
    }
}

/// Edge loss is permanent: a disc that fell off a column edge never comes
/// back. Shifting west then east returns every disc except those that
/// started in column A; shifting east then west, except those of column H.
pub proof fn lemma_edge_loss_permanent(m: u64)
    ensures
        Direction::E.spec_shift(Direction::W.spec_shift(m)) == m & 0x7F7F7F7F7F7F7F7Fu64,
        Direction::W.spec_shift(Direction::E.spec_shift(m)) == m & 0xFEFEFEFEFEFEFEFEu64,
{
    assert((((m << 1) & 0xFEFEFEFEFEFEFEFEu64) >> 1) & 0x7F7F7F7F7F7F7F7Fu64 == m
        & 0x7F7F7F7F7F7F7F7Fu64) by (bit_vector);
    assert((((m >> 1) & 0x7F7F7F7F7F7F7F7Fu64) << 1) & 0xFEFEFEFEFEFEFEFEu64 == m
        & 0xFEFEFEFEFEFEFEFEu64) by (bit_vector);
}

/// On a full board there is no legal move, however the occupancy is split
/// between the two sides.
pub proof fn lemma_full_board_no_moves(own: u64, opp: u64, x: int, y: int)
    requires
        own | opp == 0xFFFF_FFFF_FFFF_FFFFu64,
    ensures
        !is_legal_move(own, opp, x, y),
{
    lemma_bit_ops();
    if is_legal_move(own, opp, x, y) {
        assert(!nth_bit(own | opp, bit_index(x, y) as u64));
        assert(false);
    }
}

/// A side with no discs on the board has no legal move: no disc can anchor
/// a capture.
pub proof fn lemma_no_discs_no_moves(opp: u64, x: int, y: int)
    ensures
        !is_legal_move(0u64, opp, x, y),
{
    lemma_bit_ops();
    if is_legal_move(0u64, opp, x, y) {
        let d = choose|d: Direction| #[trigger] direction_has_capture(0u64, opp, d, x, y);
        let extra = choose|extra: nat|
            #[trigger] opponent_run_anchored(
                0u64,
                opp,
                d,
                x - d.delta_x(),
                y - d.delta_y(),
                extra,
            );
        lemma_run_peel_to(0u64, opp, d, x - d.delta_x(), y - d.delta_y(), extra, 0);
        let (x2, y2) = choose|x2: int, y2: int|
            opponent_run_anchored(0u64, opp, d, x2, y2, 0);
        assert(cell(0u64, x2 - d.delta_x(), y2 - d.delta_y()));
        assert(false);
    }
}

/// Swapping which mask is "own" and which is "opponent" yields the legal
/// moves of the other side: the definition uses the two masks only through
/// the relation "opponent run bounded by an own disc", with the roles
/// exchanged.
pub proof fn lemma_color_swap(own: u64, opp: u64, x: int, y: int)
    ensures
        is_legal_move(opp, own, x, y) == (in_bounds(x, y) && !cell(opp, x, y) && !cell(own, x, y)
            && exists|d: Direction| #[trigger] direction_has_capture(opp, own, d, x, y)),
{
}

} // verus!
