//! Grid coordinates and the conversions that link the square
//! representations: grid (x, y), linear row-major index, bit index, and
//! algebraic notation.

use vstd::prelude::*;
use vstd::string::StrSliceExecFns;
use vstd::string::StringExecFns;

use crate::error::OthelloError;

verus! {

/// The letter that column `x` carries: 'A' for 0 up to 'Z' for 25.
pub open spec fn column_letter(x: int) -> char {
    "ABCDEFGHIJKLMNOPQRSTUVWXYZ"@[x]
}

/// The digit character that spells the value `v` of 0..10.
pub open spec fn digit_char(v: int) -> char {
    "0123456789"@[v]
}

/// The column that a letter names: 0 for 'A' or 'a' up to 25 for 'Z' or
/// 'z'; -1 when the character is no ASCII letter.
pub open spec fn letter_value(c: char) -> int {
    if 65 <= c as u32 <= 90 {
        c as u32 - 65
    } else if 97 <= c as u32 <= 122 {
        c as u32 - 97
    } else {
        -1
    }
}

/// The character is an ASCII decimal digit.
pub open spec fn is_digit(c: char) -> bool {
    48 <= c as u32 <= 57
}

/// The value of one digit character.
pub open spec fn digit_value(c: char) -> int {
    c as u32 - 48
}

/// The number that a sequence of digit characters spells, left to right.
pub open spec fn digits_value(s: Seq<char>) -> int
    decreases s.len(),
{
    if s.len() == 0 {
        0
    } else {
        digits_value(s.drop_last()) * 10 + digit_value(s.last())
    }
}

/// A well-formed algebraic code: exactly one letter, then one or more
/// digits.
pub open spec fn is_algebraic(s: Seq<char>) -> bool {
    s.len() >= 2 && letter_value(s[0]) >= 0 && (forall|i: int|
        1 <= i < s.len() ==> is_digit(#[trigger] s[i]))
}

/// The algebraic code of the square at grid (x, y), for x and y below 26:
/// the column letter, then the decimal digits of the row number `y + 1`.
pub open spec fn algebraic_code(x: int, y: int) -> Seq<char> {
    if y + 1 <= 9 {
        seq![column_letter(x), digit_char(y + 1)]
    } else {
        seq![column_letter(x), digit_char((y + 1) / 10), digit_char((y + 1) % 10)]
    }
}

/// A digit sequence spells a value of at least 0.
pub proof fn lemma_digits_value_nonneg(s: Seq<char>)
    requires
        forall|i: int| 0 <= i < s.len() ==> is_digit(#[trigger] s[i]),
    ensures
        digits_value(s) >= 0,
    decreases s.len(),
{
    if s.len() > 0 {
        lemma_digits_value_nonneg(s.drop_last());
    }
}

/// (ax, ay) is one of the up to eight squares adjacent to (cx, cy) on an
/// n-by-n board.
pub open spec fn spec_adjacent(cx: int, cy: int, ax: int, ay: int, n: int) -> bool {
    0 <= ax < n && 0 <= ay < n && -1 <= ax - cx <= 1 && -1 <= ay - cy <= 1 && !(ax == cx && ay
        == cy)
}

/// A grid coordinate: `x` is the column and `y` the row, both counted
/// from 0 at the top-left square A1.
#[derive(Clone, Copy, Debug, PartialEq, Eq, Structural)]
pub struct Coordinate {
    pub x: usize,
    pub y: usize,
}

impl Coordinate {
    /// Simple constructor.
    pub fn new(x: usize, y: usize) -> (r: Coordinate)
        ensures
            r.x == x,
            r.y == y,
    {
        Coordinate { x: x, y: y }
    }

    /// The linear row-major index of this coordinate on an n-by-n board.
    pub fn to_index(&self, n: usize) -> (r: usize)
        requires
            self.x < n,
            self.y < n,
            n * n <= usize::MAX,
        ensures
            r == self.x + n * self.y,
    {
        proof {
            assert(self.x + n * self.y < n * n) by (nonlinear_arith)
                requires
                    self.x < n && self.y < n,
            ;
        }
        self.x + n * self.y
    }

    /// The coordinate at the linear row-major index `index` of an n-by-n
    /// board.
    pub fn to_coordinate(index: usize, n: usize) -> (r: Coordinate)
        requires
            n > 0,
        ensures
            r.x == index % n,
            r.y == index / n,
    {
        Coordinate { x: index % n, y: index / n }
    }

    /// The grid coordinate of the square that owns bit index `index`:
    /// the inverse of the crate's `bit index = 63 - linear index`
    /// convention. Fails with `OutOfRange` when `index` exceeds 63.
    pub fn to_bitboard_coordinate(index: usize) -> (r: Result<(usize, usize), OthelloError>)
        ensures
            match r {
                Ok(pt) => index <= 63 && pt.0 == (63 - index) % 8 && pt.1 == (63 - index) / 8,
                Err(e) => index > 63 && e == OthelloError::OutOfRange,
            },
    {
        if index > 63 {
            return Err(OthelloError::OutOfRange);
        }
        Ok(((63 - index) % 8, (63 - index) / 8))
    }

    /// The linear row-major index of the point `pt` on the 8x8 board.
    pub fn to_linear(pt: (usize, usize)) -> (r: usize)
        requires
            pt.0 < 8,
            pt.1 < 8,
        ensures
            r == pt.0 + 8 * pt.1,
    {
        pt.0 + 8 * pt.1
    }

    /// The point at the linear row-major index `index` of the 8x8 board.
    pub fn from_linear(index: usize) -> (r: (usize, usize))
        requires
            index < 64,
        ensures
            r.0 == index % 8,
            r.1 == index / 8,
    {
        (index % 8, index / 8)
    }

    /// The grid coordinate of the square that owns bit index `index`.
    /// Fails with `OutOfRange` when `index` exceeds 63.
    pub fn to_bitboard(index: usize) -> (r: Result<(usize, usize), OthelloError>)
        ensures
            match r {
                Ok(pt) => index <= 63 && pt.0 == (63 - index) % 8 && pt.1 == (63 - index) / 8,
                Err(e) => index > 63 && e == OthelloError::OutOfRange,
            },
    {
        Coordinate::to_bitboard_coordinate(index)
    }

    /// The bit index that the square at linear row-major index `linear`
    /// owns: `63 - linear`. Fails with `OutOfRange` when `linear`
    /// exceeds 63.
    pub fn to_bit_index(linear: usize) -> (r: Result<usize, OthelloError>)
        ensures
            match r {
                Ok(b) => linear <= 63 && b == 63 - linear,
                Err(e) => linear > 63 && e == OthelloError::OutOfRange,
            },
    {
        if linear > 63 {
            return Err(OthelloError::OutOfRange);
        }
        Ok(63 - linear)
    }

    /// All squares of an n-by-n board adjacent to this coordinate: up to
    /// eight neighbours, each listed once.
    pub fn adjacent(&self, n: usize) -> (v: Vec<Coordinate>)
        requires
            self.x < n,
            self.y < n,
        ensures
            forall|i: int|
                0 <= i < v@.len() ==> spec_adjacent(
                    self.x as int,
                    self.y as int,
                    #[trigger] v@[i].x as int,
                    v@[i].y as int,
                    n as int,
                ),
            forall|a: int, b: int|
                spec_adjacent(self.x as int, self.y as int, a, b, n as int) ==> exists|i: int|
                    0 <= i < v@.len() && #[trigger] v@[i].x == a && v@[i].y == b,
            forall|i: int, j: int| 0 <= i < j < v@.len() ==> v@[i] != v@[j],
    {
        let x = self.x;
        let y = self.y;
        proof {
            broadcast use vstd::seq_lib::lemma_seq_contains_after_push;

        }
        let mut v: Vec<Coordinate> = Vec::new();
        if x > 0 && y > 0 {
            v.push(Coordinate { x: x - 1, y: y - 1 });
            assert(v@.last() == (Coordinate { x: (x - 1) as usize, y: (y - 1) as usize }));
        }
        assert(x > 0 && y > 0 ==> v@.contains(
            Coordinate { x: (x - 1) as usize, y: (y - 1) as usize },
        ));
        if y > 0 {
            v.push(Coordinate { x: x, y: y - 1 });
            assert(v@.last() == (Coordinate { x: x, y: (y - 1) as usize }));
        }
        assert(y > 0 ==> v@.contains(Coordinate { x: x, y: (y - 1) as usize }));
        if x + 1 < n && y > 0 {
            v.push(Coordinate { x: x + 1, y: y - 1 });
            assert(v@.last() == (Coordinate { x: (x + 1) as usize, y: (y - 1) as usize }));
        }
        assert(x + 1 < n && y > 0 ==> v@.contains(
            Coordinate { x: (x + 1) as usize, y: (y - 1) as usize },
        ));
        if x > 0 {
            v.push(Coordinate { x: x - 1, y: y });
            assert(v@.last() == (Coordinate { x: (x - 1) as usize, y: y }));
        }
        assert(x > 0 ==> v@.contains(Coordinate { x: (x - 1) as usize, y: y }));
        if x + 1 < n {
            v.push(Coordinate { x: x + 1, y: y });
            assert(v@.last() == (Coordinate { x: (x + 1) as usize, y: y }));
        }
        assert(x + 1 < n ==> v@.contains(Coordinate { x: (x + 1) as usize, y: y }));
        if x > 0 && y + 1 < n {
            v.push(Coordinate { x: x - 1, y: y + 1 });
            assert(v@.last() == (Coordinate { x: (x - 1) as usize, y: (y + 1) as usize }));
        }
        assert(x > 0 && y + 1 < n ==> v@.contains(
            Coordinate { x: (x - 1) as usize, y: (y + 1) as usize },
        ));
        if y + 1 < n {
            v.push(Coordinate { x: x, y: y + 1 });
            assert(v@.last() == (Coordinate { x: x, y: (y + 1) as usize }));
        }
        assert(y + 1 < n ==> v@.contains(Coordinate { x: x, y: (y + 1) as usize }));
        if x + 1 < n && y + 1 < n {
            v.push(Coordinate { x: x + 1, y: y + 1 });
            assert(v@.last() == (Coordinate { x: (x + 1) as usize, y: (y + 1) as usize }));
        }
        assert(x + 1 < n && y + 1 < n ==> v@.contains(
            Coordinate { x: (x + 1) as usize, y: (y + 1) as usize },
        ));
        proof {
            assert forall|a: int, b: int|
                spec_adjacent(x as int, y as int, a, b, n as int) implies exists|i: int|
                0 <= i < v@.len() && #[trigger] v@[i].x == a && v@[i].y == b by {
                let c = Coordinate { x: a as usize, y: b as usize };
                assert(v@.contains(c));
                let i = choose|i: int| 0 <= i < v@.len() && v@[i] == c;
                assert(v@[i].x == a && v@[i].y == b);
            }
        }
        v
    }
}


/// The letter and digit tables behind the algebraic codec, spelled out.
pub proof fn lemma_code_tables()
    ensures
        "ABCDEFGHIJKLMNOPQRSTUVWXYZ"@.len() == 26,
        "0123456789"@.len() == 10,
        forall|i: int| 0 <= i < 26 ==> letter_value(#[trigger] column_letter(i)) == i,
        forall|i: int| 0 <= i < 10 ==> is_digit(#[trigger] digit_char(i)) && digit_value(
            digit_char(i),
        ) == i,
{
    reveal_strlit("ABCDEFGHIJKLMNOPQRSTUVWXYZ");
    reveal_strlit("0123456789");
}

/// Parse an algebraic code against a board of `dim` columns and rows:
/// exactly one letter (case-insensitive) naming the column, then one or
/// more digits spelling the 1-based row number. A malformed string is an
/// `InvalidFormat` error; a well-formed one whose column or row lies
/// outside the board is an `OutOfRange` error.
pub fn parse_algebraic(code: &str, dim: usize) -> (r: Result<(usize, usize), OthelloError>)
    requires
        1 <= dim <= 26,
    ensures
        match r {
            Ok(pt) => is_algebraic(code@) && pt.0 == letter_value(code@[0]) && pt.0 < dim && pt.1
                + 1 == digits_value(code@.skip(1)) && pt.1 < dim,
            Err(e) => (e == OthelloError::InvalidFormat && !is_algebraic(code@)) || (e
                == OthelloError::OutOfRange && is_algebraic(code@) && (letter_value(code@[0])
                >= dim || digits_value(code@.skip(1)) < 1 || digits_value(code@.skip(1)) > dim)),
        },
{
    let len = code.unicode_len();
    if len < 2 {
        return Err(OthelloError::InvalidFormat);
    }
    let c0 = code.get_char(0);
    let v0 = c0 as u32;
    let lx: u32 = if 65 <= v0 && v0 <= 90 {
        v0 - 65
    } else if 97 <= v0 && v0 <= 122 {
        v0 - 97
    } else {
        return Err(OthelloError::InvalidFormat);
    };
    let mut acc: u32 = 0;
    let mut i: usize = 1;
    while i < len
        invariant
            1 <= i <= len,
            len == code@.len(),
            forall|t: int| 1 <= t < i ==> is_digit(#[trigger] code@[t]),
            acc <= 269,
            digits_value(code@.subrange(1, i as int)) <= 26 ==> acc == digits_value(
                code@.subrange(1, i as int),
            ),
            digits_value(code@.subrange(1, i as int)) > 26 ==> acc > 26,
            digits_value(code@.subrange(1, i as int)) >= 0,
        decreases len - i,
    {
        let c = code.get_char(i);
        let d = c as u32;
        if d < 48 || d > 57 {
            return Err(OthelloError::InvalidFormat);
        }
        proof {
            assert(code@.subrange(1, (i + 1) as int).drop_last() =~= code@.subrange(1, i as int));
            assert(code@.subrange(1, (i + 1) as int).last() == code@[i as int]);
        }
        if acc > 26 {
            acc = 27;
        } else {
            acc = acc * 10 + (d - 48);
        }
        i = i + 1;
    }
    proof {
        assert(code@.subrange(1, len as int) =~= code@.skip(1));
    }
    if lx >= dim as u32 {
        return Err(OthelloError::OutOfRange);
    }
    if acc < 1 || acc > dim as u32 {
        return Err(OthelloError::OutOfRange);
    }
    Ok((lx as usize, (acc - 1) as usize))
}

impl Coordinate {
    /// The algebraic code of this coordinate, for boards of up to 26
    /// columns and rows: the column letter, then the 1-based row number.
    pub fn to_algebric(&self) -> (r: Result<String, OthelloError>)
        ensures
            match r {
                Ok(s) => self.x < 26 && self.y < 26 && s@ == algebraic_code(
                    self.x as int,
                    self.y as int,
                ),
                Err(e) => (self.x >= 26 || self.y >= 26) && e == OthelloError::OutOfRange,
            },
    {
        if self.x >= 26 || self.y >= 26 {
            return Err(OthelloError::OutOfRange);
        }
        proof {
            reveal_strlit("ABCDEFGHIJKLMNOPQRSTUVWXYZ");
            reveal_strlit("0123456789");
        }
        let letters = "ABCDEFGHIJKLMNOPQRSTUVWXYZ";
        let digits = "0123456789";
        let lpart = letters.substring_ascii(self.x, self.x + 1);
        let row = self.y + 1;
        let mut s = String::from_str(lpart);
        if row <= 9 {
            let dpart = digits.substring_ascii(row, row + 1);
            s.append(dpart);
            proof {
                assert(s@ =~= algebraic_code(self.x as int, self.y as int));
            }
        } else {
            let d1 = digits.substring_ascii(row / 10, row / 10 + 1);
            let d2 = digits.substring_ascii(row % 10, row % 10 + 1);
            s.append(d1);
            s.append(d2);
            proof {
                assert(s@ =~= algebraic_code(self.x as int, self.y as int));
            }
        }
        Ok(s)
    }

    /// The coordinate that an algebraic code of up to 26 columns and rows
    /// names.
    pub fn from_algebric(code: &str) -> (r: Result<Coordinate, OthelloError>)
        ensures
            match r {
                Ok(c) => is_algebraic(code@) && c.x == letter_value(code@[0]) && c.x < 26 && c.y
                    + 1 == digits_value(code@.skip(1)) && c.y < 26,
                Err(e) => (e == OthelloError::InvalidFormat && !is_algebraic(code@)) || (e
                    == OthelloError::OutOfRange && is_algebraic(code@) && (letter_value(code@[0])
                    >= 26 || digits_value(code@.skip(1)) < 1 || digits_value(code@.skip(1))
                    > 26)),
            },
    {
        match parse_algebraic(code, 26) {
            Ok(pt) => Ok(Coordinate { x: pt.0, y: pt.1 }),
            Err(e) => Err(e),
        }
    }
}

/// Round trip: the algebraic code of a valid coordinate parses back to
/// exactly that coordinate, for every x and y below 26.
pub proof fn lemma_algebraic_round_trip(x: int, y: int)
    requires
        0 <= x < 26,
        0 <= y < 26,
    ensures
        is_algebraic(algebraic_code(x, y)),
        letter_value(algebraic_code(x, y)[0]) == x,
        digits_value(algebraic_code(x, y).skip(1)) == y + 1,
{
    lemma_code_tables();
    let s = algebraic_code(x, y);
    assert(digits_value(Seq::<char>::empty()) == 0);
    if y + 1 <= 9 {
        let tail = seq![digit_char(y + 1)];
        assert(s.skip(1) =~= tail);
        assert(tail.drop_last() =~= Seq::<char>::empty());
        assert(tail.last() == digit_char(y + 1));
        assert(digits_value(tail) == digits_value(tail.drop_last()) * 10 + digit_value(
            tail.last(),
        ));
        assert(digits_value(tail) == digit_value(digit_char(y + 1)));
    } else {
        let hi = (y + 1) / 10;
        let lo = (y + 1) % 10;
        assert(1 <= hi <= 2 && 0 <= lo <= 9 && hi * 10 + lo == y + 1) by (nonlinear_arith)
            requires
                10 <= y + 1 <= 26,
                hi == (y + 1) / 10,
                lo == (y + 1) % 10,
        ;
        let tail = seq![digit_char(hi), digit_char(lo)];
        assert(s.skip(1) =~= tail);
        assert(tail.last() == digit_char(lo));
        assert(tail.drop_last() =~= seq![digit_char(hi)]);
        let head = seq![digit_char(hi)];
        assert(head.drop_last() =~= Seq::<char>::empty());
        assert(head.last() == digit_char(hi));
        assert(digits_value(head) == digits_value(head.drop_last()) * 10 + digit_value(
            head.last(),
        ));
        assert(digits_value(tail) == digits_value(tail.drop_last()) * 10 + digit_value(
            tail.last(),
        ));
        assert(digits_value(tail) == hi * 10 + lo);
    }
}

/// Round trip: the linear index of a valid point leads back to exactly
/// that point, for every x and y below 8.
pub proof fn lemma_linear_round_trip(x: int, y: int)
    requires
        0 <= x < 8,
        0 <= y < 8,
    ensures
        (x + 8 * y) % 8 == x,
        (x + 8 * y) / 8 == y,
{
    assert((x + 8 * y) % 8 == x && (x + 8 * y) / 8 == y) by (nonlinear_arith)
        requires
            0 <= x < 8 && 0 <= y < 8,
    ;
}

} // verus!
