//! The WThor game-archive record layout.
//!
//! A WThor file is a 16-byte header followed by fixed-width records:
//! 68 bytes per game, 20 bytes per player name, 26 bytes per tournament
//! name. Multi-byte integers are little-endian. A game records its moves
//! as one byte per ply, `10 * row + column` with 1-based row and column;
//! unplayed plies hold 0. The functions here decode byte buffers; reading
//! the bytes from disk is the caller's business.

use vstd::prelude::*;

use crate::coordinate::algebraic_code;
use crate::error::OthelloError;
use crate::point::Point;

verus! {

/// The little-endian 16-bit value at offset `off` of `b`.
pub open spec fn le_u16(b: Seq<u8>, off: int) -> int {
    b[off] + 0x100 * b[off + 1]
}

/// The little-endian 32-bit value at offset `off` of `b`.
pub open spec fn le_u32(b: Seq<u8>, off: int) -> int {
    b[off] + 0x100 * b[off + 1] + 0x1_0000 * b[off + 2] + 0x100_0000 * b[off + 3]
}

/// The sequence `s` with its zero bytes dropped, order kept.
pub open spec fn keep_nonzero(s: Seq<u8>) -> Seq<u8>
    decreases s.len(),
{
    if s.len() == 0 {
        Seq::empty()
    } else if s.last() == 0 {
        keep_nonzero(s.drop_last())
    } else {
        keep_nonzero(s.drop_last()).push(s.last())
    }
}

/// Every byte of `s` is an ASCII code point.
pub open spec fn all_ascii(s: Seq<u8>) -> bool {
    forall|i: int| 0 <= i < s.len() ==> (#[trigger] s[i]) < 128
}

/// The characters that a sequence of ASCII bytes spells.
pub open spec fn ascii_chars(s: Seq<u8>) -> Seq<char> {
    s.map_values(|b: u8| b as char)
}

/// The header common to all WThor files.
#[derive(Clone, Copy, Debug, PartialEq, Eq, Structural)]
pub struct WThorFileHeader {
    pub file_date: u32,
    pub n1: u32,
    pub n2: u16,
    pub game_year: u16,
    pub p1: u8,
    pub p2: u8,
    pub p3: u8,
    pub reserved: u8,
}

/// One recorded game.
#[derive(Debug)]
pub struct WThorGame {
    pub tournament_title_id: u16,
    pub black_player_id: u16,
    pub white_player_id: u16,
    pub black_pieces_id: u8,
    pub theoretical_score: u8,
    pub moves: Vec<u8>,
}

/// One player name.
#[derive(Debug)]
pub struct WThorPlayer {
    pub player: String,
}

/// One tournament name.
#[derive(Debug)]
pub struct WThorTournament {
    pub tournament: String,
}

/// A decoded WThor file: the header and its records.
#[derive(Debug)]
pub struct WThorFile<T> {
    pub header: WThorFileHeader,
    pub data: Vec<T>,
}

/// The header that the first 16 bytes of `b` spell.
pub open spec fn spec_header(b: Seq<u8>) -> WThorFileHeader {
    WThorFileHeader {
        file_date: le_u32(b, 0) as u32,
        n1: le_u32(b, 4) as u32,
        n2: le_u16(b, 8) as u16,
        game_year: le_u16(b, 10) as u16,
        p1: b[12],
        p2: b[13],
        p3: b[14],
        reserved: b[15],
    }
}

/// The 68-byte game record number `k`, after the header.
pub open spec fn game_record(b: Seq<u8>, k: int) -> Seq<u8> {
    b.subrange(16 + 68 * k, 16 + 68 * k + 68)
}

/// The move list that record number `k` of `b` spells: the 60 move bytes
/// in playing order, with the padding zero bytes dropped.
pub open spec fn spec_game_moves(b: Seq<u8>, k: int) -> Seq<u8> {
    keep_nonzero(game_record(b, k).subrange(8, 68))
}

/// Relies on String::from_utf8_lossy: ASCII bytes are valid UTF-8, and
/// decode to the characters with the same code points.
#[verifier::external_body]
fn lossy_string(bytes: &Vec<u8>) -> (r: String)
    ensures
        all_ascii(bytes@) ==> r@ == ascii_chars(bytes@),
{
    String::from_utf8_lossy(bytes).into_owned()
}

/// The little-endian 16-bit integer at `off`.
fn read_le_u16(data: &[u8], off: usize) -> (r: u16)
    requires
        off + 2 <= data@.len(),
    ensures
        r == le_u16(data@, off as int),
{
    data[off] as u16 + 0x100 * (data[off + 1] as u16)
}

/// The little-endian 32-bit integer at `off`.
fn read_le_u32(data: &[u8], off: usize) -> (r: u32)
    requires
        off + 4 <= data@.len(),
    ensures
        r == le_u32(data@, off as int),
{
    data[off] as u32 + 0x100 * (data[off + 1] as u32) + 0x1_0000 * (data[off + 2] as u32)
        + 0x100_0000 * (data[off + 3] as u32)
}

/// Decode the common 16-byte header. A shorter buffer is rejected as
/// `InvalidFormat`.
pub fn parse_header(data: &[u8]) -> (r: Result<WThorFileHeader, OthelloError>)
    ensures
        match r {
            Ok(h) => data@.len() >= 16 && h == spec_header(data@),
            Err(e) => data@.len() < 16 && e == OthelloError::InvalidFormat,
        },
{
    if data.len() < 16 {
        return Err(OthelloError::InvalidFormat);
    }
    Ok(
        WThorFileHeader {
            file_date: read_le_u32(data, 0),
            n1: read_le_u32(data, 4),
            n2: read_le_u16(data, 8),
            game_year: read_le_u16(data, 10),
            p1: data[12],
            p2: data[13],
            p3: data[14],
            reserved: data[15],
        },
    )
}

/// Collect the nonzero bytes of `data[from..to]`, order kept.
fn collect_nonzero(data: &[u8], from: usize, to: usize) -> (v: Vec<u8>)
    requires
        from <= to <= data@.len(),
    ensures
        v@ == keep_nonzero(data@.subrange(from as int, to as int)),
        all_ascii(data@.subrange(from as int, to as int)) ==> all_ascii(v@),
{
    let mut v: Vec<u8> = Vec::new();
    let mut j: usize = from;
    while j < to
        invariant
            from <= j <= to <= data@.len(),
            v@ == keep_nonzero(data@.subrange(from as int, j as int)),
            all_ascii(data@.subrange(from as int, to as int)) ==> all_ascii(v@),
        decreases to - j,
    {
        proof {
            assert(data@.subrange(from as int, (j + 1) as int).drop_last() =~= data@.subrange(
                from as int,
                j as int,
            ));
            assert(data@.subrange(from as int, (j + 1) as int).last() == data@[j as int]);
            assert(data@.subrange(from as int, to as int)[j - from] == data@[j as int]);
        }
        let b = data[j];
        if b != 0 {
            v.push(b);
        }
        j = j + 1;
    }
    proof {
        assert(data@.subrange(from as int, to as int) =~= data@.subrange(from as int, j as int));
    }
    v
}

/// Decode a whole player file: the header, then `n2` 20-byte name
/// records. Names drop their padding zero bytes; an ASCII name decodes to
/// exactly its characters. A buffer too short for its own record count is
/// rejected as `InvalidFormat`.
pub fn parse_players(data: &[u8]) -> (r: Result<WThorFile<WThorPlayer>, OthelloError>)
    ensures
        match r {
            Ok(f) => data@.len() >= 16 && f.header == spec_header(data@) && f.data@.len() == le_u16(
                data@,
                8,
            ) && data@.len() >= 16 + 20 * le_u16(data@, 8) && (forall|k: int|
                0 <= k < f.data@.len() ==> (all_ascii(
                    data@.subrange(16 + 20 * k, 16 + 20 * k + 20),
                ) ==> (#[trigger] f.data@[k]).player@ == ascii_chars(
                    keep_nonzero(data@.subrange(16 + 20 * k, 16 + 20 * k + 20)),
                ))),
            Err(e) => e == OthelloError::InvalidFormat && (data@.len() < 16 || data@.len() < 16 + 20
                * le_u16(data@, 8)),
        },
{
    let header = match parse_header(data) {
        Ok(h) => h,
        Err(e) => {
            return Err(e);
        },
    };
    let n = header.n2 as usize;
    let mut out: Vec<WThorPlayer> = Vec::new();
    let mut k: usize = 0;
    let mut off: usize = 16;
    while k < n
        invariant
            data@.len() >= 16,
            header == spec_header(data@),
            n == le_u16(data@, 8),
            k <= n,
            off == 16 + 20 * k,
            off <= data@.len(),
            out@.len() == k,
            forall|t: int|
                0 <= t < k ==> (all_ascii(data@.subrange(16 + 20 * t, 16 + 20 * t + 20)) ==> (
                #[trigger] out@[t]).player@ == ascii_chars(
                    keep_nonzero(data@.subrange(16 + 20 * t, 16 + 20 * t + 20)),
                )),
        decreases n - k,
    {
        if data.len() - off < 20 {
            proof {
                assert(data@.len() < 16 + 20 * n) by (nonlinear_arith)
                    requires
                        data@.len() < off + 20,
                        off == 16 + 20 * k,
                        k < n,
                ;
            }
            return Err(OthelloError::InvalidFormat);
        }
        let name_bytes = collect_nonzero(data, off, off + 20);
        let name = lossy_string(&name_bytes);
        out.push(WThorPlayer { player: name });
        k = k + 1;
        off = off + 20;
    }
    proof {
        assert(data@.len() >= 16 + 20 * n);
    }
    Ok(WThorFile { header: header, data: out })
}

/// Decode a whole tournament file: the header, then `n2` 26-byte name
/// records, as in [`parse_players`].
pub fn parse_tournaments(data: &[u8]) -> (r: Result<WThorFile<WThorTournament>, OthelloError>)
    ensures
        match r {
            Ok(f) => data@.len() >= 16 && f.header == spec_header(data@) && f.data@.len() == le_u16(
                data@,
                8,
            ) && data@.len() >= 16 + 26 * le_u16(data@, 8) && (forall|k: int|
                0 <= k < f.data@.len() ==> (all_ascii(
                    data@.subrange(16 + 26 * k, 16 + 26 * k + 26),
                ) ==> (#[trigger] f.data@[k]).tournament@ == ascii_chars(
                    keep_nonzero(data@.subrange(16 + 26 * k, 16 + 26 * k + 26)),
                ))),
            Err(e) => e == OthelloError::InvalidFormat && (data@.len() < 16 || data@.len() < 16 + 26
                * le_u16(data@, 8)),
        },
{
    let header = match parse_header(data) {
        Ok(h) => h,
        Err(e) => {
            return Err(e);
        },
    };
    let n = header.n2 as usize;
    let mut out: Vec<WThorTournament> = Vec::new();
    let mut k: usize = 0;
    let mut off: usize = 16;
    while k < n
        invariant
            data@.len() >= 16,
            header == spec_header(data@),
            n == le_u16(data@, 8),
            k <= n,
            off == 16 + 26 * k,
            off <= data@.len(),
            out@.len() == k,
            forall|t: int|
                0 <= t < k ==> (all_ascii(data@.subrange(16 + 26 * t, 16 + 26 * t + 26)) ==> (
                #[trigger] out@[t]).tournament@ == ascii_chars(
                    keep_nonzero(data@.subrange(16 + 26 * t, 16 + 26 * t + 26)),
                )),
        decreases n - k,
    {
        if data.len() - off < 26 {
            proof {
                assert(data@.len() < 16 + 26 * n) by (nonlinear_arith)
                    requires
                        data@.len() < off + 26,
                        off == 16 + 26 * k,
                        k < n,
                ;
            }
            return Err(OthelloError::InvalidFormat);
        }
        let name_bytes = collect_nonzero(data, off, off + 26);
        let name = lossy_string(&name_bytes);
        out.push(WThorTournament { tournament: name });
        k = k + 1;
        off = off + 26;
    }
    proof {
        assert(data@.len() >= 16 + 26 * n);
    }
    Ok(WThorFile { header: header, data: out })
}

/// Decode a whole game file: the header, then `n1` 68-byte game records.
/// A game keeps its moves in playing order, with the padding zero bytes
/// dropped. A buffer too short for its own record count is rejected as
/// `InvalidFormat`.
pub fn parse_games(data: &[u8]) -> (r: Result<WThorFile<WThorGame>, OthelloError>)
    ensures
        match r {
            Ok(f) => data@.len() >= 16 && f.header == spec_header(data@) && f.data@.len() == le_u32(
                data@,
                4,
            ) && data@.len() >= 16 + 68 * le_u32(data@, 4) && (forall|k: int|
                0 <= k < f.data@.len() ==> {
                    let g = #[trigger] f.data@[k];
                    let rec = game_record(data@, k);
                    g.tournament_title_id == le_u16(rec, 0) && g.black_player_id == le_u16(rec, 2)
                        && g.white_player_id == le_u16(rec, 4) && g.black_pieces_id == rec[6]
                        && g.theoretical_score == rec[7] && g.moves@ == spec_game_moves(data@, k)
                }),
            Err(e) => e == OthelloError::InvalidFormat && (data@.len() < 16 || data@.len() < 16 + 68
                * le_u32(data@, 4)),
        },
{
    let header = match parse_header(data) {
        Ok(h) => h,
        Err(e) => {
            return Err(e);
        },
    };
    let n = header.n1 as usize;
    let mut out: Vec<WThorGame> = Vec::new();
    let mut k: usize = 0;
    let mut off: usize = 16;
    while k < n
        invariant
            data@.len() >= 16,
            header == spec_header(data@),
            n == le_u32(data@, 4),
            k <= n,
            off == 16 + 68 * k,
            off <= data@.len(),
            out@.len() == k,
            forall|t: int|
                0 <= t < k ==> {
                    let g = #[trigger] out@[t];
                    let rec = game_record(data@, t);
                    g.tournament_title_id == le_u16(rec, 0) && g.black_player_id == le_u16(rec, 2)
                        && g.white_player_id == le_u16(rec, 4) && g.black_pieces_id == rec[6]
                        && g.theoretical_score == rec[7] && g.moves@ == spec_game_moves(data@, t)
                },
        decreases n - k,
    {
        if data.len() - off < 68 {
            proof {
                assert(data@.len() < 16 + 68 * n) by (nonlinear_arith)
                    requires
                        data@.len() < off + 68,
                        off == 16 + 68 * k,
                        k < n,
                ;
            }
            return Err(OthelloError::InvalidFormat);
        }
        proof {
            assert(game_record(data@, k as int) =~= data@.subrange(
                off as int,
                off as int + 68,
            ));
        }
        let moves = collect_nonzero(data, off + 8, off + 68);
        proof {
            assert(game_record(data@, k as int).subrange(8, 68) =~= data@.subrange(
                off as int + 8,
                off as int + 68,
            ));
        }
        let game = WThorGame {
            tournament_title_id: read_le_u16(data, off),
            black_player_id: read_le_u16(data, off + 2),
            white_player_id: read_le_u16(data, off + 4),
            black_pieces_id: data[off + 6],
            theoretical_score: data[off + 7],
            moves: moves,
        };
        out.push(game);
        k = k + 1;
        off = off + 68;
    }
    proof {
        assert(data@.len() >= 16 + 68 * n);
    }
    Ok(WThorFile { header: header, data: out })
}

/// The algebraic code of one WThor move byte: the byte spells
/// `10 * row + column`, row and column 1-based, so 34 names the square
/// D3. A byte whose row or column lies outside 1 to 8 is rejected as
/// `OutOfRange`.
pub fn convert_to_algebric(mv: &u8) -> (r: Result<String, OthelloError>)
    ensures
        match r {
            Ok(s) => 1 <= *mv % 10 <= 8 && 1 <= *mv / 10 <= 8 && s@ == algebraic_code(
                *mv % 10 - 1,
                *mv / 10 - 1,
            ),
            Err(e) => e == OthelloError::OutOfRange && (*mv % 10 < 1 || *mv % 10 > 8 || *mv / 10 < 1
                || *mv / 10 > 8),
        },
{
    let col = *mv % 10;
    let row = *mv / 10;
    if col < 1 || col > 8 || row < 1 || row > 8 {
        return Err(OthelloError::OutOfRange);
    }
    Point::to_algebric(((col - 1) as usize, (row - 1) as usize))
}

} // verus!
