use othlib::bitboard::BitBoard as ColorBoard;
use othlib::board::bitboard::BitBoard;
use othlib::color::Color;
use othlib::direction::Direction;
use othlib::error::OthelloError;

const ALL_DIRECTIONS: [Direction; 8] = [
    Direction::N,
    Direction::NE,
    Direction::E,
    Direction::SE,
    Direction::S,
    Direction::SW,
    Direction::W,
    Direction::NW,
];

fn bit_of(code: &str) -> u64 {
    let (x, y) = othlib::point::Point::from_algebric(code).unwrap();
    1u64 << (63 - (x + 8 * y))
}

#[test]
fn initial_position_counts() {
    let board = ColorBoard::new();
    assert_eq!(board.nb_empty(), 8 * 8 - 4);
    assert_eq!(board.nb_occupied(), 4);
}

#[test]
fn initial_position_masks() {
    let board = ColorBoard::new();
    assert_eq!(board.get(Color::Black), bit_of("D5") | bit_of("E4"));
    assert_eq!(board.get(Color::White), bit_of("D4") | bit_of("E5"));
}

#[test]
fn set_value_keeps_masks_disjoint() {
    let mut board = ColorBoard::new();
    // the low row is free in the initial position
    assert_eq!(board.set_value(0xFF, Color::Black), Ok(()));
    assert_eq!(board.get(Color::Black), 0xFF);
    assert_eq!(board.nb_occupied(), 8 + 2);
    // overlapping white's discs is a state invariant violation
    let white = board.get(Color::White);
    let r = board.set_value(white | 1, Color::Black);
    assert_eq!(r, Err(OthelloError::StateInvariantViolation));
    // the rejected mask changed nothing
    assert_eq!(board.get(Color::Black), 0xFF);
}

#[test]
fn color_board_shift_routes_through_primitive() {
    let board = ColorBoard::new();
    let white = board.get(Color::White);
    assert_eq!(board.shift(Direction::S, Color::White), Direction::S.shift(white));
    assert_eq!(board.shift(Direction::NE, Color::White), Direction::NE.shift(white));
}

#[test]
fn direction_table_values() {
    assert_eq!(Direction::E.shift_distance(), 1);
    assert_eq!(Direction::SE.shift_distance(), 9);
    assert_eq!(Direction::S.shift_distance(), 8);
    assert_eq!(Direction::SW.shift_distance(), 7);
    assert!(Direction::E.toward_lower());
    assert!(Direction::SE.toward_lower());
    assert!(Direction::S.toward_lower());
    assert!(Direction::SW.toward_lower());
    assert!(!Direction::W.toward_lower());
    assert!(!Direction::NW.toward_lower());
    assert!(!Direction::N.toward_lower());
    assert!(!Direction::NE.toward_lower());
    assert_eq!(Direction::E.edge_mask(), 0x7F7F7F7F7F7F7F7F);
    assert_eq!(Direction::SE.edge_mask(), 0x007F7F7F7F7F7F7F);
    assert_eq!(Direction::S.edge_mask(), 0xFFFFFFFFFFFFFFFF);
    assert_eq!(Direction::SW.edge_mask(), 0x00FEFEFEFEFEFEFE);
    assert_eq!(Direction::W.edge_mask(), 0xFEFEFEFEFEFEFEFE);
    assert_eq!(Direction::NW.edge_mask(), 0xFEFEFEFEFEFEFE00);
    assert_eq!(Direction::N.edge_mask(), 0xFFFFFFFFFFFFFFFF);
    assert_eq!(Direction::NE.edge_mask(), 0x7F7F7F7F7F7F7F00);
}

#[test]
fn rows_of_full_and_banded_masks() {
    let bitboard = BitBoard::max_value();
    assert_eq!(bitboard.row(0).unwrap(), [1; 8]);

    let banded = BitBoard::new(
        0b00000000_11111111_11111111_11111111_11111111_11111111_11111111_00000000,
    );
    assert_eq!(banded.row(0).unwrap(), vec![0; 8]);
    for i in 1..=6 {
        assert_eq!(banded.row(i).unwrap(), vec![1; 8]);
    }
    assert_eq!(banded.row(7).unwrap(), vec![0; 8]);
    assert_eq!(banded.row(8), Err(OthelloError::OutOfRange));
}

#[test]
fn cols_of_edge_masks() {
    let bitboard = BitBoard::max_value();
    assert_eq!(bitboard.col(0).unwrap(), [1; 8]);

    let cut = BitBoard::new(
        0b01111111_01111111_01111111_01111111_01111111_01111111_01111111_00000000,
    );
    assert_eq!(cut.col(0).unwrap(), vec![0; 8]);
    for j in 1..=7 {
        assert_eq!(cut.col(j).unwrap(), vec![1, 1, 1, 1, 1, 1, 1, 0]);
    }
    assert_eq!(cut.col(8), Err(OthelloError::OutOfRange));
}

#[test]
fn shr_moves_the_full_board_one_step() {
    let bitboard = BitBoard::max_value();

    let shifted = bitboard.shr(&Direction::N);
    for i in 0..=6 {
        assert_eq!(shifted.row(i).unwrap(), vec![1; 8]);
    }
    assert_eq!(shifted.row(7).unwrap(), vec![0; 8]);

    let shifted = bitboard.shr(&Direction::E);
    for i in 0..=7 {
        assert_eq!(shifted.row(i).unwrap(), [0, 1, 1, 1, 1, 1, 1, 1]);
    }
    assert_eq!(shifted.col(0).unwrap(), vec![0; 8]);

    let shifted = bitboard.shr(&Direction::SE);
    assert_eq!(shifted.row(0).unwrap(), vec![0; 8]);
    for i in 1..=7 {
        assert_eq!(shifted.row(i).unwrap(), [0, 1, 1, 1, 1, 1, 1, 1]);
    }

    let shifted = bitboard.shr(&Direction::SW);
    assert_eq!(shifted.row(0).unwrap(), vec![0; 8]);
    for i in 1..=7 {
        assert_eq!(shifted.row(i).unwrap(), [1, 1, 1, 1, 1, 1, 1, 0]);
    }
    assert_eq!(shifted.col(7).unwrap(), vec![0; 8]);

    let shifted = bitboard.shr(&Direction::W);
    for i in 0..=7 {
        assert_eq!(shifted.row(i).unwrap(), [1, 1, 1, 1, 1, 1, 1, 0]);
    }

    let shifted = bitboard.shr(&Direction::NW);
    assert_eq!(shifted.row(7).unwrap(), vec![0; 8]);
    assert_eq!(shifted.col(7).unwrap(), vec![0; 8]);

    let shifted = bitboard.shr(&Direction::NE);
    assert_eq!(shifted.row(7).unwrap(), vec![0; 8]);
    assert_eq!(shifted.col(0).unwrap(), vec![0; 8]);

    let shifted = bitboard.shr(&Direction::S);
    assert_eq!(shifted.row(0).unwrap(), vec![0; 8]);
}

#[test]
fn eight_shifts_clear_any_mask() {
    for d in ALL_DIRECTIONS {
        // a lone center disc
        let mut m = BitBoard::new(1u64 << 27);
        for _ in 0..8 {
            m = m.shr(&d);
        }
        assert_eq!(m.bits, 0, "direction {:?}", d);
        // and the full board
        let mut m = BitBoard::max_value();
        for _ in 0..8 {
            m = m.shr(&d);
        }
        assert_eq!(m.bits, 0, "direction {:?}", d);
    }
}

#[test]
fn edge_loss_is_permanent() {
    let m = 0x8142241818244281u64;
    let west_then_east = Direction::E.shift(Direction::W.shift(m));
    assert_eq!(west_then_east, m & 0x7F7F7F7F7F7F7F7F);
    let east_then_west = Direction::W.shift(Direction::E.shift(m));
    assert_eq!(east_then_west, m & 0xFEFEFEFEFEFEFEFE);
}

#[test]
fn line_cap_moves_midgame_position() {
    let black = BitBoard::new(
        0b01000000_11011110_01000110_00101110_00011010_00011100_00000000_00000000,
    );
    let white = BitBoard::new(
        0b00111110_00100000_00111000_00010000_00100000_00000000_00000000_00000000,
    );

    let moves = white.line_cap_moves(&black);
    assert_eq!(moves.bits, 9223796178917988864u64);

    let black = BitBoard::new(
        0b00000000_00000000_00000000_00000000_00000000_00000001_00000000_00000000,
    );
    let white = BitBoard::new(
        0b11111111_11111111_11111111_11111110_11111100_11111100_11111110_11111111,
    );
    let moves = white.line_cap_moves(&black);
    assert_eq!(moves.bits, 0);
}

#[test]
fn legal_moves_initial_position_black() {
    let board = ColorBoard::new();
    let black = BitBoard::new(board.get(Color::Black));
    let white = BitBoard::new(board.get(Color::White));
    let moves = black.line_cap_moves(&white);
    let expected = bit_of("C4") | bit_of("D3") | bit_of("E6") | bit_of("F5");
    assert_eq!(moves.bits, expected);
}

#[test]
fn legal_moves_initial_position_white() {
    let board = ColorBoard::new();
    let black = BitBoard::new(board.get(Color::Black));
    let white = BitBoard::new(board.get(Color::White));
    let moves = white.line_cap_moves(&black);
    let expected = bit_of("C5") | bit_of("D6") | bit_of("E3") | bit_of("F4");
    assert_eq!(moves.bits, expected);
}

#[test]
fn full_board_has_no_moves() {
    // several splits of a fully occupied board
    for own in [0u64, 0xFFFF_FFFF_0000_0000, 0xAAAA_AAAA_AAAA_AAAA, u64::MAX] {
        let opp = !own;
        let moves = BitBoard::new(own).line_cap_moves(&BitBoard::new(opp));
        assert_eq!(moves.bits, 0);
    }
}

#[test]
fn empty_own_side_has_no_moves() {
    for opp in [0u64, 0x0000_0018_1800_0000, u64::MAX, 0x123456789ABCDEF0] {
        let moves = BitBoard::new(0).line_cap_moves(&BitBoard::new(opp));
        assert_eq!(moves.bits, 0);
    }
}

#[test]
fn color_swap_gives_the_other_sides_moves() {
    let a = BitBoard::new(0b01000000_11011110_01000110_00101110_00011010_00011100_00000000_00000000);
    let b = BitBoard::new(0b00111110_00100000_00111000_00010000_00100000_00000000_00000000_00000000);
    let for_a = a.line_cap_moves(&b).bits;
    let for_b = b.line_cap_moves(&a).bits;
    // each side's mask holds only empty squares, and the two differ here
    let occupied = a.bits | b.bits;
    assert_eq!(for_a & occupied, 0);
    assert_eq!(for_b & occupied, 0);
    assert_ne!(for_a, for_b);
    assert_eq!(for_b, 9223796178917988864u64);
}

#[test]
fn zero_and_max_value_masks() {
    assert_eq!(BitBoard::zero().bits, 0);
    assert_eq!(BitBoard::max_value().bits, u64::MAX);
    assert_eq!(BitBoard::new(42).bits, 42);
}

#[test]
fn empty_and_occupied_counts_split_the_board() {
    let mut board = ColorBoard::new();
    assert_eq!(board.nb_empty() + board.nb_occupied(), 64);
    board.set_value(0, Color::Black).unwrap();
    assert_eq!(board.nb_empty() + board.nb_occupied(), 64);
    board.set_value(0, Color::White).unwrap();
    board.set_value(u64::MAX, Color::Black).unwrap();
    assert_eq!(board.nb_empty() + board.nb_occupied(), 64);
    assert_eq!(board.nb_empty(), 0);
    assert_eq!(board.nb_occupied(), 64);
}

#[test]
fn mask_to_algebric_coordinates() {
    let v = BitBoard::new(17293822569102704640u64).to_algebric_coordinates();
    assert_eq!(v, vec!["A1", "B1", "C1", "D1"]);

    let v = BitBoard::new(3u64).to_algebric_coordinates();
    assert_eq!(v, vec!["G8", "H8"]);

    let v = BitBoard::new(1u64 << 63).to_algebric_coordinates();
    assert_eq!(v, vec!["A1"]);

    let v = BitBoard::zero().to_algebric_coordinates();
    assert!(v.is_empty());
}

#[test]
fn mask_from_algebric_coordinates() {
    let bitboard = BitBoard::from_algebric_coordinates(&vec!["A1", "B1", "C1", "D1"]).unwrap();
    assert_eq!(bitboard.bits, 17293822569102704640u64);

    let empty: Vec<&str> = Vec::new();
    assert_eq!(BitBoard::from_algebric_coordinates(&empty).unwrap().bits, 0);

    assert!(matches!(
        BitBoard::from_algebric_coordinates(&vec!["A1", "X9"]),
        Err(OthelloError::OutOfRange)
    ));
    assert!(matches!(
        BitBoard::from_algebric_coordinates(&vec!["5A"]),
        Err(OthelloError::InvalidFormat)
    ));
}

#[test]
fn mask_round_trip_through_algebric_coordinates() {
    let original_mask = 0x0123_4567_89AB_CDEFu64;
    let codes = BitBoard::new(original_mask).to_algebric_coordinates();
    let refs: Vec<&str> = codes.iter().map(|s| s.as_str()).collect();
    let back = BitBoard::from_algebric_coordinates(&refs).unwrap();
    assert_eq!(back.bits, original_mask);
}
