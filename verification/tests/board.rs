use othlib::board::Board;
use othlib::color::Color;
use othlib::coordinate::Coordinate;
use othlib::error::OthelloError;
use othlib::piece::Piece;
use othlib::square::Square;
use othlib::square::Status;

#[test]
fn new_board_is_empty() {
    let board = Board::new(8).unwrap();
    assert_eq!(board.dimension, 8);
    assert_eq!(board.squares.len(), 8 * 8);
    assert_eq!(board.free_squares().len(), 8 * 8);
}

#[test]
fn new_board_rejects_odd_dimensions() {
    assert!(matches!(Board::new(9), Err(OthelloError::UnsupportedDimension)));
    assert!(matches!(Board::new(7), Err(OthelloError::UnsupportedDimension)));
    assert!(Board::new(10).is_ok());
}

#[test]
fn init_places_the_four_center_discs() {
    let mut board = Board::new(8).unwrap();
    board.init().unwrap();
    assert_eq!(board.get_piece(3, 3).unwrap().status, Status::Occupied(Piece::White));
    assert_eq!(board.get_piece(4, 4).unwrap().status, Status::Occupied(Piece::White));
    assert_eq!(board.get_piece(3, 4).unwrap().status, Status::Occupied(Piece::Black));
    assert_eq!(board.get_piece(4, 3).unwrap().status, Status::Occupied(Piece::Black));
    assert_eq!(board.get_piece(0, 0).unwrap().status, Status::Empty);
    assert_eq!(board.free_squares().len(), 8 * 8 - 4);
}

#[test]
fn init_rejects_boards_without_a_center_block() {
    let mut board = Board::new(0).unwrap();
    assert!(matches!(board.init(), Err(OthelloError::UnsupportedDimension)));
}

#[test]
fn set_piece_occupies_one_square() {
    let mut board = Board::new(8).unwrap();
    board.init().unwrap();
    board.set_piece(0, 0, Piece::Black).unwrap();
    assert_eq!(board.free_squares().len(), 8 * 8 - 5);
    assert_eq!(board.get_piece(0, 0).unwrap().status, Status::Occupied(Piece::Black));
}

#[test]
fn set_piece_rejects_positions_past_the_board() {
    let mut board = Board::new(8).unwrap();
    assert_eq!(board.set_piece(0, 8, Piece::Black), Err(OthelloError::OutOfRange));
}

#[test]
fn get_piece_past_the_end_is_none() {
    let board = Board::new(8).unwrap();
    assert!(board.get_piece(0, 8).is_none());
    assert!(board.get_piece(7, 7).is_some());
}

#[test]
fn at_reads_through_a_coordinate() {
    let mut board = Board::new(8).unwrap();
    board.init().unwrap();
    let sq = board.at(&Coordinate::new(3, 3)).unwrap();
    assert_eq!(sq.status, Status::Occupied(Piece::White));
    assert_eq!(sq.coord, Coordinate::new(3, 3));
}

#[test]
fn occupied_squares_lists_each_side() {
    let mut board = Board::new(8).unwrap();
    board.init().unwrap();
    let blacks = board.occupied_squares(Piece::Black);
    assert_eq!(blacks.len(), 2);
    assert!(blacks.contains(&Coordinate::new(3, 4)));
    assert!(blacks.contains(&Coordinate::new(4, 3)));
    let whites = board.occupied_squares(Piece::White);
    assert_eq!(whites.len(), 2);
    assert!(whites.contains(&Coordinate::new(3, 3)));
    assert!(whites.contains(&Coordinate::new(4, 4)));
}

#[test]
fn value_counts_the_discs() {
    let mut board = Board::new(8).unwrap();
    board.init().unwrap();
    assert_eq!(board.value(Piece::Black), 2);
    assert_eq!(board.value(Piece::White), 2);
    board.set_piece(0, 0, Piece::Black).unwrap();
    assert_eq!(board.value(Piece::Black), 3);
}

#[test]
fn allowed_moves_lists_free_neighbours_of_the_player() {
    let mut board = Board::new(8).unwrap();
    board.init().unwrap();
    let candidates = board.allowed_moves(Piece::Black);
    // the free squares around the two black discs at (3,4) and (4,3)
    assert_eq!(candidates.len(), 10);
    for (a, b) in [
        (2, 3),
        (2, 4),
        (2, 5),
        (3, 5),
        (4, 5),
        (3, 2),
        (4, 2),
        (5, 2),
        (5, 3),
        (5, 4),
    ] {
        assert!(candidates.contains(&Coordinate::new(a, b)), "missing ({}, {})", a, b);
    }
}

#[test]
fn square_predicates() {
    let w = Square::new(Status::Occupied(Piece::White), Coordinate::new(1, 2));
    assert!(w.is_white());
    assert!(!w.is_black());
    assert!(!w.is_free());
    assert!(w.is_color(Color::White));
    assert!(!w.is_color(Color::Black));
    let b = Square::new(Status::Occupied(Piece::Black), Coordinate::new(0, 0));
    assert!(b.is_black());
    assert!(!b.is_white());
    assert!(b.is_color(Color::Black));
    let e = Square::new(Status::Empty, Coordinate::new(0, 0));
    assert!(e.is_free());
    assert!(!e.is_white());
    assert!(!e.is_black());
    assert!(!e.is_color(Color::White));
}

#[test]
fn square_default_is_empty_at_origin() {
    let sq = Square::default();
    assert_eq!(sq.status, Status::Empty);
    assert_eq!(sq.coord, Coordinate::new(0, 0));
}

#[test]
fn color_flip_is_an_involution() {
    let p = Color::White;
    assert_eq!(p.flip(), Color::Black);
    assert_eq!(p.flip().flip(), Color::White);
}

#[test]
fn piece_swap_is_an_involution() {
    let p = Piece::White;
    assert_eq!(p.swap(), Piece::Black);
    assert_eq!(p.swap().swap(), Piece::White);
}

#[test]
fn error_labels_are_distinct() {
    let labels = [
        OthelloError::OutOfRange.label(),
        OthelloError::InvalidFormat.label(),
        OthelloError::StateInvariantViolation.label(),
        OthelloError::UnsupportedDimension.label(),
    ];
    for i in 0..labels.len() {
        for j in 0..labels.len() {
            if i != j {
                assert_ne!(labels[i], labels[j]);
            }
        }
    }
}

#[test]
fn load_reads_a_drawing() {
    let position = "--------\n--------\n--WB----\n--------\n--------\n--------\n--------\n--------";
    let board = Board::load(position).unwrap();
    assert_eq!(board.dimension, 8);
    assert_eq!(board.free_squares().len(), 8 * 8 - 2);
    assert_eq!(board.get_piece(2, 2).unwrap().status, Status::Occupied(Piece::White));
    assert_eq!(board.get_piece(3, 2).unwrap().status, Status::Occupied(Piece::Black));
}

#[test]
fn load_skips_blank_padding() {
    let position = "--------\n    --------\n    --WB----\n    --------\n    --------\n    --------\n    --------\n    --------";
    let board = Board::load(position).unwrap();
    assert_eq!(board.free_squares().len(), 8 * 8 - 2);
    assert_eq!(board.get_piece(2, 2).unwrap().status, Status::Occupied(Piece::White));
}

#[test]
fn load_rejects_unknown_marks() {
    assert!(matches!(Board::load("---X\n----\n----\n----"), Err(OthelloError::InvalidFormat)));
}

#[test]
fn load_rejects_odd_row_counts() {
    assert!(matches!(Board::load("--\n--\n--"), Err(OthelloError::UnsupportedDimension)));
}

#[test]
fn load_rejects_pieces_past_the_board() {
    assert!(matches!(Board::load("--B\n--"), Err(OthelloError::OutOfRange)));
}

#[test]
fn load_of_nothing_is_an_empty_board() {
    let board = Board::load("").unwrap();
    assert_eq!(board.dimension, 0);
    assert_eq!(board.squares.len(), 0);
}
