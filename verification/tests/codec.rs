use othlib::coordinate::Coordinate;
use othlib::error::OthelloError;
use othlib::point::Point;

#[test]
fn point_to_index_corners() {
    assert_eq!(Point::to_index((0, 0)), 0);
    assert_eq!(Point::to_index((7, 7)), 63);
}

#[test]
fn point_to_coordinate_corners() {
    assert_eq!(Point::to_coordinate(0), (0, 0));
    assert_eq!(Point::to_coordinate(63), (7, 7));
}

#[test]
fn point_to_bitboard_coordinate_maps_and_rejects() {
    assert_eq!(Point::to_bitboard_coordinate(63), Ok((0, 0)));
    assert_eq!(Point::to_bitboard_coordinate(0), Ok((7, 7)));
    assert_eq!(Point::to_bitboard_coordinate(64), Err(OthelloError::OutOfRange));
}

#[test]
fn point_to_algebric_examples() {
    assert_eq!(Point::to_algebric((0, 0)).unwrap(), "A1");
    assert_eq!(Point::to_algebric((3, 3)).unwrap(), "D4");
    assert_eq!(Point::to_algebric((7, 7)).unwrap(), "H8");
    assert_eq!(Point::to_algebric((8, 0)), Err(OthelloError::OutOfRange));
    assert_eq!(Point::to_algebric((0, 8)), Err(OthelloError::OutOfRange));
}

#[test]
fn point_from_algebric_examples() {
    assert_eq!(Point::from_algebric("A1"), Ok((0, 0)));
    assert_eq!(Point::from_algebric("D4"), Ok((3, 3)));
    assert_eq!(Point::from_algebric("H8"), Ok((7, 7)));
}

#[test]
fn point_from_algebric_is_case_insensitive() {
    assert_eq!(Point::from_algebric("d4"), Ok((3, 3)));
    assert_eq!(Point::from_algebric("h8"), Ok((7, 7)));
}

#[test]
fn point_from_algebric_rejects_bad_shapes() {
    assert_eq!(Point::from_algebric(""), Err(OthelloError::InvalidFormat));
    assert_eq!(Point::from_algebric("A"), Err(OthelloError::InvalidFormat));
    assert_eq!(Point::from_algebric("4D"), Err(OthelloError::InvalidFormat));
    assert_eq!(Point::from_algebric("A1x"), Err(OthelloError::InvalidFormat));
    assert_eq!(Point::from_algebric("AA1"), Err(OthelloError::InvalidFormat));
}

#[test]
fn point_from_algebric_rejects_out_of_board() {
    assert_eq!(Point::from_algebric("I1"), Err(OthelloError::OutOfRange));
    assert_eq!(Point::from_algebric("Z3"), Err(OthelloError::OutOfRange));
    assert_eq!(Point::from_algebric("A0"), Err(OthelloError::OutOfRange));
    assert_eq!(Point::from_algebric("A9"), Err(OthelloError::OutOfRange));
    assert_eq!(Point::from_algebric("A10"), Err(OthelloError::OutOfRange));
    assert_eq!(Point::from_algebric("A99999999999"), Err(OthelloError::OutOfRange));
}

#[test]
fn point_algebraic_round_trip_all_squares() {
    for x in 0..8usize {
        for y in 0..8usize {
            let code = Point::to_algebric((x, y)).unwrap();
            assert_eq!(Point::from_algebric(&code), Ok((x, y)));
        }
    }
}

#[test]
fn point_linear_round_trip_all_squares() {
    for x in 0..8usize {
        for y in 0..8usize {
            assert_eq!(Point::to_coordinate(Point::to_index((x, y))), (x, y));
        }
    }
}

#[test]
fn coordinate_new_and_to_index() {
    let origin = Coordinate::new(0, 0);
    let last = Coordinate::new(7, 7);
    assert_eq!(origin.to_index(8), 0);
    assert_eq!(last.to_index(8), 63);
}

#[test]
fn coordinate_to_coordinate_examples() {
    assert_eq!(Coordinate::to_coordinate(0, 8), Coordinate { x: 0, y: 0 });
    assert_eq!(Coordinate::to_coordinate(35, 8), Coordinate { x: 3, y: 4 });
    assert_eq!(Coordinate::to_coordinate(28, 8), Coordinate { x: 4, y: 3 });
    assert_eq!(Coordinate::to_coordinate(63, 8), Coordinate { x: 7, y: 7 });
}

#[test]
fn coordinate_to_bitboard_examples() {
    assert_eq!(Coordinate::to_bitboard(63), Ok((0, 0)));
    assert_eq!(Coordinate::to_bitboard(0), Ok((7, 7)));
    assert_eq!(Coordinate::to_bitboard(64), Err(OthelloError::OutOfRange));
    assert_eq!(Coordinate::to_bitboard_coordinate(63), Ok((0, 0)));
    assert_eq!(Coordinate::to_bitboard_coordinate(0), Ok((7, 7)));
}

#[test]
fn coordinate_to_linear_and_from_linear() {
    assert_eq!(Coordinate::to_linear((0, 0)), 0);
    assert_eq!(Coordinate::to_linear((7, 7)), 63);
    assert_eq!(Coordinate::from_linear(0), (0, 0));
    assert_eq!(Coordinate::from_linear(63), (7, 7));
}

#[test]
fn coordinate_to_bit_index_examples() {
    assert_eq!(Coordinate::to_bit_index(0), Ok(63));
    assert_eq!(Coordinate::to_bit_index(63), Ok(0));
    assert_eq!(Coordinate::to_bit_index(64), Err(OthelloError::OutOfRange));
}

#[test]
fn coordinate_to_algebric_supports_26_rows() {
    assert_eq!(Coordinate::new(0, 0).to_algebric().unwrap(), "A1");
    assert_eq!(Coordinate::new(25, 25).to_algebric().unwrap(), "Z26");
    assert_eq!(Coordinate::new(9, 9).to_algebric().unwrap(), "J10");
    assert_eq!(Coordinate::new(26, 0).to_algebric(), Err(OthelloError::OutOfRange));
}

#[test]
fn coordinate_from_algebric_examples() {
    let c1 = Coordinate::from_algebric("A1").unwrap();
    assert_eq!((c1.x, c1.y), (0, 0));
    let c2 = Coordinate::from_algebric("H8").unwrap();
    assert_eq!((c2.x, c2.y), (7, 7));
    let c3 = Coordinate::from_algebric("Z26").unwrap();
    assert_eq!((c3.x, c3.y), (25, 25));
    assert_eq!(Coordinate::from_algebric("A27"), Err(OthelloError::OutOfRange));
}

#[test]
fn coordinate_algebraic_round_trip_whole_range() {
    for x in 0..26usize {
        for y in 0..26usize {
            let code = Coordinate::new(x, y).to_algebric().unwrap();
            let back = Coordinate::from_algebric(&code).unwrap();
            assert_eq!((back.x, back.y), (x, y));
        }
    }
}

#[test]
fn adjacent_corner_has_three_neighbours() {
    let v = Coordinate::new(0, 0).adjacent(8);
    assert_eq!(v.len(), 3);
    assert!(v.contains(&Coordinate { x: 0, y: 1 }));
    assert!(v.contains(&Coordinate { x: 1, y: 0 }));
    assert!(v.contains(&Coordinate { x: 1, y: 1 }));
}

#[test]
fn adjacent_center_has_eight_neighbours() {
    let v = Coordinate::new(3, 3).adjacent(8);
    assert_eq!(v.len(), 8);
    for (a, b) in [(2, 2), (3, 2), (4, 2), (2, 3), (4, 3), (2, 4), (3, 4), (4, 4)] {
        assert!(v.contains(&Coordinate { x: a, y: b }));
    }
}

#[test]
fn adjacent_edge_has_five_neighbours() {
    let v = Coordinate::new(0, 3).adjacent(8);
    assert_eq!(v.len(), 5);
}
