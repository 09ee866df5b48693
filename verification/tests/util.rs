use othlib::error::OthelloError;
use othlib::game::wthor::convert_to_algebric;
use othlib::game::wthor::parse_games;
use othlib::game::wthor::parse_header;
use othlib::game::wthor::parse_players;
use othlib::game::wthor::parse_tournaments;
use othlib::svg::vecint64::VecInt64;
use othlib::util::from_vec::FromVec;

#[test]
fn vecint64_new_runs_from_63_down_to_0() {
    let v = VecInt64::new();
    assert!(v.v64.contains(&63));
    assert!(v.v64.contains(&0));
    assert_eq!(v.v64[0], 63);
    assert_eq!(v.v64[63], 0);
    assert_eq!(v.v64.len(), 64);
}

#[test]
fn vecint64_rshift_enters_blanks_at_the_head() {
    let mut v = VecInt64::new();
    v.rshift(8);
    assert!(v.v64.contains(&63));
    assert!(!v.v64.contains(&0));
    assert!(v.v64.contains(&-1));
    assert!(!v.v64.contains(&7));
    assert_eq!(v.v64[8], 63);
}

#[test]
fn vecint64_lshift_enters_blanks_at_the_tail() {
    let mut v = VecInt64::new();
    v.lshift(8);
    assert!(!v.v64.contains(&63));
    assert!(v.v64.contains(&0));
    assert!(v.v64.contains(&54));
    assert_eq!(v.v64[63], -1);
}

#[test]
fn vecint64_mask_blanks_cleared_positions() {
    let mut v = VecInt64::new();
    v.mask(0x8080808080808080);
    assert!(v.v64.contains(&63));
    assert!(!v.v64.contains(&62));
    assert!(v.v64.contains(&55));
}

#[test]
fn from_vec_assembles_the_listed_bits() {
    let v: Vec<usize> = (0..=63).collect();
    assert_eq!(u64::from_vec(v), u64::MAX);
    assert_eq!(u64::from_vec(vec![0, 1]), 3u64);
    assert_eq!(u64::from_vec(vec![]), 0u64);
    assert_eq!(u64::from_vec(vec![63]), 1u64 << 63);
}

fn sample_header() -> Vec<u8> {
    vec![
        0x01, 0x02, 0x03, 0x04, // file date
        0x02, 0x00, 0x00, 0x00, // n1 = 2
        0x03, 0x00, // n2 = 3
        0xC7, 0x07, // year 1991
        8, 0, 0, 0, // p1..reserved
    ]
}

#[test]
fn parse_header_reads_little_endian_fields() {
    let bytes = sample_header();
    let h = parse_header(&bytes).unwrap();
    assert_eq!(h.file_date, 0x04030201);
    assert_eq!(h.n1, 2);
    assert_eq!(h.n2, 3);
    assert_eq!(h.game_year, 1991);
    assert_eq!(h.p1, 8);
    assert_eq!(h.p2, 0);
    assert_eq!(h.p3, 0);
    assert_eq!(h.reserved, 0);
}

#[test]
fn parse_header_rejects_short_buffers() {
    assert!(matches!(parse_header(&[1, 2, 3]), Err(OthelloError::InvalidFormat)));
}

#[test]
fn parse_players_decodes_padded_names() {
    let mut bytes = sample_header();
    bytes[8] = 2; // two players
    let mut rec1 = b"Alice".to_vec();
    rec1.resize(20, 0);
    let mut rec2 = b"Bob".to_vec();
    rec2.resize(20, 0);
    bytes.extend_from_slice(&rec1);
    bytes.extend_from_slice(&rec2);
    let f = parse_players(&bytes).unwrap();
    assert_eq!(f.data.len(), 2);
    assert_eq!(f.data[0].player, "Alice");
    assert_eq!(f.data[1].player, "Bob");
}

#[test]
fn parse_players_rejects_missing_records() {
    let mut bytes = sample_header();
    bytes[8] = 2;
    bytes.extend_from_slice(&[65; 20]); // only one record
    assert!(matches!(parse_players(&bytes), Err(OthelloError::InvalidFormat)));
}

#[test]
fn parse_tournaments_decodes_padded_names() {
    let mut bytes = sample_header();
    bytes[8] = 1;
    let mut rec = b"Worlds".to_vec();
    rec.resize(26, 0);
    bytes.extend_from_slice(&rec);
    let f = parse_tournaments(&bytes).unwrap();
    assert_eq!(f.data.len(), 1);
    assert_eq!(f.data[0].tournament, "Worlds");
}

#[test]
fn parse_games_decodes_records_and_moves() {
    let mut bytes = sample_header();
    bytes[4] = 1; // one game
    let mut rec = vec![
        0x05, 0x00, // tournament id 5
        0x0A, 0x00, // black player 10
        0x0B, 0x00, // white player 11
        34, // black pieces
        61, // theoretical score
    ];
    rec.extend_from_slice(&[56, 66, 65, 0, 0, 34]); // moves, one stray after zeros
    rec.resize(68, 0);
    bytes.extend_from_slice(&rec);
    let f = parse_games(&bytes).unwrap();
    assert_eq!(f.header.n1, 1);
    assert_eq!(f.data.len(), 1);
    let g = &f.data[0];
    assert_eq!(g.tournament_title_id, 5);
    assert_eq!(g.black_player_id, 10);
    assert_eq!(g.white_player_id, 11);
    assert_eq!(g.black_pieces_id, 34);
    assert_eq!(g.theoretical_score, 61);
    assert_eq!(g.moves, vec![56, 66, 65, 34]);
}

#[test]
fn parse_games_rejects_missing_records() {
    let mut bytes = sample_header();
    bytes[4] = 1;
    bytes.extend_from_slice(&[0; 10]);
    assert!(matches!(parse_games(&bytes), Err(OthelloError::InvalidFormat)));
}

#[test]
fn convert_to_algebric_maps_row_and_column() {
    assert_eq!(convert_to_algebric(&34).unwrap(), "D3");
    assert_eq!(convert_to_algebric(&11).unwrap(), "A1");
    assert_eq!(convert_to_algebric(&88).unwrap(), "H8");
    assert_eq!(convert_to_algebric(&65).unwrap(), "E6");
}

#[test]
fn convert_to_algebric_rejects_bytes_off_the_grid() {
    assert_eq!(convert_to_algebric(&0), Err(OthelloError::OutOfRange));
    assert_eq!(convert_to_algebric(&9), Err(OthelloError::OutOfRange));
    assert_eq!(convert_to_algebric(&90), Err(OthelloError::OutOfRange));
    assert_eq!(convert_to_algebric(&10), Err(OthelloError::OutOfRange));
    assert_eq!(convert_to_algebric(&255), Err(OthelloError::OutOfRange));
}
