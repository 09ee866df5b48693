//! Small conversion utilities around the bitboard representation.

pub mod from_vec;
