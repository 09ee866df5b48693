//! A rules engine for the 8x8 two-color disc-flipping board game.
//!
//! Board occupancy is held in 64-bit masks, one per color. Bit index 63
//! stands for the top-left square A1 (grid (0,0)); bit index 0 stands for
//! the bottom-right square H8 (grid (7,7)); in general a square at grid
//! (x, y) owns bit index `63 - (x + 8*y)`. The crate offers:
//!
//! * coordinate codecs linking grid coordinates, linear row-major indexes,
//!   bit indexes and algebraic notation such as "D4";
//! * the eight compass directions with their shift distances and edge masks;
//! * an occupancy shift primitive that moves a whole mask one step in a
//!   direction without letting discs wrap around a board edge;
//! * a flood-fill move generator that derives the legal-move mask from the
//!   two opposing occupancy masks;
//! * a square-array board for loading and inspecting positions, and
//!   readers for the WThor game-archive record layout.

pub mod bitboard;
pub mod board;
pub mod color;
pub mod coordinate;
pub mod direction;
pub mod error;
pub mod game;
pub mod piece;
pub mod point;
pub mod square;
pub mod svg;
pub mod util;
