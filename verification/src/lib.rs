//! Rules engine for a card-placement game on a grid whose occupied cells
//! always fit inside a 4 x 4 bounding box.
//!
//! A [`Board`] is an immutable value: playing a card is split into a pure
//! planning step ([`Board::calculate`]) that either rejects the play or
//! returns a plan of effects ([`CalculatedEffects`]), and a commit step
//! ([`CalculatedEffects::execute`]) that derives an entirely new board.

pub mod bbox;
pub mod bitboard;
pub mod board;
pub mod bits;
pub mod cards;
pub mod counting;
pub mod laws;
pub mod compact_field;
pub mod field;

pub use bbox::BoundingBox;
pub use bitboard::BitBoard;
pub use board::Board;
pub use cards::{Card, CardsSet, Rank, Suit};
pub use compact_field::CompactField;
pub use field::{CardToPlay, Field, IllegalCardPlayed};
