//! FreeCell solitaire rules, verified.
//!
//! Cards are short fixed-width string tokens: a two-character rank prefix
//! ("A ", "2 ", ..., "10", "J ", "Q ", "K ") followed by a suit glyph.
//! The board is eight cascades; row 0 of each column is a special slot
//! (free cells on the first four columns, foundations on the last four),
//! holding either a card or the three-space blank marker.

pub mod board;
pub mod card;
pub mod cursor;
pub mod moves;
