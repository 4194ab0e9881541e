//! Exact expected scores for the discard decision in five-card draw poker.
//!
//! A dealt hand is classified into a poker category, the cards that could
//! replace discarded ones are enumerated exhaustively, and every probability
//! is kept as an exact ratio of integers.

pub mod cards;
pub mod classify;
pub mod deck;
pub mod enumerate;
pub mod parse;
pub mod ratio;
pub mod strategy;
pub mod tally;
