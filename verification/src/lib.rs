//! A verified Texas Hold'em engine: card parsing, hand evaluation,
//! sampling without replacement, Monte Carlo equity estimation, and a
//! betting-round state machine with proved chip conservation.

pub mod cards;
pub mod deck;
pub mod equity;
pub mod errors;
pub mod eval;
pub mod game;
