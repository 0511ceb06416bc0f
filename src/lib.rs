//! A number-guessing game: input classification, the round state machine
//! that drives one round of play, and a small line-search utility.
pub mod guess;
pub mod random;
pub mod search;
