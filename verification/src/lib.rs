//! A verified core for a turn-based dice-bluffing game.
//!
//! Players secretly roll hands of dice and take turns making escalating
//! claims ("bets") about how many dice across all hands show a given face,
//! with face `1` acting as a wildcard. A player may instead challenge
//! ("call fluff") the previous claim, which resolves the round: the loser
//! of the challenge gives up one die, and play continues until a single
//! player remains.

pub mod bet;
pub mod codec;
pub mod game;
pub mod player;
