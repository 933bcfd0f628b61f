//! A verified engine for a simplified Blackjack-style card round: a full
//! shuffled deck, fixed-value hand scoring (Ace always 11), and a
//! step-by-step round state machine for a dealer and any number of
//! players. The driver supplies each player's action per step and reads
//! the outcome once the round ends.

pub mod card;
pub mod game;
pub mod player;
