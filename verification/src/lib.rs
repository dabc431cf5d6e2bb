//! Adversarial search over two-player zero-sum games: alpha-beta negamax,
//! a transposition-table variant, expectiminimax for games with chance
//! nodes, and exhaustive leaf counting, all written once against the
//! [`game::Game`] contract and proved against its abstract model.

pub mod adversarialknight;
pub mod bits;
pub mod connect4;
pub mod coverttt;
pub mod game;
pub mod iter_bits;
pub mod perft;
pub mod rgu;
pub mod solver;
pub mod text;
pub mod tictactoe;
