//! Verified Othello (Reversi): board engine, alpha-beta minimax search and
//! Monte Carlo tree search, with machine-checked contracts on the game rules.

pub mod benchmark;
pub mod mcts;
pub mod minimax;
pub mod othello;
pub mod rng;
