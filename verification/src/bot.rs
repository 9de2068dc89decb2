//! The bots that play the pawn game: static heuristics with two simple
//! one-rule players, and the proven-outcome Monte Carlo tree search bot.

pub mod heuristic;
pub mod mcts_heuristic_bot;
