//! A pawn-only capture game (hexapawn on boards of size 3 to 8) together with
//! the bots that play it: simple heuristic bots and a proven-outcome Monte
//! Carlo tree search engine that mixes random playouts with exact win/draw/loss
//! solving.

pub mod attacks;
pub mod bitboard;
pub mod board;
pub mod bot;
pub mod chess;
pub mod consts;
pub mod move_gen;
pub mod position;
pub mod rng;
pub mod shift;
pub mod tree;
pub mod wdl;
