//! An earlier, self-contained sketch of the chess bitboard machinery: the
//! piece-set board and its shift routines in one module.

pub mod board;
