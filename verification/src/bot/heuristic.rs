//! Static evaluators of pawn-game positions, and the two one-rule bots that
//! always push or always capture when they can.

#![allow(non_snake_case)]

use vstd::prelude::*;
use crate::bitboard::bit_indices;
use crate::bitboard::popcnt;
use crate::board::Board;
use crate::board::Color;
use crate::move_gen::Mask;
use crate::move_gen::Move;
use crate::move_gen::MoveGen;
use crate::move_gen::spec_masked_moves;
use crate::position::Position;
use crate::rng::rand_below;
use crate::wdl::OutcomeWDL;

verus! {

/// A pluggable static evaluator: a cheap numeric estimate of a position's
/// value for the player to act, higher meaning better. `depth` is the number
/// of moves played since the search started, used to prefer faster wins.
pub trait Heuristic<B>: Sized {
    /// The value this evaluator assigns.
    spec fn spec_value(&self, board: &B, depth: u32) -> i64;

    /// Evaluate the position for the player to act.
    fn value(&self, board: &B, depth: u32) -> (r: i64)
        requires
            depth < 0x80000000,
        ensures
            r == self.spec_value(board, depth),
            -0x7FFFFFFF <= r <= 0x7FFFFFFF,
    ;
}

/// All squares a pawn of `bb` stands on or could ever reach moving north.
pub open spec fn spec_n_fill(bb: u64) -> u64 {
    bb | (bb << 8) | (bb << 16) | (bb << 24) | (bb << 32) | (bb << 40) | (bb << 48) | (bb << 56)
}

/// All squares a pawn of `bb` stands on or could ever reach moving south.
pub open spec fn spec_s_fill(bb: u64) -> u64 {
    bb | (bb >> 8) | (bb >> 16) | (bb >> 24) | (bb >> 32) | (bb >> 40) | (bb >> 48) | (bb >> 56)
}

/// North pawn fill by parallel prefix doubling.
pub fn N_fill(bb: u64) -> (r: u64)
    ensures
        r == spec_n_fill(bb),
{
    let ghost b0 = bb;
    let mut bb = bb;
    bb |= bb << 8;
    bb |= bb << 16;
    bb |= bb << 32;
    proof {
        assert({
            let x1 = b0 | (b0 << 8);
            let x2 = x1 | (x1 << 16);
            (x2 | (x2 << 32)) == spec_n_fill(b0)
        }) by (bit_vector);
    }
    bb
}

/// South pawn fill by parallel prefix doubling.
pub fn S_fill(bb: u64) -> (r: u64)
    ensures
        r == spec_s_fill(bb),
{
    let ghost b0 = bb;
    let mut bb = bb;
    bb |= bb >> 8;
    bb |= bb >> 16;
    bb |= bb >> 32;
    proof {
        assert({
            let x1 = b0 | (b0 >> 8);
            let x2 = x1 | (x1 >> 16);
            (x2 | (x2 >> 32)) == spec_s_fill(b0)
        }) by (bit_vector);
    }
    bb
}

/// How far the pawns have come: the number of squares of the rear fill, the
/// fill running away from the side's direction of play.
pub fn advancement_eval(bb: u64, color: Color) -> (r: u32)
    ensures
        color is White ==> r == bit_indices(spec_s_fill(bb)).len(),
        color is Black ==> r == bit_indices(spec_n_fill(bb)).len(),
        r <= 64,
{
    match color {
        Color::White => popcnt(S_fill(bb)) as u32,
        Color::Black => popcnt(N_fill(bb)) as u32,
    }
}

/// The number of pawns of `bb`.
pub fn material_eval(bb: u64) -> (r: u32)
    ensures
        r == bit_indices(bb).len(),
        r <= 64,
{
    popcnt(bb) as u32
}

/// The exact solver signal alone: a huge value for a won position, its
/// negation for a lost one, zero for a draw or an undecided position, with
/// wins reached sooner worth slightly more.
#[derive(Debug, Clone)]
pub struct SolverHeuristicSimplified;

/// The solved-outcome value of a position: zero unless the game is over.
pub open spec fn spec_solver_value(board: &Board, depth: u32) -> i64 {
    match board.spec_outcome() {
        None => 0i64,
        Some(o) => match o.spec_pov(board.spec_player()) {
            OutcomeWDL::Win => (0x7FFFFFFF - depth) as i64,
            OutcomeWDL::Draw => 0i64,
            OutcomeWDL::Loss => (-0x7FFFFFFF + depth) as i64,
        },
    }
}

impl Heuristic<Board> for SolverHeuristicSimplified {
    open spec fn spec_value(&self, board: &Board, depth: u32) -> i64 {
        spec_solver_value(board, depth)
    }

    fn value(&self, board: &Board, depth: u32) -> (r: i64) {
        match Position::<Move>::outcome(board) {
            None => 0i64,
            Some(o) => match o.pov(Position::<Move>::next_player(board)) {
                OutcomeWDL::Win => 0x7FFFFFFFi64 - depth as i64,
                OutcomeWDL::Draw => 0i64,
                OutcomeWDL::Loss => -0x7FFFFFFFi64 + depth as i64,
            },
        }
    }
}

/// The difference between the player's and the opponent's pawn counts, with
/// the exact solver signal on finished positions.
#[derive(Debug, Clone)]
pub struct MaterialHeuristic;

impl Heuristic<Board> for MaterialHeuristic {
    open spec fn spec_value(&self, board: &Board, depth: u32) -> i64 {
        if board.spec_outcome() is Some {
            spec_solver_value(board, depth)
        } else {
            (bit_indices(
                if board.spec_side() is White {
                    board.spec_white()
                } else {
                    board.spec_black()
                },
            ).len() - bit_indices(
                if board.spec_side() is White {
                    board.spec_black()
                } else {
                    board.spec_white()
                },
            ).len()) as i64
        }
    }

    fn value(&self, board: &Board, depth: u32) -> (r: i64) {
        if board.is_done() {
            SolverHeuristicSimplified.value(board, depth)
        } else {
            material_eval(board.pieces_to_move()) as i64 - material_eval(
                board.pieces_not_to_move(),
            ) as i64
        }
    }
}

/// How far the player's own pawns have advanced, with the exact solver
/// signal on finished positions.
#[derive(Debug, Clone)]
pub struct AdvancementHeuristic;

impl Heuristic<Board> for AdvancementHeuristic {
    open spec fn spec_value(&self, board: &Board, depth: u32) -> i64 {
        if board.spec_outcome() is Some {
            spec_solver_value(board, depth)
        } else if board.spec_side() is White {
            bit_indices(spec_s_fill(board.spec_white())).len() as i64
        } else {
            bit_indices(spec_n_fill(board.spec_black())).len() as i64
        }
    }

    fn value(&self, board: &Board, depth: u32) -> (r: i64) {
        if board.is_done() {
            SolverHeuristicSimplified.value(board, depth)
        } else {
            advancement_eval(board.pieces_to_move(), board.side_to_move()) as i64
        }
    }
}

/// The bot that pushes a pawn whenever it can, and otherwise plays a random
/// legal move.
pub struct AlwaysPushBot {
    rng: rand::rngs::StdRng,
}

impl AlwaysPushBot {
    /// Creates a new `AlwaysPushBot`.
    pub fn new(rng: rand::rngs::StdRng) -> AlwaysPushBot {
        AlwaysPushBot { rng }
    }

    /// A uniformly random push move, or a uniformly random legal move when
    /// no push is available.
    pub fn select_move(&mut self, board: &Board) -> (r: Move)
        requires
            spec_masked_moves(
                board.spec_white(),
                board.spec_black(),
                board.spec_side(),
                Mask::All,
            ).len() > 0,
        ensures
            ({
                let pushes = spec_masked_moves(
                    board.spec_white(),
                    board.spec_black(),
                    board.spec_side(),
                    Mask::Push,
                );
                if pushes.len() > 0 {
                    pushes.contains(r)
                } else {
                    spec_masked_moves(
                        board.spec_white(),
                        board.spec_black(),
                        board.spec_side(),
                        Mask::All,
                    ).contains(r)
                }
            }),
    {
        let pushes = MoveGen::with_mask(board, Mask::Push).into_vec();
        if pushes.len() > 0 {
            let i = rand_below(&mut self.rng, pushes.len());
            pushes[i]
        } else {
            board.random_available_move(&mut self.rng)
        }
    }
}

/// The bot that captures a pawn whenever it can, and otherwise plays a
/// random legal move.
pub struct AlwaysCaptureBot {
    rng: rand::rngs::StdRng,
}

impl AlwaysCaptureBot {
    /// Creates a new `AlwaysCaptureBot`.
    pub fn new(rng: rand::rngs::StdRng) -> AlwaysCaptureBot {
        AlwaysCaptureBot { rng }
    }

    /// A uniformly random capture move, or a uniformly random legal move
    /// when no capture is available.
    pub fn select_move(&mut self, board: &Board) -> (r: Move)
        requires
            spec_masked_moves(
                board.spec_white(),
                board.spec_black(),
                board.spec_side(),
                Mask::All,
            ).len() > 0,
        ensures
            ({
                let captures = spec_masked_moves(
                    board.spec_white(),
                    board.spec_black(),
                    board.spec_side(),
                    Mask::Capture,
                );
                if captures.len() > 0 {
                    captures.contains(r)
                } else {
                    spec_masked_moves(
                        board.spec_white(),
                        board.spec_black(),
                        board.spec_side(),
                        Mask::All,
                    ).contains(r)
                }
            }),
    {
        let captures = MoveGen::with_mask(board, Mask::Capture).into_vec();
        if captures.len() > 0 {
            let i = rand_below(&mut self.rng, captures.len());
            captures[i]
        } else {
            board.random_available_move(&mut self.rng)
        }
    }
}

} // verus!
