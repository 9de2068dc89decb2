//! Tests of the outcome model, the solving rule and the search engine: the
//! perspective-flip involutions, the best-of table, early exit on terminal
//! roots, seed determinism, visit accounting, and a forced win found and
//! proven within a small budget.

use rand::SeedableRng;
use sf21_22::board::Board;
use sf21_22::bot::heuristic::{
    advancement_eval, material_eval, AdvancementHeuristic, AlwaysCaptureBot, AlwaysPushBot,
    Heuristic, MaterialHeuristic, N_fill, S_fill, SolverHeuristicSimplified,
};
use sf21_22::bot::mcts_heuristic_bot::{mcts_build_tree, MCTSBot};
use sf21_22::move_gen::Move;
use sf21_22::position::Position;
use sf21_22::tree::{SNodeKind, Tree};
use sf21_22::wdl::{Outcome, OutcomeWDL, Player, WDL};
use sf21_22::wdl::OutcomeWDL::{Draw, Loss, Win};

fn rng(seed: u64) -> rand::rngs::StdRng {
    rand::rngs::StdRng::seed_from_u64(seed)
}

/// An exploration weight of 1.4, in fixed point.
const EXPLORE_1_4: u64 = (14 * 65536) / 10;

#[test]
fn perspective_flip_involution() {
    for o in [OutcomeWDL::Win, OutcomeWDL::Draw, OutcomeWDL::Loss] {
        assert_eq!(o.flip().flip(), o);
    }
    assert_eq!(OutcomeWDL::Win.flip(), OutcomeWDL::Loss);
    assert_eq!(OutcomeWDL::Draw.flip(), OutcomeWDL::Draw);

    let w = WDL::new(3, 1, 2);
    assert_eq!(w.flip(), WDL::new(2, 1, 3));
    assert_eq!(w.flip().flip(), w);

    // one ply of perspective correction
    let o = Outcome::WonBy(Player::A);
    assert_eq!(o.pov(Player::B), o.pov(Player::A).flip());
}

#[test]
fn best_of_table() {
    assert_eq!(OutcomeWDL::best_of(&vec![Some(Win), Some(Loss)]), Some(Win));
    assert_eq!(OutcomeWDL::best_of(&vec![Some(Loss), Some(Loss)]), Some(Loss));
    assert_eq!(OutcomeWDL::best_of(&vec![Some(Draw), Some(Loss)]), Some(Draw));
    assert_eq!(OutcomeWDL::best_of(&vec![Some(Win), None]), Some(Win));
    assert_eq!(OutcomeWDL::best_of(&vec![Some(Loss), None]), None);
    assert_eq!(OutcomeWDL::best_of(&vec![None, Some(Draw)]), None);
    assert_eq!(OutcomeWDL::best_of(&vec![]), Some(Loss));
}

/// A three-by-three position with the player to move one capture away from
/// the top rank: White pawns on b1 and c2, Black pawns on a2, a3 and c3,
/// White to move; c2 takes b3 wins at once.
fn one_ply_from_win() -> Board {
    let mut b = Board::new(3);
    b.play(Move::new(2, 10));
    b.play(Move::new(16, 8));
    b
}

#[test]
fn solves_immediate_win_after_one_expansion() {
    // one expansion must already solve the position, whatever the budget
    let b = one_ply_from_win();
    let tree: Tree<Board, Move> =
        mcts_build_tree(&b, 1, EXPLORE_1_4, &MaterialHeuristic, &mut rng(11));
    assert_eq!(tree.nodes[0].kind, SNodeKind::Solved(OutcomeWDL::Win));
}

#[test]
fn root_early_exit() {
    // a board already won by White: building a tree does no search step
    let mut done = Board::new(3);
    done.play(Move::new(0, 8));
    done.play(Move::new(18, 10));
    done.play(Move::new(8, 17));
    assert_eq!(done.outcome(), Some(Outcome::WonBy(Player::A)));

    let tree: Tree<Board, Move> =
        mcts_build_tree(&done, 50, EXPLORE_1_4, &MaterialHeuristic, &mut rng(3));
    assert_eq!(tree.nodes.len(), 1);
    assert_eq!(tree.nodes[0].visits, 0);
    // the loser is to move in the finished position, so the root reads loss
    assert_eq!(tree.nodes[0].kind, SNodeKind::Solved(OutcomeWDL::Loss));
}

#[test]
fn move_selection_determinism() {
    let b = Board::new(4);
    let mut bot1: MCTSBot<Board, Move, MaterialHeuristic> =
        MCTSBot::new(200, EXPLORE_1_4, MaterialHeuristic, rng(42));
    let mut bot2: MCTSBot<Board, Move, MaterialHeuristic> =
        MCTSBot::new(200, EXPLORE_1_4, MaterialHeuristic, rng(42));
    assert_eq!(bot1.select_move(&b), bot2.select_move(&b));
}

#[test]
fn visit_accounting() {
    // a full-size board is far from solved within thirty steps
    let b = Board::new(8);
    let tree: Tree<Board, Move> =
        mcts_build_tree(&b, 30, EXPLORE_1_4, &AdvancementHeuristic, &mut rng(9));

    // every completed iteration is accounted for at the root
    match tree.nodes[0].kind {
        SNodeKind::Estimate(w) => {
            assert_eq!(tree.nodes[0].visits, 30);
            assert_eq!(w.win + w.draw + w.loss, 30);
        }
        SNodeKind::Solved(_) => panic!("an opening position does not solve in thirty steps"),
    }

    // children visits never outgrow their parent's, anywhere in the tree
    for node in tree.nodes.iter() {
        if let (SNodeKind::Estimate(_), Some(c)) = (&node.kind, &node.children) {
            let mut sum = 0;
            for k in 0..c.length {
                sum += tree.nodes[c.start + k].visits;
            }
            assert!(sum <= node.visits);
        }
    }
}

#[test]
fn forced_win_scenario() {
    // a three-by-three position one ply from a forced win for the player to
    // move, fifty iterations, exploration weight 1.4: the bot must answer
    // with the winning capture and leave the root proven won
    let b = one_ply_from_win();
    let mut bot: MCTSBot<Board, Move, SolverHeuristicSimplified> =
        MCTSBot::new(50, EXPLORE_1_4, SolverHeuristicSimplified, rng(2026));
    let mv = bot.select_move(&b);
    assert_eq!(mv, Move::new(10, 17));

    let tree = bot.build_tree(&b);
    assert_eq!(tree.nodes[0].kind, SNodeKind::Solved(OutcomeWDL::Win));
}

#[test]
fn winning_move_whatever_the_seed() {
    // an immediately winning capture is on the board, so the root solves at
    // its very first expansion: the smallest budget suffices and the random
    // source never matters
    let b = one_ply_from_win();
    for seed in 0..20u64 {
        let mut bot: MCTSBot<Board, Move, MaterialHeuristic> =
            MCTSBot::new(1, EXPLORE_1_4, MaterialHeuristic, rng(seed));
        assert_eq!(bot.select_move(&b), Move::new(10, 17));
    }
}

#[test]
fn fills_and_evals() {
    assert_eq!(N_fill(1), 0x0101010101010101);
    assert_eq!(S_fill(1 << 56), 0x0101010101010101);
    assert_eq!(material_eval(0b1011), 3);
    // a single pawn on a1 has its whole rear fill on a1
    assert_eq!(advancement_eval(1, sf21_22::board::Color::White), 1);
    assert_eq!(advancement_eval(1 << 8, sf21_22::board::Color::White), 2);
}

#[test]
fn heuristic_values() {
    let b = Board::new(3);
    assert_eq!(SolverHeuristicSimplified.value(&b, 0), 0);
    assert_eq!(MaterialHeuristic.value(&b, 0), 0);
    assert_eq!(AdvancementHeuristic.value(&b, 0), 3);

    let mut won = Board::new(3);
    won.play(Move::new(0, 8));
    won.play(Move::new(18, 10));
    won.play(Move::new(8, 17));
    // the player to move has lost
    assert_eq!(SolverHeuristicSimplified.value(&won, 0), -0x7FFFFFFF);
    assert_eq!(MaterialHeuristic.value(&won, 0), -0x7FFFFFFF);
}

#[test]
fn simple_bots_obey_their_rule() {
    // after c1c2 and a3a2, White can capture b3 with c2 and can push with b1
    let b = one_ply_from_win();
    let mut cap_bot = AlwaysCaptureBot::new(rng(1));
    let mv = cap_bot.select_move(&b);
    assert!(mv == Move::new(1, 8) || mv == Move::new(10, 17));

    let mut push_bot = AlwaysPushBot::new(rng(1));
    let push = push_bot.select_move(&b);
    assert!(b.is_available_move(push));
    assert_ne!(push, Move::new(10, 17));
    assert_ne!(push, Move::new(1, 8));
}

#[test]
fn wdl_arithmetic() {
    let w = WDL::new(3, 1, 2).add(WDL::new(1, 0, 4));
    assert_eq!(w, WDL::new(4, 1, 6));
    assert_eq!(w.sum(), 11);
}
