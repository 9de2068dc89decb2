//! Tests of the pawn game itself: move generation, move counts, playing
//! moves and terminal outcomes. Squares are indexed `8 * rank + file`, so on
//! the three-by-three board a1 is 0, c1 is 2, a2 is 8, c2 is 10, a3 is 16,
//! b3 is 17 and c3 is 18.

use sf21_22::board::{Board, Color};
use sf21_22::move_gen::{Mask, Move, MoveGen};
use sf21_22::position::Position;
use sf21_22::wdl::{Outcome, Player};

fn perft(board: &Board, depth: u32) -> u64 {
    if depth == 0 {
        return 1;
    }
    if board.is_done() {
        return 0;
    }
    if depth == 1 {
        return board.available_moves().len() as u64;
    }
    let mut p = 0;
    for mv in board.available_moves() {
        p += perft(&board.clone_and_play(mv), depth - 1);
    }
    p
}

#[test]
fn board_perft() {
    let board_3x3 = Board::new(3);

    assert_eq!(perft(&board_3x3, 1), 3);
    assert_eq!(perft(&board_3x3, 2), 10);
    assert_eq!(perft(&board_3x3, 3), 28);
}

#[test]
fn play_move() {
    let mut board = Board::new(3);
    board.play(Move::new(0, 8));
    println!("{:?}", board);
    board.play(Move::new(17, 8));
    println!("{:?}", board);
    assert_eq!(board.pieces(Color::White), 0b110);
    assert_eq!(board.pieces(Color::Black), (1u64 << 8) | (1 << 16) | (1 << 18));
    assert_eq!(board.side_to_move(), Color::White);
}

#[test]
fn outcome() {
    let mut board_win_white = Board::new(3);
    board_win_white.play(Move::new(0, 8));
    board_win_white.play(Move::new(18, 10));
    board_win_white.play(Move::new(8, 17));
    assert_eq!(board_win_white.outcome(), Some(Outcome::WonBy(Player::A)));

    let mut board_win_black = Board::new(3);
    board_win_black.play(Move::new(0, 8));
    board_win_black.play(Move::new(17, 8));
    board_win_black.play(Move::new(2, 10));
    board_win_black.play(Move::new(8, 1));
    assert_eq!(board_win_black.outcome(), Some(Outcome::WonBy(Player::B)));

    let mut board_draw = Board::new(3);
    board_draw.play(Move::new(0, 8));
    board_draw.play(Move::new(17, 9));
    board_draw.play(Move::new(2, 10));
    assert_eq!(board_draw.outcome(), Some(Outcome::Draw));
}

#[test]
fn starting_positions() {
    let b3 = Board::new(3);
    assert_eq!(b3.pieces(Color::White), 0x0000000000000007);
    assert_eq!(b3.pieces(Color::Black), 0x0000000000070000);
    assert_eq!(b3.side_to_move(), Color::White);
    assert_eq!(b3.size(), 3);
    assert!(!b3.is_done());

    let b8 = Board::new(8);
    assert_eq!(b8.pieces(Color::White), 0x00000000000000FF);
    assert_eq!(b8.pieces(Color::Black), 0xFF00000000000000);
    assert_eq!(b8.occupied(), 0xFF000000000000FF);
    assert_eq!(b8.empty(), !0xFF000000000000FFu64);
}

#[test]
fn move_generation_order() {
    let b = Board::new(3);
    let moves = b.available_moves();
    // three pushes, lowest source square first
    assert_eq!(moves, vec![Move::new(0, 8), Move::new(1, 9), Move::new(2, 10)]);
    assert!(b.is_available_move(Move::new(1, 9)));
    assert!(!b.is_available_move(Move::new(0, 9)));
    assert_eq!(MoveGen::new(&b).len(), 3);
}

#[test]
fn masked_move_generation() {
    // after a1a2 and b3xa2 Black's pawn on a2 may be captured by b1
    let mut b = Board::new(3);
    b.play(Move::new(0, 8));
    b.play(Move::new(17, 8));

    let captures = MoveGen::with_mask(&b, Mask::Capture).into_vec();
    assert_eq!(captures, vec![Move::new(1, 8)]);

    let pushes = MoveGen::with_mask(&b, Mask::Push).into_vec();
    assert_eq!(pushes, vec![Move::new(1, 9), Move::new(2, 10)]);

    let mut mg = MoveGen::new(&b);
    assert_eq!(mg.next_move(), Some(Move::new(1, 8)));
    assert_eq!(mg.next_move(), Some(Move::new(1, 9)));
    // a started generator reports no further length
    assert_eq!(mg.len(), 0);
    assert_eq!(mg.next_move(), Some(Move::new(2, 10)));
    assert_eq!(mg.next_move(), None);
}

#[test]
fn random_move_is_legal() {
    let mut rng = <rand::rngs::StdRng as rand::SeedableRng>::seed_from_u64(5);
    let b = Board::new(4);
    for _ in 0..20 {
        let mv = b.random_available_move(&mut rng);
        assert!(b.is_available_move(mv));
    }
}

#[test]
fn move_accessors() {
    let m = Move::new(10, 17);
    assert_eq!(m.src(), 10);
    assert_eq!(m.dest(), 17);
    assert!(Move::new(0, 8) < Move::new(1, 8));
}

/// The destinations the chess crate's pawn tables give for one pawn of the
/// side to move, on the same bitboards.
fn reference_targets(white: u64, black: u64, white_to_move: bool, src: u8) -> u64 {
    let color = if white_to_move {
        chess::Color::White
    } else {
        chess::Color::Black
    };
    let occupied = chess::BitBoard(white | black);
    let them = chess::BitBoard(if white_to_move { black } else { white });
    let sq = chess::ALL_SQUARES[src as usize];
    let quiets = chess::get_pawn_quiets(sq, color, occupied);
    let attacks = chess::get_pawn_attacks(sq, color, them);
    (quiets ^ attacks).0
}

fn reference_moves(board: &Board) -> Vec<Move> {
    let white = board.pieces(Color::White);
    let black = board.pieces(Color::Black);
    let white_to_move = board.side_to_move() == Color::White;
    let mover = if white_to_move { white } else { black };
    let mut out = Vec::new();
    for src in 0..64u8 {
        if mover & (1u64 << src) != 0 {
            let targets = reference_targets(white, black, white_to_move, src);
            for dest in 0..64u8 {
                if targets & (1u64 << dest) != 0 {
                    out.push(Move::new(src, dest));
                }
            }
        }
    }
    out
}

#[test]
fn move_generation_matches_reference_tables() {
    // walk a few plies of every board size, comparing the generated move
    // list against the chess crate's pawn tables at every position
    let mut rng = <rand::rngs::StdRng as rand::SeedableRng>::seed_from_u64(77);
    for size in 3..=8usize {
        let mut board = Board::new(size);
        for _ in 0..40 {
            assert_eq!(board.available_moves(), reference_moves(&board));
            if board.is_done() {
                break;
            }
            let mv = board.random_available_move(&mut rng);
            board.play(mv);
        }
    }
}

#[test]
fn double_push_from_second_rank() {
    // like its chess ancestors, a pawn on its second rank may also take two
    // free steps at once, even where that leaves the playing area
    let mut b = Board::new(3);
    b.play(Move::new(1, 9));
    b.play(Move::new(16, 9));
    b.play(Move::new(0, 8));
    b.play(Move::new(18, 10));
    assert_eq!(
        b.available_moves(),
        vec![
            Move::new(2, 9),
            Move::new(8, 16),
            Move::new(8, 17),
            Move::new(8, 24),
        ]
    );
}
