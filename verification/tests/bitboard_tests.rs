//! Tests of the chess-experiment bitboard machinery: the piece-set boards,
//! shifts, attack routines and bit scans.

use sf21_22::attacks::{
    king_atks, knight_atks, wpawn_atks_pushes, E_atk, NE_atk, NW_atk, N_atk, SE_atk, SW_atk, S_atk,
    W_atk,
};
use sf21_22::bitboard;
use sf21_22::bitboard::{popcnt, serialize_bb};
use sf21_22::chess;
use sf21_22::shift;

const UNIVERSAL: u64 = 0xFFFFFFFFFFFFFFFF;
const NOT_A: u64 = 0xfefefefefefefefe;
const NOT_H: u64 = 0x7f7f7f7f7f7f7f7f;
const NOT_1: u64 = !0x00000000000000FFu64;
const NOT_8: u64 = !0xFF00000000000000u64;
const FILE_D: u64 = 0x0808080808080808;
const RANK_3: u64 = 0x0000000000FF0000;
const RANK_4: u64 = 0x00000000FF000000;
const A1_H8_DIAG: u64 = sq(0) | sq(9) | sq(18) | sq(27) | sq(36) | sq(45) | sq(54) | sq(63);

const fn sq(n: u64) -> u64 {
    1u64 << n
}

#[test]
fn mod_default_board() {
    let b = bitboard::Board::default();

    assert_eq!(b.white_pieces(), 0x000000000000FFFF);
    assert_eq!(b.black_pieces(), 0xFFFF000000000000);
    assert_eq!(b.occupied(), 0xFFFF00000000FFFF);
}

#[test]
fn bitboard_serialization() {
    assert_eq!(
        serialize_bb(UNIVERSAL),
        (0..64).into_iter().collect::<Vec<_>>()
    )
}

#[test]
fn sliding_attack() {
    let empty = UNIVERSAL;
    let d4 = sq(27);
    let ns_attack = N_atk(d4, empty) | S_atk(d4, empty);
    let ew_attack = E_atk(d4, empty) | W_atk(d4, empty);
    let ne_sw_attack = NE_atk(d4, empty) | SW_atk(d4, empty);
    let nw_se_attack = NW_atk(d4, empty) | SE_atk(d4, empty);

    assert_eq!(ns_attack, FILE_D ^ d4);
    assert_eq!(ew_attack, RANK_4 ^ d4);
    assert_eq!(ne_sw_attack, A1_H8_DIAG ^ d4);
    // the G1 to A7 diagonal through D4
    assert_eq!(
        nw_se_attack,
        (sq(6) | sq(13) | sq(20) | sq(27) | sq(34) | sq(41) | sq(48)) ^ d4
    );
}

#[test]
fn pawn_attack_push() {
    let mut board = bitboard::Board::default();
    let b4 = sq(25);
    board.white_pawns |= b4;

    // every pawn of the second rank pushes one or two squares; the pawn on
    // b4 pushes to b5 and attacks a5 and c5
    assert_eq!(
        wpawn_atks_pushes(board.white_pawns, board.empty()),
        (RANK_3 | RANK_4 ^ b4) | sq(32) | sq(33) | sq(34)
    );
}

#[test]
fn knight_attack() {
    let c3 = sq(18);
    assert_eq!(
        knight_atks(c3),
        sq(1) | sq(3) | sq(8) | sq(12) | sq(24) | sq(28) | sq(33) | sq(35)
    );
}

#[test]
fn king_attack() {
    let d4 = sq(27);
    assert_eq!(
        king_atks(d4),
        sq(34) | sq(35) | sq(36) | sq(26) | sq(28) | sq(18) | sq(19) | sq(20)
    );
}

#[test]
fn shift_shift() {
    let b = UNIVERSAL;

    assert_eq!(shift::N_1(b), NOT_1);
    assert_eq!(shift::NE_1(b), NOT_1 & NOT_A);
    assert_eq!(shift::E_1(b), NOT_A);
    assert_eq!(shift::SE_1(b), NOT_A & NOT_8);
    assert_eq!(shift::S_1(b), NOT_8);
    assert_eq!(shift::SW_1(b), NOT_8 & NOT_H);
    assert_eq!(shift::W_1(b), NOT_H);
    assert_eq!(shift::NW_1(b), NOT_H & NOT_1);
}

#[test]
fn board_default_board() {
    let b = chess::board::Board::default();

    assert_eq!(b.white_pieces(), 0x000000000000FFFF);
    assert_eq!(b.black_pieces(), 0xFFFF000000000000);
    assert_eq!(b.occupied(), 0xFFFF00000000FFFF);
}

#[test]
fn board_shift() {
    let b = chess::board::UNIVERSAL;

    assert_eq!(chess::board::N_1(b), 0xFFFFFFFFFFFFFF00);
    assert_eq!(chess::board::NE_1(b), 0xFEFEFEFEFEFEFE00);
    assert_eq!(chess::board::E_1(b), 0xFEFEFEFEFEFEFEFE);
    assert_eq!(chess::board::SE_1(b), 0x00FEFEFEFEFEFEFE);
    assert_eq!(chess::board::S_1(b), 0x00FFFFFFFFFFFFFF);
    assert_eq!(chess::board::SW_1(b), 0x007F7F7F7F7F7F7F);
    assert_eq!(chess::board::W_1(b), 0x7F7F7F7F7F7F7F7F);
    assert_eq!(chess::board::NW_1(b), 0x7F7F7F7F7F7F7F00);
}

#[test]
fn bit_scans() {
    assert_eq!(bitboard::bit_scan_forward(0b1000), 3);
    assert_eq!(bitboard::bit_scan_forward(sq(63)), 63);
    assert_eq!(popcnt(0), 0);
    assert_eq!(popcnt(UNIVERSAL), 64);
    assert_eq!(popcnt(0b1011), 3);
    assert_eq!(serialize_bb(0b1011), vec![0, 1, 3]);
    assert_eq!(bitboard::SQUARE(27), sq(27));
}
