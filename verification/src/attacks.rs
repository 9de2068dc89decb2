//! Pseudo-attack and occluded-fill routines of the chess experiment: pawn
//! pushes and captures, knight and king attacks, and parallel-prefix sliding
//! fills. Each contract pins the exact bitboard the routine computes.

#![allow(non_snake_case)]

use vstd::prelude::*;
use crate::shift::NOT_A;
use crate::shift::NOT_H;
use crate::shift::E_1;
use crate::shift::N_1;
use crate::shift::N_n;
use crate::shift::NE_1;
use crate::shift::NW_1;
use crate::shift::S_1;
use crate::shift::S_n;
use crate::shift::SE_1;
use crate::shift::SW_1;
use crate::shift::W_1;

verus! {

/// All squares on neither file A nor file B.
pub const NOT_AB: u64 = 0xfcfcfcfcfcfcfcfc;

/// All squares on neither file G nor file H.
pub const NOT_GH: u64 = 0x3f3f3f3f3f3f3f3f;

/// Rank 4, where a white double push lands.
pub const RANK_4: u64 = 0x00000000FF000000;

/// Rank 5, where a black double push of this module lands.
pub const RANK_5: u64 = 0x000000FF00000000;

/// One-square white pawn pushes onto empty squares.
pub open spec fn spec_wpawn_1push(wpawns: u64, empty: u64) -> u64 {
    (wpawns << 8) & empty
}

/// Two-square white pawn pushes: a second free step landing on rank 4.
pub open spec fn spec_wpawn_2push(wpawns: u64, empty: u64) -> u64 {
    (spec_wpawn_1push(wpawns, empty) << 8) & empty & RANK_4
}

/// Squares a white pawn attacks: one step north-west or north-east.
pub open spec fn spec_wpawn_any_atk(wpawns: u64) -> u64 {
    ((wpawns & NOT_A) << 7) | ((wpawns & NOT_H) << 9)
}

/// Black pawn single pushes as this module computes them (northward).
pub open spec fn spec_bpawn_1push(bpawns: u64, empty: u64) -> u64 {
    (bpawns << 8) & empty
}

/// Black pawn double pushes as this module computes them.
pub open spec fn spec_bpawn_2push(bpawns: u64, empty: u64) -> u64 {
    (spec_bpawn_1push(bpawns, empty) << 8) & empty & RANK_5
}

/// Squares a black pawn attacks: one step south-west or south-east.
pub open spec fn spec_bpawn_any_atk(bpawns: u64) -> u64 {
    ((bpawns & NOT_A) >> 9) | ((bpawns & NOT_H) >> 7)
}

pub fn wpawn_1push(wpawns: u64, empty: u64) -> (r: u64)
    ensures
        r == spec_wpawn_1push(wpawns, empty),
{
    N_1(wpawns) & empty
}

pub fn wpawn_2push(wpawns: u64, empty: u64) -> (r: u64)
    ensures
        r == spec_wpawn_2push(wpawns, empty),
{
    let single_pushes = wpawn_1push(wpawns, empty);
    N_1(single_pushes) & empty & RANK_4
}

pub fn wpawn_any_atk(wpawns: u64) -> (r: u64)
    ensures
        r == spec_wpawn_any_atk(wpawns),
{
    NW_1(wpawns) | NE_1(wpawns)
}

pub fn bpawn_1push(bpawns: u64, empty: u64) -> (r: u64)
    ensures
        r == spec_bpawn_1push(bpawns, empty),
{
    N_1(bpawns) & empty
}

pub fn bpawn_2push(bpawns: u64, empty: u64) -> (r: u64)
    ensures
        r == spec_bpawn_2push(bpawns, empty),
{
    let single_pushes = bpawn_1push(bpawns, empty);
    N_1(single_pushes) & empty & RANK_5
}

pub fn bpawn_any_atk(bpawns: u64) -> (r: u64)
    ensures
        r == spec_bpawn_any_atk(bpawns),
{
    SW_1(bpawns) | SE_1(bpawns)
}

/// All white pawn pushes and attack squares together.
pub fn wpawn_atks_pushes(wpawns: u64, empty: u64) -> (r: u64)
    ensures
        r == spec_wpawn_1push(wpawns, empty) | spec_wpawn_2push(wpawns, empty) | spec_wpawn_any_atk(
            wpawns,
        ),
{
    wpawn_1push(wpawns, empty) | wpawn_2push(wpawns, empty) | wpawn_any_atk(wpawns)
}

/// All black pawn pushes and attack squares together.
pub fn bpawn_atks_pushes(bpawns: u64, empty: u64) -> (r: u64)
    ensures
        r == spec_bpawn_1push(bpawns, empty) | spec_bpawn_2push(bpawns, empty) | spec_bpawn_any_atk(
            bpawns,
        ),
{
    bpawn_1push(bpawns, empty) | bpawn_2push(bpawns, empty) | bpawn_any_atk(bpawns)
}

/// The eight knight moves from every knight, each masked so that no move
/// wraps across the board's edge.
pub open spec fn spec_knight_atks(knights: u64) -> u64 {
    ((knights & NOT_H) << 17) | ((knights & NOT_A) << 15) | ((knights & NOT_GH) << 10) | ((knights
        & NOT_AB) << 6) | ((knights & NOT_GH) >> 6) | ((knights & NOT_AB) >> 10) | ((knights
        & NOT_H) >> 15) | ((knights & NOT_A) >> 17)
}

pub fn knight_atks(knights: u64) -> (r: u64)
    ensures
        r == spec_knight_atks(knights),
{
    let mut east = E_1(knights);
    let mut west = W_1(knights);
    let mut attacks = N_n(east | west, 2);
    attacks |= S_n(east | west, 2);
    east = E_1(east);
    west = W_1(west);
    attacks |= N_1(east | west);
    attacks |= S_1(east | west);
    proof {
        assert({
            let e = (knights & NOT_H) << 1;
            let w = (knights & NOT_A) >> 1;
            let e2 = (e & NOT_H) << 1;
            let w2 = (w & NOT_A) >> 1;
            (((e | w) << 16) | ((e | w) >> 16) | ((e2 | w2) << 8) | ((e2 | w2) >> 8))
                == spec_knight_atks(knights)
        }) by (bit_vector);
    }
    attacks
}

/// The eight king moves from every king, masked at the board's edge.
pub open spec fn spec_king_atks(kings: u64) -> u64 {
    ((kings & NOT_H) << 1) | ((kings & NOT_A) >> 1) | (kings << 8) | (kings >> 8) | ((kings
        & NOT_H) << 9) | ((kings & NOT_A) << 7) | ((kings & NOT_H) >> 7) | ((kings & NOT_A) >> 9)
}

pub fn king_atks(kings: u64) -> (r: u64)
    ensures
        r == spec_king_atks(kings),
{
    let ghost k0 = kings;
    let mut kings = kings;
    let mut attacks = E_1(kings) | W_1(kings);
    kings |= attacks;
    attacks |= N_1(kings) | S_1(kings);
    proof {
        assert({
            let a = ((k0 & NOT_H) << 1) | ((k0 & NOT_A) >> 1);
            let k2 = k0 | a;
            (a | ((k2 << 8) | (k2 >> 8))) == spec_king_atks(k0)
        }) by (bit_vector);
    }
    attacks
}

/// The three doubling steps of this module's northward occluded fill.
pub open spec fn spec_N_ocl(pieces: u64, empty: u64) -> u64 {
    let p1 = pieces | ((empty & pieces) << 8);
    let e1 = empty & (empty << 8);
    let p2 = p1 | ((e1 & p1) << 16);
    let e2 = e1 & (e1 << 16);
    p2 | ((e2 & p2) << 32)
}

/// The three doubling steps of this module's southward occluded fill.
pub open spec fn spec_S_ocl(pieces: u64, empty: u64) -> u64 {
    let p1 = pieces | ((empty & pieces) >> 8);
    let e1 = empty & (empty >> 8);
    let p2 = p1 | ((e1 & p1) >> 16);
    let e2 = e1 & (e1 >> 16);
    p2 | ((e2 & p2) >> 32)
}

/// The three doubling steps of this module's eastward occluded fill.
pub open spec fn spec_E_ocl(pieces: u64, empty: u64) -> u64 {
    let e0 = empty & NOT_A;
    let p1 = pieces | (((e0 & pieces) & NOT_H) << 1);
    let e1 = e0 & ((e0 & NOT_H) << 1);
    let p2 = p1 | (e1 & (p1 << 2));
    let e2 = e1 & (e1 << 2);
    p2 | (e2 & (p2 << 4))
}

/// The three doubling steps of this module's north-eastward occluded fill.
pub open spec fn spec_NE_ocl(pieces: u64, empty: u64) -> u64 {
    let e0 = empty & NOT_A;
    let p1 = pieces | (((e0 & pieces) & NOT_H) << 9);
    let e1 = e0 & ((e0 & NOT_H) << 9);
    let p2 = p1 | (e1 & (p1 << 18));
    let e2 = e1 & (e1 << 18);
    p2 | (e2 & (p2 << 36))
}

/// The three doubling steps of this module's south-eastward occluded fill.
pub open spec fn spec_SE_ocl(pieces: u64, empty: u64) -> u64 {
    let e0 = empty & NOT_A;
    let p1 = pieces | (((e0 & pieces) & NOT_H) >> 7);
    let e1 = e0 & ((e0 & NOT_H) >> 7);
    let p2 = p1 | (e1 & (p1 >> 14));
    let e2 = e1 & (e1 >> 14);
    p2 | (e2 & (p2 >> 28))
}

/// The three doubling steps of this module's westward occluded fill.
pub open spec fn spec_W_ocl(pieces: u64, empty: u64) -> u64 {
    let e0 = empty & NOT_H;
    let p1 = pieces | (((e0 & pieces) & NOT_A) >> 1);
    let e1 = e0 & ((e0 & NOT_A) >> 1);
    let p2 = p1 | (e1 & (p1 >> 2));
    let e2 = e1 & (e1 >> 2);
    p2 | (e2 & (p2 >> 4))
}

/// The three doubling steps of this module's south-westward occluded fill.
pub open spec fn spec_SW_ocl(pieces: u64, empty: u64) -> u64 {
    let e0 = empty & NOT_H;
    let p1 = pieces | (((e0 & pieces) & NOT_A) >> 9);
    let e1 = e0 & ((e0 & NOT_A) >> 9);
    let p2 = p1 | (e1 & (p1 >> 18));
    let e2 = e1 & (e1 >> 18);
    p2 | (e2 & (p2 >> 36))
}

/// The three doubling steps of this module's north-westward occluded fill.
pub open spec fn spec_NW_ocl(pieces: u64, empty: u64) -> u64 {
    let e0 = empty & NOT_H;
    let p1 = pieces | (((e0 & pieces) & NOT_A) << 7);
    let e1 = e0 & ((e0 & NOT_A) << 7);
    let p2 = p1 | (e1 & (p1 << 14));
    let e2 = e1 & (e1 << 14);
    p2 | (e2 & (p2 << 28))
}

pub fn N_ocl(pieces: u64, empty: u64) -> (r: u64)
    ensures
        r == spec_N_ocl(pieces, empty),
{
    let mut pieces = pieces;
    let mut empty = empty;
    pieces |= N_1(empty & pieces);
    empty &= N_1(empty);
    pieces |= N_n(empty & pieces, 2);
    empty &= N_n(empty, 2);
    pieces |= N_n(empty & pieces, 4);
    pieces
}

pub fn S_ocl(pieces: u64, empty: u64) -> (r: u64)
    ensures
        r == spec_S_ocl(pieces, empty),
{
    let mut pieces = pieces;
    let mut empty = empty;
    pieces |= S_1(empty & pieces);
    empty &= S_1(empty);
    pieces |= S_n(empty & pieces, 2);
    empty &= S_n(empty, 2);
    pieces |= S_n(empty & pieces, 4);
    pieces
}

pub fn E_ocl(pieces: u64, empty: u64) -> (r: u64)
    ensures
        r == spec_E_ocl(pieces, empty),
{
    let mut pieces = pieces;
    let mut empty = empty;
    empty &= NOT_A;
    pieces |= E_1(empty & pieces);
    empty &= E_1(empty);
    pieces |= empty & (pieces << 2);
    empty &= empty << 2;
    pieces |= empty & (pieces << 4);
    pieces
}

pub fn NE_ocl(pieces: u64, empty: u64) -> (r: u64)
    ensures
        r == spec_NE_ocl(pieces, empty),
{
    let mut pieces = pieces;
    let mut empty = empty;
    empty &= NOT_A;
    pieces |= NE_1(empty & pieces);
    empty &= NE_1(empty);
    pieces |= empty & (pieces << 18);
    empty &= empty << 18;
    pieces |= empty & (pieces << 36);
    pieces
}

pub fn SE_ocl(pieces: u64, empty: u64) -> (r: u64)
    ensures
        r == spec_SE_ocl(pieces, empty),
{
    let mut pieces = pieces;
    let mut empty = empty;
    empty &= NOT_A;
    pieces |= SE_1(empty & pieces);
    empty &= SE_1(empty);
    pieces |= empty & (pieces >> 14);
    empty &= empty >> 14;
    pieces |= empty & (pieces >> 28);
    pieces
}

pub fn W_ocl(pieces: u64, empty: u64) -> (r: u64)
    ensures
        r == spec_W_ocl(pieces, empty),
{
    let mut pieces = pieces;
    let mut empty = empty;
    empty &= NOT_H;
    pieces |= W_1(empty & pieces);
    empty &= W_1(empty);
    pieces |= empty & (pieces >> 2);
    empty &= empty >> 2;
    pieces |= empty & (pieces >> 4);
    pieces
}

pub fn SW_ocl(pieces: u64, empty: u64) -> (r: u64)
    ensures
        r == spec_SW_ocl(pieces, empty),
{
    let mut pieces = pieces;
    let mut empty = empty;
    empty &= NOT_H;
    pieces |= SW_1(empty & pieces);
    empty &= SW_1(empty);
    pieces |= empty & (pieces >> 18);
    empty &= empty >> 18;
    pieces |= empty & (pieces >> 36);
    pieces
}

pub fn NW_ocl(pieces: u64, empty: u64) -> (r: u64)
    ensures
        r == spec_NW_ocl(pieces, empty),
{
    let mut pieces = pieces;
    let mut empty = empty;
    empty &= NOT_H;
    pieces |= NW_1(empty & pieces);
    empty &= NW_1(empty);
    pieces |= empty & (pieces << 14);
    empty &= empty << 14;
    pieces |= empty & (pieces << 28);
    pieces
}

/// Northward sliding attacks: the northward fill, shifted one more step.
pub fn N_atk(ortho: u64, empty: u64) -> (r: u64)
    ensures
        r == spec_N_ocl(ortho, empty) << 8,
{
    N_1(N_ocl(ortho, empty))
}

/// Southward sliding attacks.
pub fn S_atk(ortho: u64, empty: u64) -> (r: u64)
    ensures
        r == spec_S_ocl(ortho, empty) >> 8,
{
    S_1(S_ocl(ortho, empty))
}

/// Eastward sliding attacks.
pub fn E_atk(ortho: u64, empty: u64) -> (r: u64)
    ensures
        r == (spec_E_ocl(ortho, empty) & NOT_H) << 1,
{
    E_1(E_ocl(ortho, empty))
}

/// North-eastward sliding attacks.
pub fn NE_atk(diag: u64, empty: u64) -> (r: u64)
    ensures
        r == (spec_NE_ocl(diag, empty) & NOT_H) << 9,
{
    NE_1(NE_ocl(diag, empty))
}

/// South-eastward sliding attacks.
pub fn SE_atk(diag: u64, empty: u64) -> (r: u64)
    ensures
        r == (spec_SE_ocl(diag, empty) & NOT_H) >> 7,
{
    SE_1(SE_ocl(diag, empty))
}

/// Westward sliding attacks.
pub fn W_atk(ortho: u64, empty: u64) -> (r: u64)
    ensures
        r == (spec_W_ocl(ortho, empty) & NOT_A) >> 1,
{
    W_1(W_ocl(ortho, empty))
}

/// North-westward sliding attacks.
pub fn NW_atk(diag: u64, empty: u64) -> (r: u64)
    ensures
        r == (spec_NW_ocl(diag, empty) & NOT_A) << 7,
{
    NW_1(NW_ocl(diag, empty))
}

/// South-westward sliding attacks.
pub fn SW_atk(diag: u64, empty: u64) -> (r: u64)
    ensures
        r == (spec_SW_ocl(diag, empty) & NOT_A) >> 9,
{
    SW_1(SW_ocl(diag, empty))
}

} // verus!
