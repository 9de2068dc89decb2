//! A chess position as twelve private bitboards together with the full set of
//! single-step and multi-step shift routines, in little-endian file-rank
//! order.

#![allow(non_snake_case)]

use vstd::prelude::*;

verus! {

pub const EMPTY: u64 = 0;

pub const UNIVERSAL: u64 = 0xFFFFFFFFFFFFFFFF;

pub const A_FILE: u64 = 0x0101010101010101;

pub const H_FILE: u64 = 0x8080808080808080;

pub const NOT_A: u64 = 0xfefefefefefefefe;

pub const NOT_H: u64 = 0x7f7f7f7f7f7f7f7f;

pub const RANK_1: u64 = 0x00000000000000FF;

pub const RANK_8: u64 = 0xFF00000000000000;

/// A chess position, one bitboard per piece kind and colour.
#[derive(Debug, Clone)]
pub struct Board {
    white_pawns: u64,
    white_knights: u64,
    white_bishops: u64,
    white_rooks: u64,
    white_queens: u64,
    white_kings: u64,
    black_pawns: u64,
    black_knights: u64,
    black_bishops: u64,
    black_rooks: u64,
    black_queens: u64,
    black_kings: u64,
}

impl Default for Board {
    /// The standard chess starting position.
    fn default() -> (r: Self)
        ensures
            r.spec_white_pieces() == 0x000000000000FFFFu64,
            r.spec_black_pieces() == 0xFFFF000000000000u64,
    {
        let b = Self {
            white_pawns: 0x000000000000FF00,
            white_knights: 0x0000000000000042,
            white_bishops: 0x0000000000000024,
            white_rooks: 0x0000000000000081,
            white_queens: 0x0000000000000008,
            white_kings: 0x0000000000000010,
            black_pawns: 0x00FF000000000000,
            black_knights: 0x4200000000000000,
            black_bishops: 0x2400000000000000,
            black_rooks: 0x8100000000000000,
            black_queens: 0x0800000000000000,
            black_kings: 0x1000000000000000,
        };
        proof {
            assert(0x000000000000FF00u64 | 0x0000000000000042u64 | 0x0000000000000024u64
                | 0x0000000000000081u64 | 0x0000000000000008u64 | 0x0000000000000010u64
                == 0x000000000000FFFFu64) by (bit_vector);
            assert(0x00FF000000000000u64 | 0x4200000000000000u64 | 0x2400000000000000u64
                | 0x8100000000000000u64 | 0x0800000000000000u64 | 0x1000000000000000u64
                == 0xFFFF000000000000u64) by (bit_vector);
        }
        b
    }
}

impl Board {
    /// The union of all white piece bitboards.
    pub closed spec fn spec_white_pieces(&self) -> u64 {
        self.white_pawns | self.white_knights | self.white_bishops | self.white_rooks
            | self.white_queens | self.white_kings
    }

    /// The union of all black piece bitboards.
    pub closed spec fn spec_black_pieces(&self) -> u64 {
        self.black_pawns | self.black_knights | self.black_bishops | self.black_rooks
            | self.black_queens | self.black_kings
    }

    pub fn white_pieces(&self) -> (r: u64)
        ensures
            r == self.spec_white_pieces(),
    {
        self.white_pawns | self.white_knights | self.white_bishops | self.white_rooks
            | self.white_queens | self.white_kings
    }

    pub fn black_pieces(&self) -> (r: u64)
        ensures
            r == self.spec_black_pieces(),
    {
        self.black_pawns | self.black_knights | self.black_bishops | self.black_rooks
            | self.black_queens | self.black_kings
    }

    /// All occupied squares.
    pub fn occupied(&self) -> (r: u64)
        ensures
            r == (self.spec_white_pieces() | self.spec_black_pieces()),
    {
        self.white_pieces() | self.black_pieces()
    }

    /// All empty squares.
    pub fn empty(&self) -> (r: u64)
        ensures
            r == !(self.spec_white_pieces() | self.spec_black_pieces()),
    {
        !self.occupied()
    }
}

/// Shift left by `s` when `s` is positive, right by `-s` otherwise.
pub fn shift(b: u64, s: isize) -> (r: u64)
    requires
        -64 < s < 64,
    ensures
        s > 0 ==> r == b << s,
        s <= 0 ==> r == b >> (-s),
{
    if s > 0 {
        b << s
    } else {
        b >> -s
    }
}

/// One step north.
pub fn N_1(b: u64) -> (r: u64)
    ensures
        r == b << 8,
{
    b << 8
}

/// One step south.
pub fn S_1(b: u64) -> (r: u64)
    ensures
        r == b >> 8,
{
    b >> 8
}

/// One step east.
pub fn E_1(b: u64) -> (r: u64)
    ensures
        r == (b & NOT_H) << 1,
{
    (b & NOT_H) << 1
}

/// One step north-east.
pub fn NE_1(b: u64) -> (r: u64)
    ensures
        r == (b & NOT_H) << 9,
{
    (b & NOT_H) << 9
}

/// One step south-east.
pub fn SE_1(b: u64) -> (r: u64)
    ensures
        r == (b & NOT_H) >> 7,
{
    (b & NOT_H) >> 7
}

/// One step west.
pub fn W_1(b: u64) -> (r: u64)
    ensures
        r == (b & NOT_A) >> 1,
{
    (b & NOT_A) >> 1
}

/// One step north-west.
pub fn NW_1(b: u64) -> (r: u64)
    ensures
        r == (b & NOT_A) << 7,
{
    (b & NOT_A) << 7
}

/// One step south-west.
pub fn SW_1(b: u64) -> (r: u64)
    ensures
        r == (b & NOT_A) >> 9,
{
    (b & NOT_A) >> 9
}

/// `n` steps north.
pub fn N_n(b: u64, n: usize) -> (r: u64)
    requires
        n <= 7,
    ensures
        r == b << (8 * n),
{
    b << (8 * n)
}

/// `n` steps south.
pub fn S_n(b: u64, n: usize) -> (r: u64)
    requires
        n <= 7,
    ensures
        r == b >> (8 * n),
{
    b >> (8 * n)
}

/// `n` steps east, the wrapping file masked once.
pub fn E_n(b: u64, n: usize) -> (r: u64)
    requires
        n <= 63,
    ensures
        r == (b & NOT_H) << n,
{
    (b & NOT_H) << n
}

/// `n` steps north-east, the wrapping file masked once.
pub fn NE_n(b: u64, n: usize) -> (r: u64)
    requires
        n <= 7,
    ensures
        r == (b & NOT_H) << (9 * n),
{
    (b & NOT_H) << (9 * n)
}

/// `n` steps south-east, the wrapping file masked once.
pub fn SE_n(b: u64, n: usize) -> (r: u64)
    requires
        n <= 9,
    ensures
        r == (b & NOT_H) >> (7 * n),
{
    (b & NOT_H) >> (7 * n)
}

/// `n` steps west, the wrapping file masked once.
pub fn W_n(b: u64, n: usize) -> (r: u64)
    requires
        n <= 63,
    ensures
        r == (b & NOT_A) >> n,
{
    (b & NOT_A) >> n
}

/// `n` steps north-west, the wrapping file masked once.
pub fn NW_n(b: u64, n: usize) -> (r: u64)
    requires
        n <= 9,
    ensures
        r == (b & NOT_A) << (7 * n),
{
    (b & NOT_A) << (7 * n)
}

/// `n` steps south-west, the wrapping file masked once.
pub fn SW_n(b: u64, n: usize) -> (r: u64)
    requires
        n <= 7,
    ensures
        r == (b & NOT_A) >> (9 * n),
{
    (b & NOT_A) >> (9 * n)
}

} // verus!
