//! Single-step and multi-step shifts of a 64-square bitboard laid out in
//! little-endian file-rank order: bit `8 * rank + file`. North is towards
//! higher ranks; east is towards higher files. East and west steps mask off
//! the wrapping file before shifting.

#![allow(non_snake_case)]

use vstd::prelude::*;

verus! {

/// All squares not on file A.
pub const NOT_A: u64 = 0xfefefefefefefefe;

/// All squares not on file H.
pub const NOT_H: u64 = 0x7f7f7f7f7f7f7f7f;

/// Shift left by `s` when `s` is positive, right by `-s` otherwise.
pub fn shift(b: u64, s: isize) -> (r: u64)
    requires
        -64 < s < 64,
    ensures
        s > 0 ==> r == b << s,
        s <= 0 ==> r == b >> (-s),
{
    if s > 0 {
        b << s
    } else {
        b >> -s
    }
}

/// One step north.
pub fn N_1(b: u64) -> (r: u64)
    ensures
        r == b << 8,
{
    b << 8
}

/// One step south.
pub fn S_1(b: u64) -> (r: u64)
    ensures
        r == b >> 8,
{
    b >> 8
}

/// One step east.
pub fn E_1(b: u64) -> (r: u64)
    ensures
        r == (b & NOT_H) << 1,
{
    (b & NOT_H) << 1
}

/// One step north-east.
pub fn NE_1(b: u64) -> (r: u64)
    ensures
        r == (b & NOT_H) << 9,
{
    (b & NOT_H) << 9
}

/// One step south-east.
pub fn SE_1(b: u64) -> (r: u64)
    ensures
        r == (b & NOT_H) >> 7,
{
    (b & NOT_H) >> 7
}

/// One step west.
pub fn W_1(b: u64) -> (r: u64)
    ensures
        r == (b & NOT_A) >> 1,
{
    (b & NOT_A) >> 1
}

/// One step north-west.
pub fn NW_1(b: u64) -> (r: u64)
    ensures
        r == (b & NOT_A) << 7,
{
    (b & NOT_A) << 7
}

/// One step south-west.
pub fn SW_1(b: u64) -> (r: u64)
    ensures
        r == (b & NOT_A) >> 9,
{
    (b & NOT_A) >> 9
}

/// `n` steps north.
pub fn N_n(b: u64, n: usize) -> (r: u64)
    requires
        n <= 7,
    ensures
        r == b << (8 * n),
{
    b << (8 * n)
}

/// `n` steps south.
pub fn S_n(b: u64, n: usize) -> (r: u64)
    requires
        n <= 7,
    ensures
        r == b >> (8 * n),
{
    b >> (8 * n)
}

} // verus!
