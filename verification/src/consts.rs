//! Bitboard constants of the pawn game: rank and file masks and the starting
//! positions for each board size. A board of size `n` uses the lower-left
//! `n` by `n` corner of the 8 by 8 bitboard, bit `8 * rank + file`.

use vstd::prelude::*;

verus! {

/// An empty bitboard.
pub const EMPTY: u64 = 0;

/// A full bitboard.
pub const UNIVERSAL: u64 = 0xFFFFFFFFFFFFFFFF;

/// The mask of rank `i` (rank 0 is the bottom rank).
pub open spec fn spec_rank_mask(i: int) -> u64 {
    (0xFFu64 << (8 * i)) as u64
}

/// The mask of rank `i`.
pub fn rank_mask(i: usize) -> (r: u64)
    requires
        i < 8,
    ensures
        r == spec_rank_mask(i as int),
{
    0xFFu64 << (8 * i)
}

/// The mask of file `i` (file 0 is the leftmost file).
pub open spec fn spec_file_mask(i: int) -> u64 {
    (0x0101010101010101u64 << i) as u64
}

/// The mask of file `i`.
pub fn file_mask(i: usize) -> (r: u64)
    requires
        i < 8,
    ensures
        r == spec_file_mask(i as int),
{
    0x0101010101010101u64 << i
}

/// White's starting pawns for a board of the given size: the bottom rank's
/// first `size` squares.
pub open spec fn spec_start_pos_white(size: int) -> u64 {
    ((1u64 << size) - 1) as u64
}

/// White's starting pawns for a board of the given size.
pub fn start_pos_white(size: usize) -> (r: u64)
    requires
        2 < size < 9,
    ensures
        r == spec_start_pos_white(size as int),
{
    proof {
        assert(1u64 << size >= 1) by (bit_vector)
            requires
                size < 9usize,
        ;
    }
    (1u64 << size) - 1
}

/// Black's starting pawns for a board of the given size: the first `size`
/// squares of rank `size - 1`.
pub open spec fn spec_start_pos_black(size: int) -> u64 {
    (spec_start_pos_white(size) << (8 * (size - 1))) as u64
}

/// Black's starting pawns for a board of the given size.
pub fn start_pos_black(size: usize) -> (r: u64)
    requires
        2 < size < 9,
    ensures
        r == spec_start_pos_black(size as int),
{
    start_pos_white(size) << (8 * (size - 1))
}

} // verus!
