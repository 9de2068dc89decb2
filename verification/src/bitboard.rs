//! A full chess position as twelve bitboards, one per piece kind and colour,
//! with bit `8 * rank + file` standing for a square (little-endian file-rank
//! order), and helpers to scan and list the set squares of a bitboard.

#![allow(non_snake_case)]

use vstd::prelude::*;
use vstd::std_specs::bits::axiom_u64_trailing_zeros;
use vstd::std_specs::bits::u64_trailing_zeros;

verus! {

/// The empty bitboard.
pub const EMPTY: u64 = 0;

/// The full bitboard.
pub const UNIVERSAL: u64 = 0xFFFFFFFFFFFFFFFF;

/// Rank 8, the topmost rank.
pub const RANK_8: u64 = 0xFF00000000000000;

/// Rank 1, the bottommost rank.
pub const RANK_1: u64 = 0x00000000000000FF;

/// The bitboard with exactly the square of index `n` set.
pub fn SQUARE(n: usize) -> (r: u64)
    requires
        n < 64,
    ensures
        r == 1u64 << n,
{
    1u64 << n
}

/// A chess position in the standard initial piece arrangement, one bitboard
/// per piece kind and colour.
#[derive(Debug, Clone)]
pub struct Board {
    pub white_pawns: u64,
    pub white_knights: u64,
    pub white_bishops: u64,
    pub white_rooks: u64,
    pub white_queens: u64,
    pub white_kings: u64,
    pub black_pawns: u64,
    pub black_knights: u64,
    pub black_bishops: u64,
    pub black_rooks: u64,
    pub black_queens: u64,
    pub black_kings: u64,
}

impl Default for Board {
    /// The standard chess starting position.
    fn default() -> (r: Self)
        ensures
            r.white_pawns == 0x000000000000FF00u64,
            r.white_knights == 0x0000000000000042u64,
            r.white_bishops == 0x0000000000000024u64,
            r.white_rooks == 0x0000000000000081u64,
            r.white_queens == 0x0000000000000008u64,
            r.white_kings == 0x0000000000000010u64,
            r.black_pawns == 0x00FF000000000000u64,
            r.black_knights == 0x4200000000000000u64,
            r.black_bishops == 0x2400000000000000u64,
            r.black_rooks == 0x8100000000000000u64,
            r.black_queens == 0x0800000000000000u64,
            r.black_kings == 0x1000000000000000u64,
    {
        Self {
            white_pawns: 0x000000000000FF00,
            white_knights: 0x0000000000000042,
            white_bishops: 0x0000000000000024,
            white_rooks: 0x0000000000000081,
            white_queens: 0x0000000000000008,
            white_kings: 0x0000000000000010,
            black_pawns: 0x00FF000000000000,
            black_knights: 0x4200000000000000,
            black_bishops: 0x2400000000000000,
            black_rooks: 0x8100000000000000,
            black_queens: 0x0800000000000000,
            black_kings: 0x1000000000000000,
        }
    }
}

impl Board {
    /// The union of all white piece bitboards.
    pub open spec fn spec_white_pieces(&self) -> u64 {
        self.white_pawns | self.white_knights | self.white_bishops | self.white_rooks
            | self.white_queens | self.white_kings
    }

    /// The union of all black piece bitboards.
    pub open spec fn spec_black_pieces(&self) -> u64 {
        self.black_pawns | self.black_knights | self.black_bishops | self.black_rooks
            | self.black_queens | self.black_kings
    }

    pub fn white_pieces(&self) -> (r: u64)
        ensures
            r == self.spec_white_pieces(),
    {
        self.white_pawns | self.white_knights | self.white_bishops | self.white_rooks
            | self.white_queens | self.white_kings
    }

    pub fn black_pieces(&self) -> (r: u64)
        ensures
            r == self.spec_black_pieces(),
    {
        self.black_pawns | self.black_knights | self.black_bishops | self.black_rooks
            | self.black_queens | self.black_kings
    }

    /// All occupied squares.
    pub fn occupied(&self) -> (r: u64)
        ensures
            r == (self.spec_white_pieces() | self.spec_black_pieces()),
    {
        self.white_pieces() | self.black_pieces()
    }

    /// All empty squares.
    pub fn empty(&self) -> (r: u64)
        ensures
            r == !(self.spec_white_pieces() | self.spec_black_pieces()),
    {
        !self.occupied()
    }
}

/// The index of the least significant set bit of `b`.
pub fn bit_scan_forward(b: u64) -> (r: u8)
    requires
        b != 0,
    ensures
        r < 64,
        b & (1u64 << r) != 0,
        forall|j: u64| j < r ==> b & (1u64 << j) == 0,
{
    proof {
        axiom_u64_trailing_zeros(b);
        let t = u64_trailing_zeros(b) as u64;
        assert((b >> t) & 1u64 == 1u64 ==> b & (1u64 << t) != 0) by (bit_vector);
        assert(forall|j: u64| j < 64 ==> ((b >> j) & 1u64 == 0u64 <==> b & (1u64 << j) == 0))
            by (bit_vector);
    }
    b.trailing_zeros() as u8
}

/// The indices of the set bits of `b`, in increasing order, those below
/// index `i` only.
pub open spec fn bit_indices_upto(b: u64, i: int) -> Seq<u8>
    decreases i,
{
    if i <= 0 {
        Seq::empty()
    } else if b & (1u64 << ((i - 1) as u64)) != 0 {
        bit_indices_upto(b, i - 1).push((i - 1) as u8)
    } else {
        bit_indices_upto(b, i - 1)
    }
}

/// The indices of all set bits of `b`, in increasing order.
pub open spec fn bit_indices(b: u64) -> Seq<u8> {
    bit_indices_upto(b, 64)
}

/// The number of set squares of `b`.
pub fn popcnt(b: u64) -> (r: usize)
    ensures
        r == bit_indices(b).len(),
        r <= 64,
{
    let mut count: usize = 0;
    let mut i: usize = 0;
    while i < 64
        invariant
            i <= 64,
            count == bit_indices_upto(b, i as int).len(),
            count <= i,
        decreases 64 - i,
    {
        if b & (1u64 << (i as u64)) != 0 {
            count = count + 1;
        }
        i = i + 1;
    }
    count
}

/// List the indices of the set squares of `b`, bottom square first.
pub fn serialize_bb(b: u64) -> (r: Vec<u8>)
    ensures
        r@ == bit_indices(b),
{
    let mut idxs: Vec<u8> = Vec::new();
    let mut i: usize = 0;
    while i < 64
        invariant
            i <= 64,
            idxs@ == bit_indices_upto(b, i as int),
        decreases 64 - i,
    {
        if b & (1u64 << (i as u64)) != 0 {
            idxs.push(i as u8);
        }
        i = i + 1;
    }
    idxs
}

} // verus!
