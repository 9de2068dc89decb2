//! Move generation for the pawn game. A move is a source and a destination
//! square; the generator lists, for every pawn of the side to move, its pawn
//! pushes (one step forward onto a free square, and from the second rank a
//! double step over two free squares) and its captures (one step diagonally
//! forward onto an opposing pawn), lowest source square first and for each
//! source lowest destination first.

use vstd::prelude::*;
use crate::bitboard::bit_indices;
use crate::bitboard::bit_indices_upto;
use crate::bitboard::bit_scan_forward;
use crate::bitboard::popcnt;
use crate::board::Board;
use crate::board::Color;
use crate::shift::NOT_A;
use crate::shift::NOT_H;

verus! {

/// A move from a source square to a destination square, both square indices
/// below 64 in `8 * rank + file` order.
#[derive(Clone, Copy, PartialEq, Eq, Structural, Hash, PartialOrd, Ord, Debug)]
pub struct Move {
    src: u8,
    dest: u8,
}

impl Move {
    #[verifier::type_invariant]
    pub closed spec fn inv(self) -> bool {
        self.src < 64 && self.dest < 64
    }

    /// The source square.
    pub closed spec fn spec_src(self) -> u8 {
        self.src
    }

    /// The destination square.
    pub closed spec fn spec_dest(self) -> u8 {
        self.dest
    }

    /// Creates a new `Move` from a source and destination square index.
    pub fn new(src: u8, dest: u8) -> (r: Move)
        requires
            src < 64,
            dest < 64,
        ensures
            r.spec_src() == src,
            r.spec_dest() == dest,
    {
        Move { src, dest }
    }

    /// Returns the source square of the `Move`.
    pub fn src(&self) -> (r: u8)
        ensures
            r == self.spec_src(),
            r < 64,
    {
        proof {
            use_type_invariant(*self);
        }
        self.src
    }

    /// Returns the destination square of the `Move`.
    pub fn dest(&self) -> (r: u8)
        ensures
            r == self.spec_dest(),
            r < 64,
    {
        proof {
            use_type_invariant(*self);
        }
        self.dest
    }
}

/// Move generation masks.
#[derive(Clone, Copy)]
pub enum Mask {
    /// All moves.
    All,
    /// Only capture moves.
    Capture,
    /// Only push moves.
    Push,
}

/// A pawn's square together with the bitboard of its remaining destinations.
#[derive(Clone, Copy)]
pub struct SquareAndBitBoard {
    sq: u8,
    bb: u64,
}

/// Quiet white pawn moves: a single push onto a free square, and the double
/// push landing on rank 3 when both squares are free.
pub open spec fn spec_white_quiets(bb: u64, occ: u64) -> u64 {
    let p1 = (bb << 8) & !occ;
    p1 | (((p1 << 8) & !occ) & 0x00000000FF000000u64)
}

/// Quiet black pawn moves: the mirror image of the white ones.
pub open spec fn spec_black_quiets(bb: u64, occ: u64) -> u64 {
    let p1 = (bb >> 8) & !occ;
    p1 | (((p1 >> 8) & !occ) & 0x000000FF00000000u64)
}

/// Squares a white pawn attacks.
pub open spec fn spec_white_attacks(bb: u64) -> u64 {
    ((bb & NOT_A) << 7) | ((bb & NOT_H) << 9)
}

/// Squares a black pawn attacks.
pub open spec fn spec_black_attacks(bb: u64) -> u64 {
    ((bb & NOT_A) >> 9) | ((bb & NOT_H) >> 7)
}

/// The destinations of the pawn on square `s`, for the given side and mask:
/// its quiet moves onto free squares and its captures of opposing pawns.
pub open spec fn spec_targets(white: u64, black: u64, side: Color, mask: Mask, s: u8) -> u64 {
    let bb = 1u64 << s;
    let occ = white | black;
    let them = if side is White {
        black
    } else {
        white
    };
    let quiets = if side is White {
        spec_white_quiets(bb, occ)
    } else {
        spec_black_quiets(bb, occ)
    };
    let attacks = (if side is White {
        spec_white_attacks(bb)
    } else {
        spec_black_attacks(bb)
    }) & them;
    match mask {
        Mask::All => quiets | attacks,
        Mask::Capture => attacks,
        Mask::Push => quiets,
    }
}

/// The moves from source square `s` to each destination of `t`, lowest
/// destination first.
pub closed spec fn spec_moves_from(s: u8, t: u64) -> Seq<Move> {
    bit_indices(t).map_values(|d: u8| Move { src: s, dest: d })
}

/// The masked moves whose source square is below `i`, lowest source first.
pub closed spec fn spec_masked_moves_upto(
    white: u64,
    black: u64,
    side: Color,
    mask: Mask,
    i: int,
) -> Seq<Move>
    decreases i,
{
    if i <= 0 {
        Seq::empty()
    } else {
        let s = (i - 1) as u8;
        let mover = if side is White {
            white
        } else {
            black
        };
        let prefix = spec_masked_moves_upto(white, black, side, mask, i - 1);
        if mover & (1u64 << s) != 0 {
            prefix + spec_moves_from(s, spec_targets(white, black, side, mask, s))
        } else {
            prefix
        }
    }
}

/// All masked moves of the side to move, lowest source square first and for
/// each source lowest destination first.
pub open spec fn spec_masked_moves(white: u64, black: u64, side: Color, mask: Mask) -> Seq<Move> {
    spec_masked_moves_upto(white, black, side, mask, 64)
}

/// One unfolding step of the masked move list: the moves below `i` are those
/// below `i - 1`, followed by those of square `i - 1` if a mover pawn stands
/// there.
proof fn lemma_masked_moves_step(white: u64, black: u64, side: Color, mask: Mask, i: int)
    requires
        1 <= i <= 64,
    ensures
        ({
            let s = (i - 1) as u8;
            let mover = if side is White {
                white
            } else {
                black
            };
            let prefix = spec_masked_moves_upto(white, black, side, mask, i - 1);
            spec_masked_moves_upto(white, black, side, mask, i) == if mover & (1u64 << s) != 0 {
                prefix + spec_moves_from(s, spec_targets(white, black, side, mask, s))
            } else {
                prefix
            }
        }),
{
}

/// The moves still to be handed out: those of the entries from `i` on.
pub closed spec fn entries_moves(es: Seq<SquareAndBitBoard>, i: int) -> Seq<Move>
    decreases es.len() - i,
{
    if i < 0 || i >= es.len() {
        Seq::empty()
    } else {
        spec_moves_from(es[i].sq, es[i].bb) + entries_moves(es, i + 1)
    }
}

/// Incremental move generation: a drained prefix of per-pawn entries, then
/// entries whose destination bitboards still hold moves.
pub struct MoveGen {
    /// All pieces to move and their possible moves.
    moves: Vec<SquareAndBitBoard>,
    /// The entry currently used for move generation.
    index: usize,
}

impl MoveGen {
    /// Well-formed generator: entries are squares with at least one remaining
    /// destination, and drained entries sit before `index`.
    pub closed spec fn wf(self) -> bool {
        &&& self.index <= self.moves@.len()
        &&& self.moves@.len() <= 64
        &&& forall|k: int|
            0 <= k < self.moves@.len() ==> (#[trigger] self.moves@[k]).sq < 64
        &&& forall|k: int| 0 <= k < self.index ==> (#[trigger] self.moves@[k]).bb == 0
        &&& forall|k: int|
            self.index <= k < self.moves@.len() ==> (#[trigger] self.moves@[k]).bb != 0
    }

    /// The moves not yet handed out, in generation order.
    pub closed spec fn spec_remaining(self) -> Seq<Move> {
        entries_moves(self.moves@, self.index as int)
    }

    /// Whether no move has been handed out yet.
    pub closed spec fn spec_fresh(self) -> bool {
        self.index == 0
    }

    /// Creates a new `MoveGen` with a move generation mask.
    pub fn with_mask(board: &Board, mask: Mask) -> (mg: MoveGen)
        ensures
            mg.spec_remaining() == spec_masked_moves(
                board.spec_white(),
                board.spec_black(),
                board.spec_side(),
                mask,
            ),
            mg.spec_fresh(),
            mg.wf(),
    {
        let ghost white = board.spec_white();
        let ghost black = board.spec_black();
        let ghost side = board.spec_side();
        let mover = board.pieces_to_move();
        let mut movelist: Vec<SquareAndBitBoard> = Vec::new();
        let mut s: usize = 0;
        while s < 64
            invariant
                s <= 64,
                movelist@.len() <= s,
                forall|k: int| 0 <= k < movelist@.len() ==> (#[trigger] movelist@[k]).sq < 64,
                forall|k: int| 0 <= k < movelist@.len() ==> (#[trigger] movelist@[k]).bb != 0,
                entries_moves(movelist@, 0) == spec_masked_moves_upto(
                    white,
                    black,
                    side,
                    mask,
                    s as int,
                ),
                mover == (if side is White {
                    white
                } else {
                    black
                }),
                white == board.spec_white(),
                black == board.spec_black(),
                side == board.spec_side(),
            decreases 64 - s,
        {
            let ghost prefix = spec_masked_moves_upto(white, black, side, mask, s as int);
            if mover & (1u64 << (s as u8)) != 0 {
                let t = masked_targets(board, mask, s as u8);
                let ghost from = spec_moves_from(s as u8, t);
                if t != 0 {
                    proof {
                        lemma_entries_moves_push(
                            movelist@,
                            SquareAndBitBoard { sq: s as u8, bb: t },
                            0,
                        );
                    }
                    movelist.push(SquareAndBitBoard { sq: s as u8, bb: t });
                    proof {
                        assert(entries_moves(movelist@, 0) == prefix + from);
                        lemma_masked_moves_step(white, black, side, mask, s as int + 1);
                    }
                } else {
                    proof {
                        lemma_bit_indices_zero();
                        assert(from =~= Seq::<Move>::empty());
                        assert(entries_moves(movelist@, 0) =~= prefix + from);
                        lemma_masked_moves_step(white, black, side, mask, s as int + 1);
                    }
                }
            } else {
                proof {
                    lemma_masked_moves_step(white, black, side, mask, s as int + 1);
                }
            }
            s = s + 1;
        }
        MoveGen { moves: movelist, index: 0 }
    }

    /// Drain this generator into the list of its remaining moves.
    pub fn into_vec(self) -> (r: Vec<Move>)
        requires
            self.wf(),
        ensures
            r@ == self.spec_remaining(),
    {
        let ghost orig = self;
        let mut mg = self;
        let mut v: Vec<Move> = Vec::new();
        loop
            invariant
                mg.wf(),
                v@ + mg.spec_remaining() == orig.spec_remaining(),
            ensures
                v@ == orig.spec_remaining(),
            decreases mg.spec_remaining().len(),
        {
            let ghost pre = v@ + mg.spec_remaining();
            match mg.next_move() {
                Some(m) => {
                    proof {
                        assert(v@.push(m) + mg.spec_remaining() =~= pre);
                    }
                    v.push(m);
                },
                None => {
                    proof {
                        assert(v@ + mg.spec_remaining() =~= v@);
                    }
                    break ;
                },
            }
        }
        v
    }

    /// Creates a new `MoveGen` with no mask.
    pub fn new(board: &Board) -> (mg: MoveGen)
        ensures
            mg.spec_remaining() == spec_masked_moves(
                board.spec_white(),
                board.spec_black(),
                board.spec_side(),
                Mask::All,
            ),
            mg.spec_fresh(),
            mg.wf(),
    {
        MoveGen::with_mask(board, Mask::All)
    }

    /// Hand out the next move, lowest destination of the current pawn first.
    pub fn next_move(&mut self) -> (r: Option<Move>)
        requires
            old(self).wf(),
        ensures
            final(self).wf(),
            old(self).spec_remaining().len() == 0 ==> r is None && final(self).spec_remaining()
                == old(self).spec_remaining(),
            old(self).spec_remaining().len() > 0 ==> r == Some(old(self).spec_remaining()[0])
                && final(self).spec_remaining() == old(self).spec_remaining().skip(1),
    {
        if self.index >= self.moves.len() {
            return None;
        }
        proof {
            lemma_entries_moves_nonempty(self.moves@, self.index as int);
        }
        let e = self.moves[self.index];
        let dest = bit_scan_forward(e.bb);
        let newbb = e.bb ^ (1u64 << dest);
        let ghost oldes = self.moves@;
        let ghost oldindex = self.index as int;
        let slot = self.index;
        self.moves[slot] = SquareAndBitBoard { sq: e.sq, bb: newbb };
        proof {
            lemma_bit_indices_split(e.bb, dest);
            let ghost ebb = e.bb;
            assert(ebb & !(1u64 << dest) == ebb ^ (1u64 << dest)) by (bit_vector)
                requires
                    dest < 64u8,
                    ebb & (1u64 << dest) != 0,
            ;
            assert(spec_moves_from(e.sq, e.bb) =~= seq![Move { src: e.sq, dest }]
                + spec_moves_from(e.sq, newbb)) by {
                assert(bit_indices(e.bb) == seq![dest] + bit_indices(newbb));
            }
            lemma_entries_moves_congruent(oldes, self.moves@, oldindex + 1);
            assert(entries_moves(oldes, oldindex) == spec_moves_from(e.sq, e.bb) + entries_moves(
                oldes,
                oldindex + 1,
            ));
        }
        if newbb == 0 {
            proof {
                lemma_bit_indices_zero();
                assert(spec_moves_from(e.sq, 0u64) =~= Seq::<Move>::empty());
                assert(entries_moves(self.moves@, oldindex) =~= entries_moves(
                    self.moves@,
                    oldindex + 1,
                ));
                assert(old(self).spec_remaining().skip(1) =~= entries_moves(
                    self.moves@,
                    oldindex + 1,
                ));
            }
            self.index = self.index + 1;
        } else {
            proof {
                assert(old(self).spec_remaining().skip(1) =~= spec_moves_from(e.sq, newbb)
                    + entries_moves(self.moves@, oldindex + 1));
            }
        }
        Some(Move::new(e.sq, dest))
    }

    /// The number of moves a fresh generator will hand out; a generator that
    /// has already handed out moves counts zero.
    pub fn len(&self) -> (r: usize)
        requires
            self.wf(),
        ensures
            r == if self.spec_fresh() {
                self.spec_remaining().len()
            } else {
                0nat
            },
    {
        let mut len: usize = 0;
        let mut k: usize = 0;
        loop
            invariant
                self.wf(),
                k <= self.moves@.len(),
                self.index == 0 ==> len + entries_moves(self.moves@, k as int).len()
                    == self.spec_remaining().len(),
                self.index == 0 ==> len <= 64 * k,
                self.index > 0 ==> len == 0 && k == 0,
            ensures
                len == if self.index == 0 {
                    self.spec_remaining().len()
                } else {
                    0nat
                },
            decreases self.moves@.len() - k,
        {
            if k >= self.moves.len() {
                proof {
                    if self.index == 0 {
                        assert(entries_moves(self.moves@, k as int) =~= Seq::<Move>::empty());
                    } else {
                        lemma_entries_moves_nonneg(self.moves@, self.index as int);
                    }
                }
                break ;
            }
            let e = self.moves[k];
            if e.bb == 0 {
                proof {
                    if self.index == 0 {
                        assert(self.moves@[k as int].bb != 0);
                    }
                }
                break ;
            }
            proof {
                lemma_bit_indices_len(e.bb);
                assert(entries_moves(self.moves@, k as int) == spec_moves_from(e.sq, e.bb)
                    + entries_moves(self.moves@, k as int + 1));
            }
            len = len + popcnt(e.bb);
            k = k + 1;
        }
        len
    }
}

/// The destination bitboard of the pawn on square `s` of `board`'s side to
/// move, under the given mask.
fn masked_targets(board: &Board, mask: Mask, s: u8) -> (t: u64)
    requires
        s < 64,
    ensures
        t == spec_targets(board.spec_white(), board.spec_black(), board.spec_side(), mask, s),
{
    let bb = 1u64 << s;
    let occ = board.occupied();
    let them = board.pieces_not_to_move();
    let quiets = match board.side_to_move() {
        Color::White => {
            let p1 = (bb << 8) & !occ;
            p1 | (((p1 << 8) & !occ) & 0x00000000FF000000u64)
        },
        Color::Black => {
            let p1 = (bb >> 8) & !occ;
            p1 | (((p1 >> 8) & !occ) & 0x000000FF00000000u64)
        },
    };
    let attacks = (match board.side_to_move() {
        Color::White => ((bb & NOT_A) << 7) | ((bb & NOT_H) << 9),
        Color::Black => ((bb & NOT_A) >> 9) | ((bb & NOT_H) >> 7),
    }) & them;
    match mask {
        Mask::All => quiets | attacks,
        Mask::Capture => attacks,
        Mask::Push => quiets,
    }
}

/// The bit indices of zero are none at all.
proof fn lemma_bit_indices_zero()
    ensures
        forall|i: int| 0 <= i <= 64 ==> #[trigger] bit_indices_upto(0u64, i) == Seq::<u8>::empty(),
        bit_indices(0u64) == Seq::<u8>::empty(),
{
    assert forall|i: int| 0 <= i <= 64 implies #[trigger] bit_indices_upto(0u64, i) == Seq::<
        u8,
    >::empty() by {
        lemma_bit_indices_zero_upto(i);
    }
    lemma_bit_indices_zero_upto(64);
}

proof fn lemma_bit_indices_zero_upto(i: int)
    requires
        0 <= i <= 64,
    ensures
        bit_indices_upto(0u64, i) == Seq::<u8>::empty(),
    decreases i,
{
    if i > 0 {
        lemma_bit_indices_zero_upto(i - 1);
        assert(0u64 & (1u64 << ((i - 1) as u64)) == 0) by (bit_vector);
    }
}

/// A bitboard's list of bit indices has at most as many entries as positions
/// scanned, and exactly one per set bit.
proof fn lemma_bit_indices_len_upto(b: u64, i: int)
    requires
        0 <= i <= 64,
    ensures
        bit_indices_upto(b, i).len() <= i,
    decreases i,
{
    if i > 0 {
        lemma_bit_indices_len_upto(b, i - 1);
    }
}

/// A bitboard has at most 64 listed bit indices.
proof fn lemma_bit_indices_len(b: u64)
    ensures
        bit_indices(b).len() <= 64,
{
    lemma_bit_indices_len_upto(b, 64);
}

/// A nonzero bitboard lists at least one bit index.
proof fn lemma_bit_indices_nonempty(b: u64)
    requires
        b != 0,
    ensures
        bit_indices(b).len() > 0,
{
    vstd::std_specs::bits::axiom_u64_trailing_zeros(b);
    let t = vstd::std_specs::bits::u64_trailing_zeros(b) as u64;
    assert(forall|j: u64| j < 64 ==> (((b >> j) & 1u64 == 1u64) <==> b & (1u64 << j) != 0))
        by (bit_vector);
    lemma_bit_indices_has_bit(b, t as int, 64);
}

proof fn lemma_bit_indices_has_bit(b: u64, t: int, i: int)
    requires
        0 <= t < i <= 64,
        b & (1u64 << (t as u64)) != 0,
    ensures
        bit_indices_upto(b, i).len() > 0,
    decreases i,
{
    if t == i - 1 {
    } else {
        lemma_bit_indices_has_bit(b, t, i - 1);
    }
}

/// Splitting off the lowest set bit of a bitboard splits its index list.
proof fn lemma_bit_indices_split(b: u64, t: u8)
    requires
        t < 64,
        b & (1u64 << t) != 0,
        forall|j: u64| j < t ==> b & (1u64 << j) == 0,
    ensures
        bit_indices(b) == seq![t] + bit_indices(b & !(1u64 << t)),
{
    let b2 = b & !(1u64 << t);
    assert(b2 & (1u64 << t) == 0 && forall|j: u64|
        j < 64 && j != t ==> (b2 & (1u64 << j)) == (b & (1u64 << j))) by (bit_vector)
        requires
            t < 64u8,
            b2 == b & !(1u64 << t),
    ;
    lemma_bit_indices_split_upto(b, b2, t, 64);
}

proof fn lemma_bit_indices_split_upto(b: u64, b2: u64, t: u8, i: int)
    requires
        t < 64,
        (t as int) < i <= 64,
        b & (1u64 << t) != 0,
        forall|j: u64| j < t ==> b & (1u64 << j) == 0,
        b2 & (1u64 << t) == 0,
        forall|j: u64| j < 64 && j != t ==> (b2 & (1u64 << j)) == (b & (1u64 << j)),
    ensures
        bit_indices_upto(b, i) == seq![t] + bit_indices_upto(b2, i),
    decreases i,
{
    if i == t + 1 {
        lemma_bit_indices_low_zero(b, t as int);
        lemma_bit_indices_low_zero2(b2, t, t as int + 1);
        assert(bit_indices_upto(b, i) =~= seq![t] + bit_indices_upto(b2, i));
    } else {
        lemma_bit_indices_split_upto(b, b2, t, i - 1);
        let s = (i - 1) as u64;
        assert(s < 64 && s != t);
        if b & (1u64 << s) != 0 {
            assert(bit_indices_upto(b, i) =~= seq![t] + bit_indices_upto(b2, i));
        } else {
            assert(bit_indices_upto(b, i) =~= seq![t] + bit_indices_upto(b2, i));
        }
    }
}

proof fn lemma_bit_indices_low_zero(b: u64, i: int)
    requires
        0 <= i <= 64,
        forall|j: u64| j < i ==> b & (1u64 << j) == 0,
    ensures
        bit_indices_upto(b, i) == Seq::<u8>::empty(),
    decreases i,
{
    if i > 0 {
        lemma_bit_indices_low_zero(b, i - 1);
    }
}

proof fn lemma_bit_indices_low_zero2(b2: u64, t: u8, i: int)
    requires
        t < 64,
        0 <= i <= t + 1,
        b2 & (1u64 << t) == 0,
        forall|j: u64| j < 64 && j != t ==> (b2 & (1u64 << j)) == 0 || j > t,
        forall|j: u64| j < t ==> b2 & (1u64 << j) == 0,
    ensures
        bit_indices_upto(b2, i) == Seq::<u8>::empty(),
    decreases i,
{
    if i > 0 {
        lemma_bit_indices_low_zero2(b2, t, i - 1);
    }
}

/// Appending an entry appends its moves to the flattened list.
proof fn lemma_entries_moves_push(es: Seq<SquareAndBitBoard>, e: SquareAndBitBoard, i: int)
    requires
        0 <= i <= es.len(),
    ensures
        entries_moves(es.push(e), i) == entries_moves(es, i) + spec_moves_from(e.sq, e.bb),
    decreases es.len() - i,
{
    if i == es.len() {
        assert(entries_moves(es.push(e), i + 1) =~= Seq::<Move>::empty());
        assert(entries_moves(es.push(e), i) =~= entries_moves(es, i) + spec_moves_from(
            e.sq,
            e.bb,
        ));
    } else {
        lemma_entries_moves_push(es, e, i + 1);
        assert(es.push(e)[i] == es[i]);
        assert(entries_moves(es.push(e), i) =~= entries_moves(es, i) + spec_moves_from(
            e.sq,
            e.bb,
        ));
    }
}

/// Two entry lists equal from `i` on flatten to the same moves from `i` on.
proof fn lemma_entries_moves_congruent(a: Seq<SquareAndBitBoard>, b: Seq<SquareAndBitBoard>, i: int)
    requires
        a.len() == b.len(),
        forall|k: int| i <= k < a.len() ==> a[k] == b[k],
    ensures
        entries_moves(a, i) == entries_moves(b, i),
    decreases a.len() - i,
{
    if 0 <= i < a.len() {
        lemma_entries_moves_congruent(a, b, i + 1);
    }
}

/// A listed bit index is a set bit below the scanned bound.
proof fn lemma_bit_indices_member(b: u64, i: int, d: u8)
    requires
        0 <= i <= 64,
        bit_indices_upto(b, i).contains(d),
    ensures
        d < i,
        b & (1u64 << d) != 0,
    decreases i,
{
    if i > 0 {
        let prefix = bit_indices_upto(b, i - 1);
        if b & (1u64 << ((i - 1) as u64)) != 0 {
            if d != (i - 1) as u8 {
                assert(prefix.push((i - 1) as u8).contains(d));
                assert(prefix.contains(d));
                lemma_bit_indices_member(b, i - 1, d);
            }
        } else {
            lemma_bit_indices_member(b, i - 1, d);
        }
    }
}

/// Every generated move leaves from a pawn of the side to move and lands on
/// one of that pawn's destination squares.
pub proof fn lemma_move_origin(white: u64, black: u64, side: Color, mask: Mask, m: Move)
    requires
        spec_masked_moves(white, black, side, mask).contains(m),
    ensures
        m.spec_src() < 64,
        m.spec_dest() < 64,
        (if side is White {
            white
        } else {
            black
        }) & (1u64 << m.spec_src()) != 0,
        spec_targets(white, black, side, mask, m.spec_src()) & (1u64 << m.spec_dest()) != 0,
{
    lemma_move_origin_upto(white, black, side, mask, 64, m);
}

proof fn lemma_move_origin_upto(white: u64, black: u64, side: Color, mask: Mask, i: int, m: Move)
    requires
        0 <= i <= 64,
        spec_masked_moves_upto(white, black, side, mask, i).contains(m),
    ensures
        m.spec_src() < i,
        m.spec_dest() < 64,
        (if side is White {
            white
        } else {
            black
        }) & (1u64 << m.spec_src()) != 0,
        spec_targets(white, black, side, mask, m.spec_src()) & (1u64 << m.spec_dest()) != 0,
    decreases i,
{
    let mover = if side is White {
        white
    } else {
        black
    };
    let s = (i - 1) as u8;
    let prefix = spec_masked_moves_upto(white, black, side, mask, i - 1);
    if i > 0 && mover & (1u64 << s) != 0 {
        let t = spec_targets(white, black, side, mask, s);
        let from = spec_moves_from(s, t);
        let whole = prefix + from;
        assert(whole.contains(m));
        let idx = choose|idx: int| 0 <= idx < whole.len() && whole[idx] == m;
        if idx < prefix.len() {
            assert(prefix.contains(m));
            lemma_move_origin_upto(white, black, side, mask, i - 1, m);
        } else {
            assert(from[idx - prefix.len()] == m);
            let dxs = bit_indices(t);
            let d = dxs[idx - prefix.len()];
            assert(m == Move { src: s, dest: d });
            assert(dxs.contains(d));
            lemma_bit_indices_member(t, 64, d);
        }
    } else {
        if i > 0 {
            assert(prefix.contains(m));
            lemma_move_origin_upto(white, black, side, mask, i - 1, m);
        }
    }
}

/// Entries with nonzero bitboards from `i` on yield at least one move each.
proof fn lemma_entries_moves_nonempty(es: Seq<SquareAndBitBoard>, i: int)
    requires
        0 <= i < es.len(),
        forall|k: int| i <= k < es.len() ==> (#[trigger] es[k]).bb != 0,
    ensures
        entries_moves(es, i).len() > 0,
{
    lemma_bit_indices_nonempty(es[i].bb);
}

proof fn lemma_entries_moves_nonneg(es: Seq<SquareAndBitBoard>, i: int)
    ensures
        entries_moves(es, i).len() >= 0,
{
}

} // verus!
