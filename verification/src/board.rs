//! Board representation of hexapawn: one bitboard of pawns per colour on the
//! lower-left `size` by `size` corner of an 8 by 8 grid, and the side to
//! move. White pushes north and wins on reaching the top rank of the playing
//! area; Black pushes south and wins on reaching the bottom rank; a side
//! without a move to make draws the game.

use vstd::prelude::*;
use crate::consts::rank_mask;
use crate::consts::spec_rank_mask;
use crate::consts::spec_start_pos_black;
use crate::consts::spec_start_pos_white;
use crate::consts::start_pos_black;
use crate::consts::start_pos_white;
use crate::move_gen::Mask;
use crate::move_gen::Move;
use crate::move_gen::MoveGen;
use crate::move_gen::spec_masked_moves;
use crate::position::Position;
use crate::rng::rand_below;
use crate::wdl::Outcome;
use crate::wdl::Player;

verus! {

/// The colour of a side: White moves first and pushes north.
#[derive(Clone, Copy, PartialEq, Eq, Structural, Hash, Debug)]
pub enum Color {
    White,
    Black,
}

impl Color {
    /// The other colour.
    pub open spec fn spec_other(self) -> Color {
        match self {
            Color::White => Color::Black,
            Color::Black => Color::White,
        }
    }

    #[verifier::when_used_as_spec(spec_other)]
    pub fn other(self) -> (r: Color)
        ensures
            r == self.spec_other(),
    {
        match self {
            Color::White => Color::Black,
            Color::Black => Color::White,
        }
    }
}

/// A representation of hexapawn of various sizes.
#[derive(Clone, Copy, PartialEq, Eq, Structural, Hash, Debug)]
pub struct Board {
    /// White's pawns.
    white: u64,
    /// Black's pawns.
    black: u64,
    /// The side to move.
    side_to_move: Color,
    /// The size of the board, from 3 to 8.
    size: usize,
}

impl Board {
    #[verifier::type_invariant]
    pub closed spec fn inv(self) -> bool {
        2 < self.size < 9
    }

    /// White's pawns.
    pub closed spec fn spec_white(self) -> u64 {
        self.white
    }

    /// Black's pawns.
    pub closed spec fn spec_black(self) -> u64 {
        self.black
    }

    /// The side to move.
    pub closed spec fn spec_side(self) -> Color {
        self.side_to_move
    }

    /// The size of the board.
    pub closed spec fn spec_size(self) -> usize {
        self.size
    }

    /// Creates a new `Board` in the starting position.
    /// The size must be 3 to 8.
    pub fn new(size: usize) -> (r: Board)
        requires
            2 < size < 9,
        ensures
            r.spec_white() == spec_start_pos_white(size as int),
            r.spec_black() == spec_start_pos_black(size as int),
            r.spec_side() == Color::White,
            r.spec_size() == size,
    {
        Board {
            white: start_pos_white(size),
            black: start_pos_black(size),
            side_to_move: Color::White,
            size,
        }
    }

    /// Returns a certain colour's pawn bitboard.
    pub fn pieces(&self, color: Color) -> (r: u64)
        ensures
            r == if color is White {
                self.spec_white()
            } else {
                self.spec_black()
            },
    {
        match color {
            Color::White => self.white,
            Color::Black => self.black,
        }
    }

    /// Returns the bitboard of the pawns to move.
    pub fn pieces_to_move(&self) -> (r: u64)
        ensures
            r == if self.spec_side() is White {
                self.spec_white()
            } else {
                self.spec_black()
            },
    {
        self.pieces(self.side_to_move)
    }

    /// Returns the bitboard of the pawns not to move.
    pub fn pieces_not_to_move(&self) -> (r: u64)
        ensures
            r == if self.spec_side() is White {
                self.spec_black()
            } else {
                self.spec_white()
            },
    {
        self.pieces(self.side_to_move.other())
    }

    /// Returns the side to move, White or Black.
    pub fn side_to_move(&self) -> (r: Color)
        ensures
            r == self.spec_side(),
    {
        self.side_to_move
    }

    /// Returns the size of the board.
    pub fn size(&self) -> (r: usize)
        ensures
            r == self.spec_size(),
            2 < r < 9,
    {
        proof {
            use_type_invariant(*self);
        }
        self.size
    }

    /// Returns a bitboard of all occupied squares.
    pub fn occupied(&self) -> (r: u64)
        ensures
            r == (self.spec_white() | self.spec_black()),
    {
        self.white | self.black
    }

    /// Returns a bitboard of all empty squares.
    pub fn empty(&self) -> (r: u64)
        ensures
            r == !(self.spec_white() | self.spec_black()),
    {
        !self.occupied()
    }

    /// The board after playing `mv`: the moving side's pawn travels from the
    /// source to the destination square, any opposing pawn on the destination
    /// is removed, and the turn passes to the opponent.
    pub closed spec fn spec_play_on(self, mv: Move) -> Board {
        let src_bb = 1u64 << mv.spec_src();
        let dest_bb = 1u64 << mv.spec_dest();
        match self.side_to_move {
            Color::White => Board {
                white: self.white ^ (src_bb | dest_bb),
                black: self.black & !dest_bb,
                side_to_move: Color::Black,
                ..self
            },
            Color::Black => Board {
                black: self.black ^ (src_bb | dest_bb),
                white: self.white & !dest_bb,
                side_to_move: Color::White,
                ..self
            },
        }
    }

    /// Play `mv` in place.
    pub fn play(&mut self, mv: Move)
        ensures
            *final(self) == old(self).spec_play_on(mv),
            final(self).spec_size() == old(self).spec_size(),
            final(self).spec_side() == old(self).spec_side().spec_other(),
            old(self).spec_side() is White ==> final(self).spec_white() == (old(self).spec_white()
                ^ ((1u64 << mv.spec_src()) | (1u64 << mv.spec_dest()))) && final(self).spec_black()
                == (old(self).spec_black() & !(1u64 << mv.spec_dest())),
            old(self).spec_side() is Black ==> final(self).spec_black() == (old(self).spec_black()
                ^ ((1u64 << mv.spec_src()) | (1u64 << mv.spec_dest()))) && final(self).spec_white()
                == (old(self).spec_white() & !(1u64 << mv.spec_dest())),
    {
        proof {
            use_type_invariant(*self);
        }
        let src_bb = 1u64 << mv.src();
        let dest_bb = 1u64 << mv.dest();
        match self.side_to_move {
            Color::White => {
                self.white = self.white ^ (src_bb | dest_bb);
                self.black = self.black & !dest_bb;
                self.side_to_move = Color::Black;
            },
            Color::Black => {
                self.black = self.black ^ (src_bb | dest_bb);
                self.white = self.white & !dest_bb;
                self.side_to_move = Color::White;
            },
        }
    }

    /// List the legal moves of the side to move.
    pub fn available_moves(&self) -> (r: Vec<Move>)
        ensures
            r@ == spec_masked_moves(
                self.spec_white(),
                self.spec_black(),
                self.spec_side(),
                Mask::All,
            ),
    {
        let mut mg = MoveGen::new(self);
        let mut v: Vec<Move> = Vec::new();
        loop
            invariant
                mg.wf(),
                v@ + mg.spec_remaining() == spec_masked_moves(
                    self.spec_white(),
                    self.spec_black(),
                    self.spec_side(),
                    Mask::All,
                ),
            ensures
                v@ == spec_masked_moves(
                    self.spec_white(),
                    self.spec_black(),
                    self.spec_side(),
                    Mask::All,
                ),
            decreases mg.spec_remaining().len(),
        {
            let ghost pre = v@ + mg.spec_remaining();
            match mg.next_move() {
                Some(m) => {
                    proof {
                        assert(v@.push(m) + mg.spec_remaining() =~= pre);
                    }
                    v.push(m);
                },
                None => {
                    proof {
                        assert(v@ + mg.spec_remaining() =~= v@);
                    }
                    break ;
                },
            }
        }
        v
    }

    /// Whether `mv` is a legal move of the side to move.
    pub fn is_available_move(&self, mv: Move) -> (r: bool)
        ensures
            r == spec_masked_moves(
                self.spec_white(),
                self.spec_black(),
                self.spec_side(),
                Mask::All,
            ).contains(mv),
    {
        let ms = self.available_moves();
        let mut k: usize = 0;
        while k < ms.len()
            invariant
                k <= ms@.len(),
                ms@ == spec_masked_moves(
                    self.spec_white(),
                    self.spec_black(),
                    self.spec_side(),
                    Mask::All,
                ),
                forall|j: int| 0 <= j < k ==> ms@[j] != mv,
            decreases ms@.len() - k,
        {
            if ms[k] == mv {
                return true;
            }
            k = k + 1;
        }
        false
    }

    /// A uniformly drawn legal move of the side to move.
    pub fn random_available_move(&self, rng: &mut rand::rngs::StdRng) -> (r: Move)
        requires
            spec_masked_moves(
                self.spec_white(),
                self.spec_black(),
                self.spec_side(),
                Mask::All,
            ).len() > 0,
        ensures
            spec_masked_moves(
                self.spec_white(),
                self.spec_black(),
                self.spec_side(),
                Mask::All,
            ).contains(r),
    {
        let ms = self.available_moves();
        let i = rand_below(rng, ms.len());
        ms[i]
    }

    /// Whether the game is over in this position.
    pub fn is_done(&self) -> (r: bool)
        ensures
            r == (self.spec_outcome() is Some),
    {
        let o = Position::<Move>::outcome(self);
        o.is_some()
    }
}

impl Position<Move> for Board {
    open spec fn spec_moves(&self) -> Seq<Move> {
        spec_masked_moves(self.spec_white(), self.spec_black(), self.spec_side(), Mask::All)
    }

    /// White wins as soon as a white pawn stands on the top rank of the
    /// playing area, Black as soon as a black pawn stands on the bottom
    /// rank; otherwise a position without legal moves is a draw.
    open spec fn spec_outcome(&self) -> Option<Outcome> {
        if self.spec_white() & spec_rank_mask(self.spec_size() - 1) != 0 {
            Some(Outcome::WonBy(Player::A))
        } else if self.spec_black() & spec_rank_mask(0) != 0 {
            Some(Outcome::WonBy(Player::B))
        } else if self.spec_moves().len() == 0 {
            Some(Outcome::Draw)
        } else {
            None
        }
    }

    open spec fn spec_player(&self) -> Player {
        if self.spec_side() is White {
            Player::A
        } else {
            Player::B
        }
    }

    open spec fn spec_play(&self, m: Move) -> Board {
        self.spec_play_on(m)
    }

    fn moves(&self) -> (r: Vec<Move>) {
        self.available_moves()
    }

    fn outcome(&self) -> (r: Option<Outcome>) {
        proof {
            use_type_invariant(*self);
        }
        if self.white & rank_mask(self.size - 1) != 0 {
            Some(Outcome::WonBy(Player::A))
        } else if self.black & rank_mask(0) != 0 {
            Some(Outcome::WonBy(Player::B))
        } else if MoveGen::new(self).len() == 0 {
            Some(Outcome::Draw)
        } else {
            None
        }
    }

    fn next_player(&self) -> (r: Player) {
        match self.side_to_move {
            Color::White => Player::A,
            Color::Black => Player::B,
        }
    }

    fn clone_and_play(&self, m: Move) -> (r: Board) {
        let mut b = *self;
        b.play(m);
        b
    }

    fn dup(&self) -> (r: Board) {
        *self
    }

    proof fn moves_when_not_done(&self) {
    }

    /// Black's pawns, weighed so far above White's complement that any move
    /// of either side shrinks the total: White only ever raises its own
    /// bitboard or captures a black pawn, Black only ever lowers its own.
    open spec fn spec_measure(&self) -> nat {
        (self.spec_black() * 0x10000000000000000 + (0xFFFFFFFFFFFFFFFF - self.spec_white())) as nat
    }

    proof fn playing_decreases(&self, m: Move) {
        crate::move_gen::lemma_move_origin(
            self.spec_white(),
            self.spec_black(),
            self.spec_side(),
            Mask::All,
            m,
        );
        let w = self.spec_white();
        let b = self.spec_black();
        let s = m.spec_src();
        let d = m.spec_dest();
        match self.spec_side() {
            Color::White => {
                assert({
                    let w2 = w ^ ((1u64 << s) | (1u64 << d));
                    let b2 = b & !(1u64 << d);
                    b2 < b || (b2 == b && w2 > w)
                }) by (bit_vector)
                    requires
                        s < 64u8,
                        d < 64u8,
                        w & (1u64 << s) != 0,
                        (crate::move_gen::spec_white_quiets(1u64 << s, w | b) | (
                        crate::move_gen::spec_white_attacks(1u64 << s) & b)) & (1u64 << d) != 0,
                ;
            },
            Color::Black => {
                assert({
                    let b2 = b ^ ((1u64 << s) | (1u64 << d));
                    b2 < b
                }) by (bit_vector)
                    requires
                        s < 64u8,
                        d < 64u8,
                        b & (1u64 << s) != 0,
                        (crate::move_gen::spec_black_quiets(1u64 << s, w | b) | (
                        crate::move_gen::spec_black_attacks(1u64 << s) & w)) & (1u64 << d) != 0,
                ;
            },
        }
    }
}

/// Every conceivable source and destination pair, in source-major order.
pub struct AllMoves;

impl AllMoves {
    /// The number of conceivable moves.
    pub fn count(&self) -> (r: usize)
        ensures
            r == 4096,
    {
        4096
    }

    /// The `i`-th conceivable move: source square `i / 64`, destination
    /// square `i % 64`.
    pub fn get(&self, i: usize) -> (r: Move)
        requires
            i < 4096,
        ensures
            r.spec_src() == i / 64,
            r.spec_dest() == i % 64,
    {
        Move::new((i / 64) as u8, (i % 64) as u8)
    }
}

} // verus!
