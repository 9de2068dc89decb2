//! The game abstraction the search engine is written against: an immutable
//! position value that can list its legal moves, apply a move to produce a
//! new position, report a terminal outcome and name the player to act.

use vstd::prelude::*;
use crate::wdl::Outcome;
use crate::wdl::Player;

verus! {

/// A game position, as the search engine consumes it. A position that is not
/// terminal must offer at least one move.
pub trait Position<M: Copy>: Sized {
    /// The legal moves of the player to act, in the game's own stable order.
    spec fn spec_moves(&self) -> Seq<M>;

    /// The terminal outcome, if the game is over in this position.
    spec fn spec_outcome(&self) -> Option<Outcome>;

    /// The player to act.
    spec fn spec_player(&self) -> Player;

    /// The position after playing `m`.
    spec fn spec_play(&self, m: M) -> Self;

    /// List the legal moves.
    fn moves(&self) -> (r: Vec<M>)
        ensures
            r@ == self.spec_moves(),
    ;

    /// Query the terminal outcome.
    fn outcome(&self) -> (r: Option<Outcome>)
        ensures
            r == self.spec_outcome(),
    ;

    /// The player to act.
    fn next_player(&self) -> (r: Player)
        ensures
            r == self.spec_player(),
    ;

    /// Play `m` on a copy of this position; the receiver is untouched.
    fn clone_and_play(&self, m: M) -> (r: Self)
        ensures
            r == self.spec_play(m),
    ;

    /// An equal copy of this position.
    fn dup(&self) -> (r: Self)
        ensures
            r == *self,
    ;

    /// A position without a terminal outcome offers at least one move.
    proof fn moves_when_not_done(&self)
        ensures
            self.spec_outcome() is None ==> self.spec_moves().len() > 0,
    ;

    /// A well-founded measure of how much game is left to play.
    spec fn spec_measure(&self) -> nat;

    /// Playing any legal move strictly shrinks the measure, so every line
    /// of play is finite.
    proof fn playing_decreases(&self, m: M)
        requires
            self.spec_moves().contains(m),
        ensures
            self.spec_play(m).spec_measure() < self.spec_measure(),
    ;
}

/// The position reached from `b` by playing the moves of `ms` in order.
pub open spec fn spec_play_seq<M: Copy, B: Position<M>>(b: B, ms: Seq<M>) -> B
    decreases ms.len(),
{
    if ms.len() == 0 {
        b
    } else {
        spec_play_seq(b.spec_play(ms[0]), ms.drop_first())
    }
}

/// `ms` is a line of play from `b`: each move is legal in the position the
/// moves before it produced, and no move is played in a finished position.
pub open spec fn legal_line<M: Copy, B: Position<M>>(b: B, ms: Seq<M>) -> bool
    decreases ms.len(),
{
    ms.len() == 0 || (b.spec_outcome() is None && b.spec_moves().contains(ms[0]) && legal_line(
        b.spec_play(ms[0]),
        ms.drop_first(),
    ))
}

/// Appending one move to a line of play plays it in the line's last position.
pub proof fn lemma_play_seq_push<M: Copy, B: Position<M>>(b: B, ms: Seq<M>, m: M)
    ensures
        spec_play_seq(b, ms.push(m)) == spec_play_seq(b, ms).spec_play(m),
    decreases ms.len(),
{
    assert(spec_play_seq(b, ms.push(m)) == spec_play_seq(
        b.spec_play(ms.push(m)[0]),
        ms.push(m).drop_first(),
    ));
    if ms.len() == 0 {
        assert(ms.push(m)[0] == m);
        assert(ms.push(m).drop_first() =~= Seq::<M>::empty());
        assert(spec_play_seq(b.spec_play(m), Seq::<M>::empty()) == b.spec_play(m));
        assert(spec_play_seq(b, ms) == b);
    } else {
        assert(ms.push(m)[0] == ms[0]);
        assert(ms.push(m).drop_first() =~= ms.drop_first().push(m));
        lemma_play_seq_push(b.spec_play(ms[0]), ms.drop_first(), m);
        assert(spec_play_seq(b, ms) == spec_play_seq(b.spec_play(ms[0]), ms.drop_first()));
    }
}

/// A line of play extended by a move that is legal in its last position is
/// again a line of play.
pub proof fn lemma_legal_line_push<M: Copy, B: Position<M>>(b: B, ms: Seq<M>, m: M)
    requires
        legal_line(b, ms),
        spec_play_seq(b, ms).spec_outcome() is None,
        spec_play_seq(b, ms).spec_moves().contains(m),
    ensures
        legal_line(b, ms.push(m)),
    decreases ms.len(),
{
    if ms.len() == 0 {
        assert(ms.push(m)[0] == m);
        assert(ms.push(m).drop_first() =~= Seq::<M>::empty());
        assert(spec_play_seq(b, ms) == b);
        assert(legal_line(b.spec_play(m), Seq::<M>::empty()));
        assert(legal_line(b, ms.push(m)));
    } else {
        assert(ms.push(m)[0] == ms[0]);
        assert(ms.push(m).drop_first() =~= ms.drop_first().push(m));
        assert(legal_line(b.spec_play(ms[0]), ms.drop_first()));
        assert(spec_play_seq(b, ms) == spec_play_seq(b.spec_play(ms[0]), ms.drop_first()));
        lemma_legal_line_push(b.spec_play(ms[0]), ms.drop_first(), m);
        assert(legal_line(b, ms.push(m)));
    }
}

} // verus!
