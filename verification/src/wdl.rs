//! Outcomes of a game, absolute and from one player's point of view, and the
//! win/draw/loss visit accumulator that the search tree keeps per node.

use vstd::prelude::*;

verus! {

/// One of the two players of an alternating two-player game.
/// In the pawn game, `A` is White (the first player) and `B` is Black.
#[derive(Clone, Copy, PartialEq, Eq, Structural, Debug)]
pub enum Player {
    A,
    B,
}

impl Player {
    /// The opponent of this player.
    pub open spec fn spec_other(self) -> Player {
        match self {
            Player::A => Player::B,
            Player::B => Player::A,
        }
    }

    #[verifier::when_used_as_spec(spec_other)]
    pub fn other(self) -> (r: Player)
        ensures
            r == self.spec_other(),
    {
        match self {
            Player::A => Player::B,
            Player::B => Player::A,
        }
    }
}

/// The absolute outcome of a finished game.
#[derive(Clone, Copy, PartialEq, Eq, Structural, Debug)]
pub enum Outcome {
    WonBy(Player),
    Draw,
}

impl Outcome {
    /// This outcome seen from the point of view of `pov`.
    pub open spec fn spec_pov(self, pov: Player) -> OutcomeWDL {
        match self {
            Outcome::WonBy(p) => if p == pov {
                OutcomeWDL::Win
            } else {
                OutcomeWDL::Loss
            },
            Outcome::Draw => OutcomeWDL::Draw,
        }
    }

    #[verifier::when_used_as_spec(spec_pov)]
    pub fn pov(self, pov: Player) -> (r: OutcomeWDL)
        ensures
            r == self.spec_pov(pov),
    {
        match self {
            Outcome::WonBy(p) => if p == pov {
                OutcomeWDL::Win
            } else {
                OutcomeWDL::Loss
            },
            Outcome::Draw => OutcomeWDL::Draw,
        }
    }
}

/// An outcome from the point of view of a fixed player.
#[derive(Clone, Copy, PartialEq, Eq, Structural, Debug)]
pub enum OutcomeWDL {
    Win,
    Draw,
    Loss,
}

impl OutcomeWDL {
    /// The same outcome from the opponent's point of view.
    pub open spec fn spec_flip(self) -> OutcomeWDL {
        match self {
            OutcomeWDL::Win => OutcomeWDL::Loss,
            OutcomeWDL::Draw => OutcomeWDL::Draw,
            OutcomeWDL::Loss => OutcomeWDL::Win,
        }
    }

    #[verifier::when_used_as_spec(spec_flip)]
    pub fn flip(self) -> (r: OutcomeWDL)
        ensures
            r == self.spec_flip(),
    {
        match self {
            OutcomeWDL::Win => OutcomeWDL::Loss,
            OutcomeWDL::Draw => OutcomeWDL::Draw,
            OutcomeWDL::Loss => OutcomeWDL::Win,
        }
    }

    /// Win counts as `1`, a draw as `0` and a loss as `-1`.
    pub open spec fn spec_sign(self) -> i64 {
        match self {
            OutcomeWDL::Win => 1i64,
            OutcomeWDL::Draw => 0i64,
            OutcomeWDL::Loss => -1i64,
        }
    }

    #[verifier::when_used_as_spec(spec_sign)]
    pub fn sign(self) -> (r: i64)
        ensures
            r == self.spec_sign(),
    {
        match self {
            OutcomeWDL::Win => 1,
            OutcomeWDL::Draw => 0,
            OutcomeWDL::Loss => -1,
        }
    }

    /// One visit with this outcome, as a win/draw/loss accumulator.
    pub open spec fn spec_to_wdl(self) -> WDL {
        match self {
            OutcomeWDL::Win => WDL { win: 1, draw: 0, loss: 0 },
            OutcomeWDL::Draw => WDL { win: 0, draw: 1, loss: 0 },
            OutcomeWDL::Loss => WDL { win: 0, draw: 0, loss: 1 },
        }
    }

    #[verifier::when_used_as_spec(spec_to_wdl)]
    pub fn to_wdl(self) -> (r: WDL)
        ensures
            r == self.spec_to_wdl(),
    {
        match self {
            OutcomeWDL::Win => WDL { win: 1, draw: 0, loss: 0 },
            OutcomeWDL::Draw => WDL { win: 0, draw: 1, loss: 0 },
            OutcomeWDL::Loss => WDL { win: 0, draw: 0, loss: 1 },
        }
    }

    /// The exact minimax solving rule over partially known children.
    ///
    /// `xs` holds the known outcomes of a node's children, already expressed
    /// from the point of view of the player choosing among them. The result:
    /// a win if any child is a known win; undetermined if no win is known but
    /// some child is unknown; otherwise a draw if any child draws, and a loss
    /// only when every child is a known loss.
    pub open spec fn spec_best_of(xs: Seq<Option<OutcomeWDL>>) -> Option<OutcomeWDL> {
        if exists|i: int| 0 <= i < xs.len() && xs[i] == Some(OutcomeWDL::Win) {
            Some(OutcomeWDL::Win)
        } else if exists|i: int| 0 <= i < xs.len() && xs[i] is None {
            None
        } else if exists|i: int| 0 <= i < xs.len() && xs[i] == Some(OutcomeWDL::Draw) {
            Some(OutcomeWDL::Draw)
        } else {
            Some(OutcomeWDL::Loss)
        }
    }

    /// Pick the best outcome the choosing player can guarantee, given the
    /// children's known outcomes from that player's own point of view.
    pub fn best_of(xs: &Vec<Option<OutcomeWDL>>) -> (r: Option<OutcomeWDL>)
        ensures
            r == Self::spec_best_of(xs@),
    {
        let mut any_unknown = false;
        let mut any_draw = false;
        let mut k: usize = 0;
        while k < xs.len()
            invariant
                0 <= k <= xs@.len(),
                forall|i: int| 0 <= i < k ==> xs@[i] != Some(OutcomeWDL::Win),
                any_unknown == exists|i: int| 0 <= i < k && xs@[i] is None,
                any_draw == exists|i: int| 0 <= i < k && xs@[i] == Some(OutcomeWDL::Draw),
            decreases xs@.len() - k,
        {
            match xs[k] {
                Some(OutcomeWDL::Win) => {
                    assert(xs@[k as int] == Some(OutcomeWDL::Win));
                    return Some(OutcomeWDL::Win);
                },
                Some(OutcomeWDL::Draw) => {
                    any_draw = true;
                },
                Some(OutcomeWDL::Loss) => {},
                None => {
                    any_unknown = true;
                },
            }
            k = k + 1;
        }
        if any_unknown {
            None
        } else if any_draw {
            Some(OutcomeWDL::Draw)
        } else {
            Some(OutcomeWDL::Loss)
        }
    }
}

/// Three non-negative counters of visits that ended in a win, a draw and a
/// loss, always from the point of view of one fixed player.
#[derive(Clone, Copy, PartialEq, Eq, Structural, Debug, Default)]
pub struct WDL {
    pub win: u64,
    pub draw: u64,
    pub loss: u64,
}

impl WDL {
    pub fn new(win: u64, draw: u64, loss: u64) -> (r: WDL)
        ensures
            r == (WDL { win, draw, loss }),
    {
        WDL { win, draw, loss }
    }

    /// The total number of visits counted.
    pub open spec fn spec_sum(self) -> int {
        self.win + self.draw + self.loss
    }

    pub fn sum(self) -> (r: u64)
        requires
            self.spec_sum() <= u64::MAX,
        ensures
            r == self.spec_sum(),
    {
        self.win + self.draw + self.loss
    }

    /// Componentwise addition of two accumulators.
    pub fn add(self, rhs: WDL) -> (r: WDL)
        requires
            self.win + rhs.win <= u64::MAX,
            self.draw + rhs.draw <= u64::MAX,
            self.loss + rhs.loss <= u64::MAX,
        ensures
            r.win == self.win + rhs.win,
            r.draw == self.draw + rhs.draw,
            r.loss == self.loss + rhs.loss,
    {
        WDL { win: self.win + rhs.win, draw: self.draw + rhs.draw, loss: self.loss + rhs.loss }
    }

    /// The same counts from the opponent's point of view: wins and losses
    /// trade places, draws stay.
    pub open spec fn spec_flip(self) -> WDL {
        WDL { win: self.loss, draw: self.draw, loss: self.win }
    }

    #[verifier::when_used_as_spec(spec_flip)]
    pub fn flip(self) -> (r: WDL)
        ensures
            r == self.spec_flip(),
    {
        WDL { win: self.loss, draw: self.draw, loss: self.win }
    }

    /// Wins minus losses: the signed score of the counted visits.
    pub open spec fn spec_value(self) -> int {
        self.win - self.loss
    }
}

/// Flipping a point-of-view outcome twice gives back the original outcome.
pub proof fn lemma_outcome_flip_involution(o: OutcomeWDL)
    ensures
        o.spec_flip().spec_flip() == o,
{
}

/// Flipping a win/draw/loss accumulator twice gives back the original counts.
pub proof fn lemma_wdl_flip_involution(w: WDL)
    ensures
        w.spec_flip().spec_flip() == w,
{
}

/// Taking the opponent's point of view of an absolute outcome is the same as
/// flipping one's own point of view of it: one ply of perspective correction.
pub proof fn lemma_pov_other_is_flip(o: Outcome, p: Player)
    ensures
        o.spec_pov(p.spec_other()) == o.spec_pov(p).spec_flip(),
{
}

} // verus!
