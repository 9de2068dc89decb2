//! The search tree: a flat arena of nodes addressed by index, the root at
//! index zero. A node holds the move that led to it, a visit counter, the
//! contiguous index range of its children once it has been expanded, and its
//! status: a win/draw/loss estimate while the subtree's true outcome is
//! unknown, or the proven outcome once it is solved. All per-node outcomes
//! and counts are stored from the point of view of the player to act at that
//! node.

use vstd::prelude::*;
use crate::wdl::OutcomeWDL;
use crate::wdl::WDL;

verus! {

/// A contiguous range of child indices in the arena.
#[derive(Clone, Copy, PartialEq, Eq, Structural, Debug)]
pub struct IdxRange {
    /// The first child's index.
    pub start: usize,
    /// The number of children.
    pub length: usize,
}

/// What the search knows of a node's subtree: a running estimate, or the
/// exactly solved outcome.
#[derive(Clone, Copy, PartialEq, Eq, Structural, Debug)]
pub enum SNodeKind {
    /// Accumulated playout results while the outcome is unknown.
    Estimate(WDL),
    /// The proven outcome of the subtree.
    Solved(OutcomeWDL),
}

/// One vertex of the search tree.
#[derive(Clone, Copy, Debug)]
pub struct Node<M> {
    /// The move that produced this position; absent only for the root.
    pub last_move: Option<M>,
    /// How many times this node's value has been updated.
    pub visits: u64,
    /// The children's index range, set exactly once at expansion.
    pub children: Option<IdxRange>,
    /// The node's estimate or solved outcome.
    pub kind: SNodeKind,
}

impl<M> Node<M> {
    /// The solved outcome, if any.
    pub open spec fn spec_solution(&self) -> Option<OutcomeWDL> {
        match self.kind {
            SNodeKind::Estimate(_) => None,
            SNodeKind::Solved(o) => Some(o),
        }
    }

    /// Whether no playout result has been recorded here yet.
    pub open spec fn spec_is_unvisited(&self) -> bool {
        match self.kind {
            SNodeKind::Estimate(w) => w.spec_sum() == 0,
            SNodeKind::Solved(_) => false,
        }
    }
}

impl<M: Copy> Node<M> {
    /// Create the node for a freshly expanded position: pre-solved when the
    /// position is terminal (`outcome` from the point of view of the player
    /// to act there), an empty estimate otherwise.
    pub fn new_node(last_move: Option<M>, outcome: Option<OutcomeWDL>) -> (r: Node<M>)
        ensures
            r.last_move == last_move,
            r.visits == 0,
            r.children is None,
            r.kind == match outcome {
                None => SNodeKind::Estimate(WDL { win: 0, draw: 0, loss: 0 }),
                Some(o) => SNodeKind::Solved(o),
            },
    {
        let kind = match outcome {
            None => SNodeKind::Estimate(WDL::new(0, 0, 0)),
            Some(o) => SNodeKind::Solved(o),
        };
        Node { last_move, visits: 0, children: None, kind }
    }

    /// The solved outcome, if this node is solved.
    pub fn solution(&self) -> (r: Option<OutcomeWDL>)
        ensures
            r == self.spec_solution(),
    {
        match self.kind {
            SNodeKind::Estimate(_) => None,
            SNodeKind::Solved(o) => Some(o),
        }
    }

    /// Whether no playout result has been recorded here yet. A solved node
    /// never counts as unvisited.
    pub fn is_unvisited(&self) -> (r: bool)
        ensures
            r == self.spec_is_unvisited(),
    {
        match self.kind {
            SNodeKind::Estimate(w) => w.win == 0 && w.draw == 0 && w.loss == 0,
            SNodeKind::Solved(_) => false,
        }
    }

    /// This node, one recorded visit richer.
    pub fn incremented(self, outcome: OutcomeWDL) -> (r: Node<M>)
        requires
            self.kind is Estimate,
            self.visits < u64::MAX,
            self.kind matches SNodeKind::Estimate(w) ==> w.spec_sum() < u64::MAX,
        ensures
            r.last_move == self.last_move,
            r.children == self.children,
            r.visits == self.visits + 1,
            r.kind == match self.kind {
                SNodeKind::Estimate(w) => SNodeKind::Estimate(
                    WDL {
                        win: (w.win + if outcome is Win {
                            1u64
                        } else {
                            0u64
                        }) as u64,
                        draw: (w.draw + if outcome is Draw {
                            1u64
                        } else {
                            0u64
                        }) as u64,
                        loss: (w.loss + if outcome is Loss {
                            1u64
                        } else {
                            0u64
                        }) as u64,
                    },
                ),
                SNodeKind::Solved(o) => SNodeKind::Solved(o),
            },
    {
        let w = match self.kind {
            SNodeKind::Estimate(w) => w,
            SNodeKind::Solved(_) => WDL::new(0, 0, 0),
        };
        let kind = SNodeKind::Estimate(w.add(outcome.to_wdl()));
        Node { visits: self.visits + 1, kind, ..self }
    }

    /// This node, marked as exactly solved. Marking counts as a visit.
    pub fn solved(self, outcome: OutcomeWDL) -> (r: Node<M>)
        requires
            self.kind is Estimate,
            self.visits < u64::MAX,
        ensures
            r.last_move == self.last_move,
            r.children == self.children,
            r.visits == self.visits + 1,
            r.kind == SNodeKind::Solved(outcome),
    {
        Node { visits: self.visits + 1, kind: SNodeKind::Solved(outcome), ..self }
    }
}

/// A search tree: the root position and the arena of nodes, the root node at
/// index zero.
pub struct Tree<B, M> {
    /// The position the search started from.
    pub root_board: B,
    /// The arena of nodes.
    pub nodes: Vec<Node<M>>,
}

/// A valid child range of node `i` in an arena of `n` nodes: the children
/// sit strictly after their parent and inside the arena.
pub open spec fn wf_range(r: IdxRange, i: int, n: int) -> bool {
    i < r.start && r.start + r.length <= n
}

/// The structural well-formedness of the arena: a root without an incoming
/// move, an incoming move everywhere else, valid child ranges, and estimate
/// counters that sum to the node's visits.
pub open spec fn tree_structure<M>(nodes: Seq<Node<M>>) -> bool {
    &&& nodes.len() >= 1
    &&& nodes[0].last_move is None
    &&& forall|i: int|
        0 < i < nodes.len() ==> (#[trigger] nodes[i]).last_move is Some
    &&& forall|i: int|
        0 <= i < nodes.len() ==> ((#[trigger] nodes[i]).children matches Some(r) ==> wf_range(
            r,
            i,
            nodes.len() as int,
        ))
    &&& forall|i: int|
        0 <= i < nodes.len() ==> ((#[trigger] nodes[i]).kind matches SNodeKind::Estimate(w)
            ==> w.spec_sum() == nodes[i].visits)
    &&& forall|i: int|
        0 <= i < nodes.len() && (#[trigger] nodes[i]).kind is Estimate && nodes[i].children is Some
            ==> nodes[i].children.unwrap().length >= 1
    &&& ranges_disjoint_all(nodes)
}

/// Child ranges of distinct nodes never share an index: every node has at
/// most one parent.
#[verifier::opaque]
pub open spec fn ranges_disjoint_all<M>(nodes: Seq<Node<M>>) -> bool {
    forall|i1: int, i2: int|
        0 <= i1 < nodes.len() && 0 <= i2 < nodes.len() && i1 != i2 && (#[trigger] nodes[i1]).children is Some
            && (#[trigger] nodes[i2]).children is Some ==> ranges_disjoint(
            nodes[i1].children.unwrap(),
            nodes[i2].children.unwrap(),
        )
}

/// Two child ranges that share no index.
pub open spec fn ranges_disjoint(r1: IdxRange, r2: IdxRange) -> bool {
    r1.start + r1.length <= r2.start || r2.start + r2.length <= r1.start
}

/// Every visit counter is bounded by the number of search steps taken.
pub open spec fn visit_bounds<M>(nodes: Seq<Node<M>>, steps: nat) -> bool {
    forall|i: int| 0 <= i < nodes.len() ==> (#[trigger] nodes[i]).visits <= steps
}

/// The sum of the visit counters of `len` nodes from `start` on.
pub open spec fn sum_child_visits<M>(nodes: Seq<Node<M>>, start: int, len: nat) -> int
    decreases len,
{
    if len == 0 {
        0
    } else {
        nodes[start].visits + sum_child_visits(nodes, start + 1, (len - 1) as nat)
    }
}

/// At every expanded node that is still an estimate, the children's visits
/// together never exceed the parent's.
#[verifier::opaque]
pub open spec fn child_sums_ok<M>(nodes: Seq<Node<M>>) -> bool {
    forall|i: int|
        0 <= i < nodes.len() ==> ((#[trigger] nodes[i]).kind is Estimate
            ==> (nodes[i].children matches Some(r) ==> sum_child_visits(nodes, r.start as int, r.length as nat)
            <= nodes[i].visits))
}

/// How one search step may change the arena: nodes are only appended, moves
/// and assigned child ranges never change, solved nodes stay solved with the
/// same outcome, and visit counters never decrease.
pub open spec fn nodes_grow<M>(a: Seq<Node<M>>, b: Seq<Node<M>>) -> bool {
    &&& b.len() >= a.len()
    &&& forall|i: int|
        0 <= i < a.len() ==> (#[trigger] b[i]).last_move == a[i].last_move
    &&& forall|i: int|
        0 <= i < a.len() ==> ((#[trigger] a[i]).children is Some ==> b[i].children
            == a[i].children)
    &&& forall|i: int|
        0 <= i < a.len() ==> ((#[trigger] a[i]).kind is Solved ==> b[i].kind == a[i].kind)
    &&& forall|i: int| 0 <= i < a.len() ==> (#[trigger] b[i]).visits >= a[i].visits
}

/// Once solved, always solved: across any growth of the arena — and every
/// search step only grows it — a solved node keeps its status and outcome,
/// and so does its recorded solution.
pub proof fn lemma_solved_stays_solved<M>(a: Seq<Node<M>>, b: Seq<Node<M>>, i: int)
    requires
        nodes_grow(a, b),
        0 <= i < a.len(),
        a[i].kind is Solved,
    ensures
        b[i].kind == a[i].kind,
        b[i].spec_solution() == a[i].spec_solution(),
{
}

/// Growing is reflexive and composes.
pub proof fn lemma_nodes_grow_trans<M>(a: Seq<Node<M>>, b: Seq<Node<M>>, c: Seq<Node<M>>)
    requires
        nodes_grow(a, b),
        nodes_grow(b, c),
    ensures
        nodes_grow(a, c),
{
}

/// Two arenas that agree on the visit counters of a range have the same sum
/// over that range.
pub proof fn lemma_sum_congruent<M>(a: Seq<Node<M>>, b: Seq<Node<M>>, start: int, len: nat)
    requires
        forall|k: int| start <= k < start + len ==> (#[trigger] b[k]).visits == a[k].visits,
    ensures
        sum_child_visits(b, start, len) == sum_child_visits(a, start, len),
    decreases len,
{
    if len > 0 {
        lemma_sum_congruent(a, b, start + 1, (len - 1) as nat);
    }
}

/// Bumping one node of a range by one bumps the range's sum by one.
pub proof fn lemma_sum_bump<M>(a: Seq<Node<M>>, b: Seq<Node<M>>, start: int, len: nat, idx: int)
    requires
        start <= idx < start + len,
        b[idx].visits == a[idx].visits + 1,
        forall|k: int|
            start <= k < start + len && k != idx ==> (#[trigger] b[k]).visits == a[k].visits,
    ensures
        sum_child_visits(b, start, len) == sum_child_visits(a, start, len) + 1,
    decreases len,
{
    if idx == start {
        lemma_sum_congruent(a, b, start + 1, (len - 1) as nat);
    } else {
        lemma_sum_bump(a, b, start + 1, (len - 1) as nat, idx);
    }
}

/// A range of nodes with zero visits sums to zero.
pub proof fn lemma_sum_zero<M>(nodes: Seq<Node<M>>, start: int, len: nat)
    requires
        forall|k: int| start <= k < start + len ==> (#[trigger] nodes[k]).visits == 0,
    ensures
        sum_child_visits(nodes, start, len) == 0,
    decreases len,
{
    if len > 0 {
        lemma_sum_zero(nodes, start + 1, (len - 1) as nat);
    }
}

/// A sum of visit counters is never negative.
pub proof fn lemma_sum_nonneg<M>(nodes: Seq<Node<M>>, start: int, len: nat)
    ensures
        sum_child_visits(nodes, start, len) >= 0,
    decreases len,
{
    if len > 0 {
        lemma_sum_nonneg(nodes, start + 1, (len - 1) as nat);
    }
}

/// The index of the first child in the range whose solution, seen from the
/// choosing player's side, is a proven win; the range's end if there is none.
pub open spec fn spec_win_child<M>(nodes: Seq<Node<M>>, start: int, len: nat) -> int
    decreases len,
{
    if len == 0 {
        start
    } else if nodes[start].spec_solution() == Some(OutcomeWDL::Loss) {
        start
    } else {
        spec_win_child(nodes, start + 1, (len - 1) as nat)
    }
}

/// The index of the first child of the range with the highest visit count.
pub open spec fn spec_most_visited<M>(nodes: Seq<Node<M>>, start: int, len: nat) -> int
    decreases len,
{
    if len <= 1 {
        start
    } else {
        let rest = spec_most_visited(nodes, start + 1, (len - 1) as nat);
        if nodes[rest].visits > nodes[start].visits {
            rest
        } else {
            start
        }
    }
}

/// The child of the root that the finished search recommends: a child whose
/// outcome is a proven win for the root player if one exists (its own stored
/// outcome, being the opponent's, reads as a loss), otherwise the first child
/// with the most visits.
pub open spec fn spec_best_child<M>(nodes: Seq<Node<M>>, r: IdxRange) -> int {
    let w = spec_win_child(nodes, r.start as int, r.length as nat);
    if w < r.start + r.length {
        w
    } else {
        spec_most_visited(nodes, r.start as int, r.length as nat)
    }
}

/// When some child of the range is recorded as a proven loss for its own
/// mover, the win-child scan finds one: its result lies in the range and is
/// such a child.
pub proof fn lemma_win_child_found<M>(nodes: Seq<Node<M>>, start: int, len: nat)
    requires
        exists|t: int|
            0 <= t < len && (#[trigger] nodes[start + t]).spec_solution() == Some(OutcomeWDL::Loss),
    ensures
        start <= spec_win_child(nodes, start, len) < start + len,
        nodes[spec_win_child(nodes, start, len)].spec_solution() == Some(OutcomeWDL::Loss),
    decreases len,
{
    if nodes[start].spec_solution() == Some(OutcomeWDL::Loss) {
        assert(spec_win_child(nodes, start, len) == start);
    } else {
        let t = choose|t: int|
            0 <= t < len && (#[trigger] nodes[start + t]).spec_solution() == Some(OutcomeWDL::Loss);
        assert(t >= 1);
        assert(nodes[(start + 1) + (t - 1)].spec_solution() == Some(OutcomeWDL::Loss));
        lemma_win_child_found(nodes, start + 1, (len - 1) as nat);
    }
}

proof fn lemma_win_child_range<M>(nodes: Seq<Node<M>>, start: int, len: nat)
    ensures
        start <= spec_win_child(nodes, start, len) <= start + len,
    decreases len,
{
    if len > 0 && nodes[start].spec_solution() != Some(OutcomeWDL::Loss) {
        lemma_win_child_range(nodes, start + 1, (len - 1) as nat);
    }
}

proof fn lemma_most_visited_range<M>(nodes: Seq<Node<M>>, start: int, len: nat)
    requires
        len >= 1,
    ensures
        start <= spec_most_visited(nodes, start, len) < start + len,
    decreases len,
{
    if len > 1 {
        lemma_most_visited_range(nodes, start + 1, (len - 1) as nat);
    }
}

impl<B, M: Copy> Tree<B, M> {
    /// An empty tree over the given root position.
    pub fn new(root_board: B) -> (t: Tree<B, M>)
        ensures
            t.root_board == root_board,
            t.nodes@ =~= Seq::<Node<M>>::empty(),
    {
        Tree { root_board, nodes: Vec::new() }
    }

    /// The index of the root's best child (see [`spec_best_child`]).
    pub fn best_child(&self) -> (r: usize)
        requires
            tree_structure(self.nodes@),
            self.nodes@[0].children is Some,
            self.nodes@[0].children matches Some(c) ==> c.length >= 1,
        ensures
            r == spec_best_child(self.nodes@, self.nodes@[0].children.unwrap()),
            self.nodes@[0].children matches Some(c) ==> c.start <= r < c.start + c.length,
    {
        let c = match self.nodes[0].children {
            Some(c) => c,
            None => IdxRange { start: 1, length: 0 },
        };
        let ghost ns = self.nodes@;
        let n = self.nodes.len();
        proof {
            lemma_win_child_range(ns, c.start as int, c.length as nat);
        }
        // look for a child that is a proven win for the root player
        let mut k: usize = 0;
        while k < c.length
            invariant
                tree_structure(ns),
                ns == self.nodes@,
                ns[0].children == Some(c),
                wf_range(c, 0, ns.len() as int),
                n == ns.len(),
                c.length >= 1,
                k <= c.length,
                spec_win_child(ns, c.start as int, c.length as nat) == spec_win_child(
                    ns,
                    c.start + k,
                    (c.length - k) as nat,
                ),
            decreases c.length - k,
        {
            let child = c.start + k;
            let sol = self.nodes[child].solution();
            match sol {
                Some(OutcomeWDL::Loss) => {
                    proof {
                        assert(spec_win_child(ns, child as int, (c.length - k) as nat)
                            == child as int);
                    }
                    return child;
                },
                _ => {
                    proof {
                        assert(ns[child as int].spec_solution() != Some(OutcomeWDL::Loss));
                        assert(spec_win_child(ns, child as int, (c.length - k) as nat)
                            == spec_win_child(ns, child + 1, (c.length - k - 1) as nat));
                    }
                },
            }
            k = k + 1;
        }
        proof {
            assert(spec_win_child(ns, c.start + c.length, 0nat) == c.start + c.length);
        }
        // otherwise the first child with the most visits
        let mut best: usize = c.start;
        let mut k: usize = 1;
        while k < c.length
            invariant
                tree_structure(ns),
                ns == self.nodes@,
                ns[0].children == Some(c),
                wf_range(c, 0, ns.len() as int),
                n == ns.len(),
                c.length >= 1,
                1 <= k <= c.length,
                c.start <= best < c.start + k,
                best == spec_most_visited(ns, c.start as int, k as nat),
            decreases c.length - k,
        {
            proof {
                lemma_most_visited_extend(ns, c.start as int, k as nat);
            }
            let child = c.start + k;
            if self.nodes[child].visits > self.nodes[best].visits {
                best = child;
            }
            k = k + 1;
        }
        best
    }

    /// The move of the root's best child.
    pub fn best_move(&self) -> (r: M)
        requires
            tree_structure(self.nodes@),
            self.nodes@[0].children is Some,
            self.nodes@[0].children matches Some(c) ==> c.length >= 1,
        ensures
            self.nodes@[0].children matches Some(c) ==> Some(r) == self.nodes@[spec_best_child(
                self.nodes@,
                c,
            )].last_move,
    {
        let best = self.best_child();
        match self.nodes[best].last_move {
            Some(m) => m,
            None => {
                vstd::pervasive::unreached()
            },
        }
    }
}

/// Scanning one more child keeps the first-most-visited rule: the new best is
/// the old one unless the new child strictly beats it.
proof fn lemma_most_visited_extend<M>(nodes: Seq<Node<M>>, start: int, k: nat)
    requires
        k >= 1,
    ensures
        spec_most_visited(nodes, start, (k + 1) as nat) == if nodes[start + k].visits
            > nodes[spec_most_visited(nodes, start, k)].visits {
            start + k
        } else {
            spec_most_visited(nodes, start, k)
        },
    decreases k,
{
    if k == 1 {
        assert(spec_most_visited(nodes, start, 1nat) == start);
        assert(spec_most_visited(nodes, start + 1, 1nat) == start + 1);
    } else {
        lemma_most_visited_extend(nodes, start + 1, (k - 1) as nat);
    }
}

} // verus!
