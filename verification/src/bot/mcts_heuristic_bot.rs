//! The proven-outcome Monte Carlo tree search engine and its bot: repeated
//! search steps that select a path through the tree, expand a leaf, run a
//! random playout, backpropagate the result, and attempt exact win/draw/loss
//! solving at every level they touch. Scores are fixed-point integers with
//! sixteen fractional bits.

use vstd::prelude::*;
use vstd::arithmetic::power2::lemma2_to64;
use vstd::arithmetic::power2::pow2;
use crate::bot::heuristic::Heuristic;
use crate::position::Position;
use crate::position::legal_line;
use crate::position::lemma_legal_line_push;
use crate::position::lemma_play_seq_push;
use crate::position::spec_play_seq;
use crate::rng::rand_below;
use crate::tree::IdxRange;
use crate::tree::Node;
use crate::tree::SNodeKind;
use crate::tree::Tree;
use crate::tree::child_sums_ok;
use crate::tree::lemma_nodes_grow_trans;
use crate::tree::lemma_win_child_found;
use crate::tree::nodes_grow;
use crate::tree::spec_best_child;
use crate::tree::spec_win_child;
use crate::tree::sum_child_visits;
use crate::tree::tree_structure;
use crate::tree::visit_bounds;
use crate::tree::wf_range;
use crate::wdl::Outcome;
use crate::wdl::OutcomeWDL;
use crate::wdl::WDL;

verus! {

/// One in the fixed-point scale: sixteen fractional bits.
pub const FP_ONE: u64 = 65536;

/// The natural logarithm of two, in fixed point.
pub const LN2_FP: u64 = 45426;

/// The floor of the base-two logarithm, with zero mapped to zero.
pub open spec fn spec_ilog2(n: u64) -> nat
    decreases n,
{
    if n <= 1 {
        0
    } else {
        1 + spec_ilog2(n / 2)
    }
}

proof fn lemma_ilog2_below(n: u64, k: nat)
    requires
        k >= 1,
        n < pow2(k),
    ensures
        spec_ilog2(n) < k,
    decreases n,
{
    if n > 1 {
        assert(pow2(k) == 2 * pow2((k - 1) as nat)) by {
            vstd::arithmetic::power2::lemma_pow2_unfold(k);
        }
        if k == 1 {
            lemma2_to64();
        } else {
            lemma_ilog2_below(n / 2, (k - 1) as nat);
        }
    }
}

/// The base-two logarithm of a 64-bit value is below 64.
proof fn lemma_ilog2_bound(n: u64)
    ensures
        spec_ilog2(n) <= 63,
{
    lemma2_to64();
    lemma_ilog2_below(n, 64);
}

/// The floor of the base-two logarithm, with zero mapped to zero.
fn ilog2(n: u64) -> (r: u32)
    ensures
        r == spec_ilog2(n),
        r <= 63,
{
    proof {
        lemma_ilog2_bound(n);
    }
    let mut v = n;
    let mut r: u32 = 0;
    while v > 1
        invariant
            r + spec_ilog2(v) == spec_ilog2(n),
            spec_ilog2(n) <= 63,
        decreases v,
    {
        v = v / 2;
        r = r + 1;
    }
    r
}

/// The floor of the square root.
pub open spec fn spec_isqrt(n: nat) -> nat
    decreases n,
{
    if n == 0 {
        0
    } else {
        let r = spec_isqrt((n - 1) as nat);
        if (r + 1) * (r + 1) <= n {
            r + 1
        } else {
            r
        }
    }
}

/// The floor of the square root squares to at most its argument, and the
/// next integer up squares beyond it.
#[verifier::rlimit(50)]
proof fn lemma_isqrt_char(n: nat)
    ensures
        spec_isqrt(n) * spec_isqrt(n) <= n,
        n < (spec_isqrt(n) + 1) * (spec_isqrt(n) + 1),
    decreases n,
{
    let s = spec_isqrt(n);
    if n == 0 {
        assert(s == 0);
        assert(s * s <= n && n < s * s + 2 * s + 1) by (nonlinear_arith)
            requires
                s == 0,
                n == 0,
        ;
    } else {
        lemma_isqrt_char((n - 1) as nat);
        let r = spec_isqrt((n - 1) as nat);
        if (r + 1) * (r + 1) <= n {
            assert(s == r + 1);
            assert(s * s <= n && n < s * s + 2 * s + 1) by (nonlinear_arith)
                requires
                    s == r + 1,
                    (r + 1) * (r + 1) <= n,
                    n <= (r + 1) * (r + 1),
            ;
        } else {
            assert(s == r);
            assert(s * s <= n && n < s * s + 2 * s + 1) by (nonlinear_arith)
                requires
                    s == r,
                    r * r <= n - 1,
                    n < (r + 1) * (r + 1),
            ;
        }
    }
    assert(n < s * s + 2 * s + 1);
    assert(n < (s + 1) * (s + 1)) by (nonlinear_arith)
        requires
            n < s * s + 2 * s + 1,
    ;
}

proof fn lemma_isqrt_unique(n: nat, r: nat)
    requires
        r * r <= n,
        n < (r + 1) * (r + 1),
    ensures
        r == spec_isqrt(n),
{
    lemma_isqrt_char(n);
    let s = spec_isqrt(n);
    assert(r == s) by (nonlinear_arith)
        requires
            r * r <= n,
            n < (r + 1) * (r + 1),
            s * s <= n,
            n < (s + 1) * (s + 1),
    ;
}

/// The floor of the square root, by binary search.
fn isqrt(x: u64) -> (r: u64)
    ensures
        r == spec_isqrt(x as nat),
        r * r <= x < (r + 1) * (r + 1),
{
    let mut lo: u64 = 0;
    let mut hi: u64 = if x >= 0xFFFFFFFF {
        0xFFFFFFFF
    } else {
        x
    };
    proof {
        if x < 0xFFFFFFFF {
            assert((x + 1) * (x + 1) > x) by (nonlinear_arith);
        }
        assert((0xFFFFFFFFu64 + 1) * (0xFFFFFFFFu64 + 1) > u64::MAX) by (nonlinear_arith);
    }
    while lo < hi
        invariant
            lo <= hi,
            lo * lo <= x,
            x < (hi + 1) * (hi + 1),
            hi <= 0xFFFFFFFF,
        decreases hi - lo,
    {
        let mid = lo + (hi - lo + 1) / 2;
        proof {
            assert((mid as u128) * (mid as u128) <= 0xFFFFFFFFFFFFFFFF) by (nonlinear_arith)
                requires
                    mid <= 0xFFFFFFFFu64,
            ;
        }
        let m2 = (mid as u128) * (mid as u128);
        if m2 <= x as u128 {
            lo = mid;
        } else {
            hi = mid - 1;
        }
    }
    proof {
        lemma_isqrt_unique(x as nat, lo as nat);
    }
    lo
}

/// The largest heuristic magnitude an evaluator may report.
pub const HEURISTIC_MAX: i64 = 0x7FFFFFFF;

/// The largest accepted exploration weight: sixty-five thousand five hundred
/// and thirty-six whole units, in fixed point.
pub const EXPLORATION_MAX: u64 = 0x100000000;

/// The selection score of a child node, in fixed point, read from the side
/// of the player choosing among the children. An estimate node scores its
/// mean value for the chooser (the child stores counts from its own mover's
/// side, so the chooser's wins are its losses), plus the exploration bonus
/// `c * sqrt(ln(parent visits) / visits)`, plus the heuristic value of the
/// parent position decaying with the child's visits. A solved node scores
/// its outcome alone: one for a win, a half for a draw, zero for a loss.
pub open spec fn spec_uct(
    kind: SNodeKind,
    parent_visits: u64,
    exploration_fp: u64,
    heuristic_val: i64,
) -> int {
    match kind {
        SNodeKind::Estimate(w) => {
            let visits = w.spec_sum();
            let value_unit = (2 * w.loss + w.draw) * 32768 / visits;
            let ln_fp = spec_ilog2(parent_visits) * LN2_FP;
            let explore = spec_isqrt((ln_fp * FP_ONE / visits) as nat);
            let h_term: int = if heuristic_val >= 0 {
                heuristic_val * FP_ONE / (visits + 1)
            } else {
                -((-heuristic_val) * FP_ONE / (visits + 1))
            };
            value_unit + (exploration_fp as int) * (explore as int) / (FP_ONE as int) + h_term
        },
        SNodeKind::Solved(o) => (o.spec_flip().spec_sign() + 1) * 32768,
    }
}

/// Compute the fixed-point selection score of a child.
fn uct_heuristic<M>(
    node: &Node<M>,
    parent_visits: u64,
    exploration_weight: u64,
    heuristic_val: i64,
) -> (r: i64)
    requires
        node.kind matches SNodeKind::Estimate(w) ==> 1 <= w.spec_sum() <= u64::MAX,
        exploration_weight <= EXPLORATION_MAX,
        -HEURISTIC_MAX <= heuristic_val <= HEURISTIC_MAX,
    ensures
        r == spec_uct(node.kind, parent_visits, exploration_weight, heuristic_val),
{
    match node.kind {
        SNodeKind::Estimate(w) => {
            let visits = w.sum();
            let vu_num: u128 = 2 * (w.loss as u128) + (w.draw as u128);
            let value_unit: u128 = (vu_num * 32768) / (visits as u128);
            proof {
                assert(vu_num <= 2 * w.spec_sum());
                assert(vu_num * 32768 <= visits as u128 * 65536) by (nonlinear_arith)
                    requires
                        vu_num <= 2 * (visits as u128),
                ;
                vstd::arithmetic::div_mod::lemma_div_is_ordered(
                    (vu_num * 32768) as int,
                    (visits as u128 * 65536) as int,
                    visits as int,
                );
                assert((visits as int) * 65536 / (visits as int) == 65536) by (nonlinear_arith)
                    requires
                        visits >= 1,
                ;
            }
            let lg = ilog2(parent_visits);
            let ln_fp = (lg as u64) * LN2_FP;
            let t = ln_fp * FP_ONE / visits;
            let explore = isqrt(t);
            proof {
                assert(ln_fp * FP_ONE <= 0x2BC2_4000_0000) by (nonlinear_arith)
                    requires
                        ln_fp <= 63 * 45426,
                ;
                vstd::arithmetic::div_mod::lemma_div_is_ordered(
                    (ln_fp * FP_ONE) as int,
                    0x2BC2_4000_0000,
                    visits as int,
                );
                assert(explore <= 0x800000) by (nonlinear_arith)
                    requires
                        explore * explore <= t,
                        t <= 0x2BC2_4000_0000,
                ;
            }
            proof {
                assert((exploration_weight as u128) * (explore as u128) <= 0x80_0000_0000_0000)
                    by (nonlinear_arith)
                    requires
                        exploration_weight <= 0x1_0000_0000u64,
                        explore <= 0x800000u64,
                ;
            }
            let e_term = (exploration_weight as u128) * (explore as u128) / (FP_ONE as u128);
            proof {
                vstd::arithmetic::div_mod::lemma_div_is_ordered(
                    ((exploration_weight as u128) * (explore as u128)) as int,
                    0x80_0000_0000_0000,
                    FP_ONE as int,
                );
            }
            let h_term: i64 = if heuristic_val >= 0 {
                let q = (heuristic_val as u128) * (FP_ONE as u128) / (visits as u128 + 1);
                proof {
                    lemma_h_quot_bound(heuristic_val as u128, visits as u128);
                }
                q as i64
            } else {
                let q = ((-heuristic_val) as u128) * (FP_ONE as u128) / (visits as u128 + 1);
                proof {
                    lemma_h_quot_bound((-heuristic_val) as u128, visits as u128);
                }
                -(q as i64)
            };
            (value_unit as i64) + (e_term as i64) + h_term
        },
        SNodeKind::Solved(o) => (o.flip().sign() + 1) * 32768,
    }
}

/// A heuristic magnitude scaled to fixed point and decayed by visits stays
/// below sixty-four bits of headroom.
proof fn lemma_h_quot_bound(h: u128, visits: u128)
    requires
        h <= 0x7FFFFFFF,
    ensures
        h * 65536 / (visits + 1) <= 0x7FFF_FFFF_0000,
{
    assert(h * 65536 <= 0x7FFF_FFFF_0000) by (nonlinear_arith)
        requires
            h <= 0x7FFFFFFF,
    ;
    vstd::arithmetic::div_mod::lemma_div_is_ordered(
        (h * 65536) as int,
        0x7FFF_FFFF_0000,
        (visits + 1) as int,
    );
}

/// A solved child's outcome brought across one ply, to the parent's side.
pub open spec fn flip_solution(o: Option<OutcomeWDL>) -> Option<OutcomeWDL> {
    match o {
        None => None,
        Some(x) => Some(x.spec_flip()),
    }
}

/// The root's children line up one for one with the root position's moves.
pub open spec fn root_children_match<M>(nodes: Seq<Node<M>>, ms: Seq<M>) -> bool {
    match nodes[0].children {
        Some(c) => c.length == ms.len() && forall|k: int|
            0 <= k < ms.len() ==> (#[trigger] nodes[c.start + k]).last_move == Some(ms[k]),
        None => false,
    }
}

/// Node `c` lies in the child range of node `p`.
pub open spec fn in_children<M>(nodes: Seq<Node<M>>, p: int, c: int) -> bool {
    &&& nodes[p].children is Some
    &&& nodes[p].children.unwrap().start <= c
    &&& c < nodes[p].children.unwrap().start + nodes[p].children.unwrap().length
}

/// `path` descends from the root, each entry a child of the one before, and
/// `target` a child of the last entry; an empty path stands at the root.
pub open spec fn path_links<M>(nodes: Seq<Node<M>>, path: Seq<usize>, target: int) -> bool {
    &&& (path.len() == 0 ==> target == 0)
    &&& (path.len() > 0 ==> path[0] == 0)
    &&& forall|k: int| 0 <= k < path.len() ==> (#[trigger] path[k]) < nodes.len()
    &&& forall|k: int|
        0 <= k < path.len() ==> in_children(
            nodes,
            #[trigger] path[k] as int,
            if k == path.len() - 1 {
                target
            } else {
                path[k + 1] as int
            },
        )
}

/// The recorded solutions of the children of range `c`, each brought across
/// one ply to the parent's side.
pub open spec fn flipped_sols<M>(nodes: Seq<Node<M>>, c: IdxRange) -> Seq<Option<OutcomeWDL>> {
    Seq::new(c.length as nat, |k: int| flip_solution(nodes[c.start + k].spec_solution()))
}

/// Every solved node with a recorded child range owes its outcome to the
/// exact solving rule, applied to its children's solutions seen from its own
/// side. A node solved before expansion (a terminal position) has no child
/// range and carries its position's outcome instead.
#[verifier::opaque]
pub open spec fn solved_from_children<M>(nodes: Seq<Node<M>>) -> bool {
    forall|i: int|
        0 <= i < nodes.len() && (#[trigger] nodes[i]).kind is Solved && nodes[i].children is Some
            ==> nodes[i].spec_solution() == OutcomeWDL::spec_best_of(
            flipped_sols(nodes, nodes[i].children.unwrap()),
        )
}

/// The one-ply solving information of a position: for each legal move, the
/// immediate outcome of the position it reaches, from the moving player's own
/// side, or nothing when that position plays on.
pub open spec fn spec_one_ply_sols<M: Copy, B: Position<M>>(board: B) -> Seq<Option<OutcomeWDL>> {
    Seq::new(
        board.spec_moves().len(),
        |k: int| match board.spec_play(board.spec_moves()[k]).spec_outcome() {
            None => None,
            Some(o) => Some(o.spec_pov(board.spec_player())),
        },
    )
}

/// The children of range `c` line up one for one with `board`'s moves, and a
/// child whose position is terminal carries that position's outcome, from its
/// own mover's side, as its solved kind. Both facts are set when the node of
/// `board` is expanded, and no later step changes them.
#[verifier::opaque]
pub open spec fn children_match_board<M: Copy, B: Position<M>>(
    nodes: Seq<Node<M>>,
    c: IdxRange,
    board: B,
) -> bool {
    &&& c.length == board.spec_moves().len()
    &&& forall|k: int|
        0 <= k < c.length ==> ((#[trigger] nodes[c.start + k]).last_move == Some(
            board.spec_moves()[k],
        ) && (board.spec_play(board.spec_moves()[k]).spec_outcome() matches Some(o)
            ==> nodes[c.start + k].kind == SNodeKind::Solved(
            o.spec_pov(board.spec_player().spec_other()),
        )))
}

/// A child of range `c` is solved exactly when its position is terminal: the
/// state of the children at the moment their parent was expanded. It persists
/// only while no later step touches them, in particular when the parent
/// solved at its own expansion and the search stopped there.
#[verifier::opaque]
pub open spec fn children_solved_iff_terminal<M: Copy, B: Position<M>>(
    nodes: Seq<Node<M>>,
    c: IdxRange,
    board: B,
) -> bool {
    forall|k: int|
        0 <= k < c.length ==> ((#[trigger] nodes[c.start + k]).kind is Solved <==> board.spec_play(
            board.spec_moves()[k],
        ).spec_outcome() is Some)
}

/// Some child of the range has no recorded visit yet.
#[verifier::opaque]
pub open spec fn some_child_unvisited<M>(nodes: Seq<Node<M>>, c: IdxRange) -> bool {
    exists|t: int| 0 <= t < c.length && (#[trigger] nodes[c.start + t]).spec_is_unvisited()
}

/// No solved node counts node `t` among its children, so a change at `t`
/// leaves every solved node's recorded child solutions as they are.
pub open spec fn unparented_by_solved<M>(nodes: Seq<Node<M>>, t: int) -> bool {
    forall|i: int|
        0 <= i < nodes.len() && (#[trigger] nodes[i]).kind is Solved ==> !in_children(nodes, i, t)
}

/// A node reached from the root through estimate nodes only has no solved
/// parent: a parent is unique, and its is the path's last entry.
proof fn lemma_path_unparented<M>(nodes: Seq<Node<M>>, path: Seq<usize>, t: int)
    requires
        tree_structure(nodes),
        path_links(nodes, path, t),
        forall|k: int| 0 <= k < path.len() ==> nodes[#[trigger] path[k] as int].kind is Estimate,
        0 <= t < nodes.len(),
    ensures
        unparented_by_solved(nodes, t),
{
    reveal(crate::tree::ranges_disjoint_all);
    assert forall|i: int|
        0 <= i < nodes.len() && (#[trigger] nodes[i]).kind is Solved implies !in_children(
        nodes,
        i,
        t,
    ) by {
        if in_children(nodes, i, t) {
            if path.len() == 0 {
                assert(t == 0);
                assert(wf_range(nodes[i].children.unwrap(), i, nodes.len() as int));
            } else {
                let p = path[path.len() - 1] as int;
                assert(in_children(nodes, p, t));
                assert(nodes[p].kind is Estimate);
                assert(i != p);
                assert(crate::tree::ranges_disjoint(
                    nodes[i].children.unwrap(),
                    nodes[p].children.unwrap(),
                ));
            }
        }
    }
}

/// A path from the root links each prefix of itself to the entry after it.
proof fn lemma_prefix_links<M>(nodes: Seq<Node<M>>, path: Seq<usize>, target: int, j: int)
    requires
        path_links(nodes, path, target),
        0 <= j < path.len(),
    ensures
        path_links(nodes, path.take(j), path[j] as int),
{
    let p = path.take(j);
    assert forall|k: int| 0 <= k < p.len() implies in_children(
        nodes,
        #[trigger] p[k] as int,
        if k == p.len() - 1 {
            path[j] as int
        } else {
            p[k + 1] as int
        },
    ) by {
        assert(in_children(nodes, path[k] as int, if k == path.len() - 1 {
            target
        } else {
            path[k + 1] as int
        }));
        assert(k < path.len() - 1);
    }
}

/// Two arenas that record the same solution at every index of a range list
/// the same flipped solutions over it.
proof fn lemma_flipped_sols_congruent<M>(a: Seq<Node<M>>, b: Seq<Node<M>>, c: IdxRange)
    requires
        forall|k: int|
            c.start <= k < c.start + c.length ==> (#[trigger] b[k]).spec_solution()
                == a[k].spec_solution(),
    ensures
        flipped_sols(b, c) =~= flipped_sols(a, c),
{
    assert forall|k: int| 0 <= k < c.length implies flipped_sols(b, c)[k] == flipped_sols(a, c)[k] by {
        assert(b[c.start + k].spec_solution() == a[c.start + k].spec_solution());
    }
}

/// Replacing one node by a copy with the same recorded solution and child
/// range leaves every solved node's justification as it was.
proof fn lemma_sfc_same_solution<M>(a: Seq<Node<M>>, b: Seq<Node<M>>, i: int)
    requires
        solved_from_children(a),
        tree_structure(a),
        0 <= i < a.len(),
        b == a.update(i, b[i]),
        b[i].spec_solution() == a[i].spec_solution(),
        b[i].children == a[i].children,
    ensures
        solved_from_children(b),
{
    reveal(solved_from_children);
    assert forall|x: int|
        0 <= x < b.len() && (#[trigger] b[x]).kind is Solved && b[x].children is Some
            implies b[x].spec_solution() == OutcomeWDL::spec_best_of(
        flipped_sols(b, b[x].children.unwrap()),
    ) by {
        if x != i {
            assert(b[x] == a[x]);
        } else {
            assert(a[x].spec_solution() == b[x].spec_solution());
            assert(a[x].kind is Solved);
        }
        assert(a[x].kind is Solved && a[x].children == b[x].children);
        let c = b[x].children.unwrap();
        assert(wf_range(c, x, a.len() as int));
        assert forall|k: int|
            c.start <= k < c.start + c.length implies (#[trigger] b[k]).spec_solution()
            == a[k].spec_solution() by {
            if k != i {
                assert(b[k] == a[k]);
            }
        }
        lemma_flipped_sols_congruent(a, b, c);
    }
}

/// Marking an estimate node without a solved parent as solved, justified by
/// the solving rule over its own children, keeps every solved node justified.
proof fn lemma_sfc_solve<M>(a: Seq<Node<M>>, b: Seq<Node<M>>, i: int, o: OutcomeWDL)
    requires
        solved_from_children(a),
        tree_structure(a),
        0 <= i < a.len(),
        a[i].kind is Estimate,
        b == a.update(i, b[i]),
        b[i].kind == SNodeKind::Solved(o),
        b[i].children == a[i].children,
        a[i].children matches Some(c) ==> Some(o) == OutcomeWDL::spec_best_of(flipped_sols(a, c)),
        unparented_by_solved(a, i),
    ensures
        solved_from_children(b),
{
    reveal(solved_from_children);
    assert forall|x: int|
        0 <= x < b.len() && (#[trigger] b[x]).kind is Solved && b[x].children is Some
            implies b[x].spec_solution() == OutcomeWDL::spec_best_of(
        flipped_sols(b, b[x].children.unwrap()),
    ) by {
        let c = b[x].children.unwrap();
        if x == i {
            assert(wf_range(c, i, a.len() as int));
        } else {
            assert(b[x] == a[x]);
            assert(a[x].kind is Solved);
            assert(!in_children(a, x, i));
            assert(wf_range(c, x, a.len() as int));
            assert(a[x].spec_solution() == OutcomeWDL::spec_best_of(flipped_sols(a, c)));
        }
        assert forall|k: int|
            c.start <= k < c.start + c.length implies (#[trigger] b[k]).spec_solution()
            == a[k].spec_solution() by {
            assert(k != i);
            assert(b[k] == a[k]);
        }
        lemma_flipped_sols_congruent(a, b, c);
    }
}

/// Replacing one estimate node by a copy with the same move keeps the
/// expansion-time correspondence between a range's children and the moves.
proof fn lemma_cmb_preserved<M: Copy, B: Position<M>>(
    a: Seq<Node<M>>,
    b: Seq<Node<M>>,
    i: int,
    c: IdxRange,
    board: B,
)
    requires
        children_match_board(a, c, board),
        c.start + c.length <= a.len(),
        0 <= i < a.len(),
        b == a.update(i, b[i]),
        b[i].last_move == a[i].last_move,
        a[i].kind is Estimate,
    ensures
        children_match_board(b, c, board),
{
    reveal(children_match_board);
    assert forall|k: int| 0 <= k < c.length implies ((#[trigger] b[c.start + k]).last_move == Some(
        board.spec_moves()[k],
    ) && (board.spec_play(board.spec_moves()[k]).spec_outcome() matches Some(o) ==> b[c.start
        + k].kind == SNodeKind::Solved(o.spec_pov(board.spec_player().spec_other())))) by {
        if c.start + k != i {
            assert(b[c.start + k] == a[c.start + k]);
        } else {
            assert(a[c.start + k].kind is Estimate);
        }
    }
}

/// The correspondence between a range's children and the moves survives any
/// number of search steps: moves and solved kinds never change.
proof fn lemma_cmb_grow<M: Copy, B: Position<M>>(
    a: Seq<Node<M>>,
    b: Seq<Node<M>>,
    c: IdxRange,
    board: B,
)
    requires
        children_match_board(a, c, board),
        nodes_grow(a, b),
        c.start + c.length <= a.len(),
    ensures
        children_match_board(b, c, board),
{
    reveal(children_match_board);
    assert forall|k: int| 0 <= k < c.length implies ((#[trigger] b[c.start + k]).last_move == Some(
        board.spec_moves()[k],
    ) && (board.spec_play(board.spec_moves()[k]).spec_outcome() matches Some(o) ==> b[c.start
        + k].kind == SNodeKind::Solved(o.spec_pov(board.spec_player().spec_other())))) by {
        assert(b[c.start + k].last_move == a[c.start + k].last_move);
        assert(a[c.start + k].kind is Solved ==> b[c.start + k].kind == a[c.start + k].kind);
    }
}

/// At the root, the correspondence between children and moves is exactly the
/// root-children match that the tree-building contract speaks of.
proof fn lemma_cmb_root_match<M: Copy, B: Position<M>>(nodes: Seq<Node<M>>, c: IdxRange, board: B)
    requires
        children_match_board(nodes, c, board),
        nodes[0].children == Some(c),
    ensures
        root_children_match(nodes, board.spec_moves()),
{
    reveal(children_match_board);
}

/// A range of freshly created children — one per move, terminal positions
/// born solved with their outcome from their own mover's side — matches the
/// board's moves, is solved exactly on the terminal positions, and lists,
/// flipped to the parent's side, exactly the board's one-ply information.
proof fn lemma_birth_children<M: Copy, B: Position<M>>(exp: Seq<Node<M>>, range: IdxRange, board: B)
    requires
        range.start + range.length <= exp.len(),
        range.length == board.spec_moves().len(),
        forall|k: int|
            0 <= k < range.length ==> ((#[trigger] exp[range.start + k]).last_move == Some(
                board.spec_moves()[k],
            ) && exp[range.start + k].kind == (
            match board.spec_play(board.spec_moves()[k]).spec_outcome() {
                Some(o) => SNodeKind::Solved(o.spec_pov(board.spec_player().spec_other())),
                None => SNodeKind::Estimate(WDL { win: 0, draw: 0, loss: 0 }),
            })),
    ensures
        children_match_board(exp, range, board),
        children_solved_iff_terminal(exp, range, board),
        flipped_sols(exp, range) =~= spec_one_ply_sols(board),
{
    reveal(children_match_board);
    reveal(children_solved_iff_terminal);
    assert forall|k: int| 0 <= k < range.length implies flipped_sols(exp, range)[k]
        == spec_one_ply_sols(board)[k] by {
        match board.spec_play(board.spec_moves()[k]).spec_outcome() {
            Some(o) => {
                crate::wdl::lemma_pov_other_is_flip(o, board.spec_player());
                assert(exp[range.start + k].spec_solution() == Some(
                    o.spec_pov(board.spec_player().spec_other()),
                ));
            },
            None => {
                assert(exp[range.start + k].spec_solution() is None);
            },
        }
    }
}

/// Replacing one node outside the range leaves the solved-iff-terminal state
/// of the range's children untouched.
proof fn lemma_csit_preserved<M: Copy, B: Position<M>>(
    a: Seq<Node<M>>,
    b: Seq<Node<M>>,
    i: int,
    c: IdxRange,
    board: B,
)
    requires
        children_solved_iff_terminal(a, c, board),
        c.start + c.length <= a.len(),
        0 <= i < a.len(),
        b == a.update(i, b[i]),
        !(c.start <= i < c.start + c.length),
    ensures
        children_solved_iff_terminal(b, c, board),
{
    reveal(children_solved_iff_terminal);
    assert forall|k: int| 0 <= k < c.length implies ((#[trigger] b[c.start + k]).kind is Solved
        <==> board.spec_play(board.spec_moves()[k]).spec_outcome() is Some) by {
        assert(b[c.start + k] == a[c.start + k]);
    }
}

/// During backpropagation the node about to be updated sits below estimate
/// nodes only, so no solved node counts it among its children.
proof fn lemma_backprop_unparented<M>(nodes: Seq<Node<M>>, path: Seq<usize>, bottom: int, j: int)
    requires
        tree_structure(nodes),
        path_links(nodes, path, bottom),
        0 <= j < path.len(),
        forall|k: int| 0 <= k < j ==> nodes[#[trigger] path[k] as int].kind is Estimate,
    ensures
        unparented_by_solved(nodes, path[j] as int),
{
    lemma_prefix_links(nodes, path, bottom, j);
    assert forall|k: int|
        0 <= k < path.take(j).len() implies nodes[#[trigger] path.take(j)[k] as int].kind
        is Estimate by {
        assert(path.take(j)[k] == path[k]);
    }
    lemma_path_unparented(nodes, path.take(j), path[j] as int);
}

/// The children's visits exceed no parent's count, except that the parent
/// `path[j - 1]` of the most recently updated node may trail by one.
#[verifier::opaque]
pub open spec fn child_sums_slack<M>(nodes: Seq<Node<M>>, path: Seq<usize>, j: int) -> bool {
    forall|i: int|
        0 <= i < nodes.len() && (#[trigger] nodes[i]).kind is Estimate && nodes[i].children is Some
            ==> sum_child_visits(
            nodes,
            nodes[i].children.unwrap().start as int,
            nodes[i].children.unwrap().length as nat,
        ) <= nodes[i].visits + (if j >= 1 && i == path[j - 1] {
            1int
        } else {
            0int
        })
}

/// One node replaced by a copy with the same move, children and estimate
/// bookkeeping keeps the arena structurally well formed.
proof fn lemma_structure_after_update<M>(a: Seq<Node<M>>, b: Seq<Node<M>>, i: int)
    requires
        tree_structure(a),
        0 <= i < a.len(),
        b == a.update(i, b[i]),
        b[i].children == a[i].children,
        b[i].last_move == a[i].last_move,
        b[i].kind matches SNodeKind::Estimate(w) ==> w.spec_sum() == b[i].visits,
        a[i].kind is Estimate,
    ensures
        tree_structure(b),
{
    reveal(crate::tree::ranges_disjoint_all);
    assert forall|x: int|
        0 <= x < b.len() && (#[trigger] b[x]).kind is Estimate && b[x].children is Some
            implies b[x].children.unwrap().length >= 1 by {
        if x != i {
            assert(b[x] == a[x]);
        } else {
            assert(a[x].kind is Estimate && a[x].children == b[x].children);
        }
    }
    assert(b.len() == a.len());
    assert forall|x: int| 0 <= x < b.len() implies ((#[trigger] b[x]).children matches Some(r)
        ==> wf_range(r, x, b.len() as int)) by {
        if x != i {
            assert(b[x] == a[x]);
        }
    }
    assert forall|x: int| 0 < x < b.len() implies (#[trigger] b[x]).last_move is Some by {
        if x != i {
            assert(b[x] == a[x]);
        }
    }
    assert forall|x: int| 0 <= x < b.len() implies ((#[trigger] b[x]).kind matches
        SNodeKind::Estimate(w) ==> w.spec_sum() == b[x].visits) by {
        if x != i {
            assert(b[x] == a[x]);
        }
    }
    assert forall|i1: int, i2: int|
        0 <= i1 < b.len() && 0 <= i2 < b.len() && i1 != i2 && (#[trigger] b[i1]).children is Some
            && (#[trigger] b[i2]).children is Some implies crate::tree::ranges_disjoint(
        b[i1].children.unwrap(),
        b[i2].children.unwrap(),
    ) by {
        assert(b[i1].children == a[i1].children);
        assert(b[i2].children == a[i2].children);
        assert(a[i1].children is Some && a[i2].children is Some);
    }
}

/// After bumping the visits of `path[j]` by one, the slack on child sums
/// moves one level up the path.
proof fn lemma_slack_after_bump<M>(
    a: Seq<Node<M>>,
    b: Seq<Node<M>>,
    path: Seq<usize>,
    j: int,
    i: int,
)
    requires
        tree_structure(a),
        tree_structure(b),
        0 <= i < a.len(),
        b == a.update(i, b[i]),
        b[i].kind is Estimate ==> b[i].children == a[i].children,
        b[i].visits == a[i].visits + 1,
        a[i].kind is Estimate,
        child_sums_slack(a, path, j + 1),
        0 <= j < path.len(),
        path[j] == i,
        j >= 1 ==> path[j - 1] < a.len() && in_children(a, path[j - 1] as int, i),
        j == 0 ==> i == 0,
    ensures
        child_sums_slack(b, path, j),
{
    reveal(crate::tree::ranges_disjoint_all);
    reveal(child_sums_slack);
    assert(b.len() == a.len());
    assert forall|x: int|
        0 <= x < b.len() && (#[trigger] b[x]).kind is Estimate && b[x].children is Some
            implies sum_child_visits(
        b,
        b[x].children.unwrap().start as int,
        b[x].children.unwrap().length as nat,
    ) <= b[x].visits + (if j >= 1 && x == path[j - 1] {
        1int
    } else {
        0int
    }) by {
        let rx = b[x].children.unwrap();
        if x != i {
            assert(b[x] == a[x]);
        }
        assert(b[x].children == a[x].children);
        assert(a[x].children == Some(rx));
        assert(a[x].kind is Estimate);
        assert(sum_child_visits(a, rx.start as int, rx.length as nat) <= a[x].visits + (if x
            == path[j] {
            1int
        } else {
            0int
        }));
        if rx.start <= i < rx.start + rx.length {
            // x's range contains the bumped node: x is its unique parent
            crate::tree::lemma_sum_bump(a, b, rx.start as int, rx.length as nat, i);
            assert(x != i) by {
                assert(wf_range(rx, x, a.len() as int));
            }
            if j >= 1 {
                let p = path[j - 1] as int;
                if x != p {
                    // two distinct parents would need overlapping ranges
                    assert(in_children(a, p, i));
                    assert(crate::tree::ranges_disjoint(
                        a[x].children.unwrap(),
                        a[p].children.unwrap(),
                    ));
                    assert(false);
                }
            } else {
                // the root is in no range
                assert(i == 0);
                assert(wf_range(rx, x, a.len() as int));
                assert(false);
            }
        } else {
            crate::tree::lemma_sum_congruent(a, b, rx.start as int, rx.length as nat);
        }
    }
}

/// List the solved outcomes of the children of range `c`, each brought to
/// the parent's side.
fn flipped_solutions<M: Copy>(nodes: &Vec<Node<M>>, c: IdxRange) -> (r: Vec<Option<OutcomeWDL>>)
    requires
        c.start + c.length <= nodes@.len(),
    ensures
        r@.len() == c.length,
        forall|k: int|
            0 <= k < c.length ==> r@[k] == flip_solution(
                (#[trigger] nodes@[c.start + k]).spec_solution(),
            ),
{
    let mut v: Vec<Option<OutcomeWDL>> = Vec::new();
    let n = nodes.len();
    let mut k: usize = 0;
    while k < c.length
        invariant
            k <= c.length,
            c.start + c.length <= nodes@.len(),
            n == nodes@.len(),
            v@.len() == k,
            forall|m: int|
                0 <= m < k ==> v@[m] == flip_solution(
                    (#[trigger] nodes@[c.start + m]).spec_solution(),
                ),
        decreases c.length - k,
    {
        let sol = nodes[c.start + k].solution();
        let flipped = match sol {
            None => None,
            Some(o) => Some(o.flip()),
        };
        v.push(flipped);
        k = k + 1;
    }
    v
}

/// Play uniformly random moves from `board` until the game ends, and return
/// the outcome. The board must not already be finished. Whatever moves the
/// random source picks, the result is the terminal outcome of some position
/// that a line of legal play reaches from `board`.
fn random_playout<M: Copy, B: Position<M>>(board: B, rng: &mut rand::rngs::StdRng) -> (r: Outcome)
    requires
        board.spec_outcome() is None,
    ensures
        exists|ms: Seq<M>|
            legal_line(board, ms) && spec_play_seq(board, ms).spec_outcome() == Some(r),
{
    let mut b = board;
    let ghost mut line: Seq<M> = Seq::empty();
    loop
        invariant
            b.spec_outcome() is None,
            legal_line(board, line),
            spec_play_seq(board, line) == b,
        decreases b.spec_measure(),
    {
        proof {
            b.moves_when_not_done();
        }
        let ms = b.moves();
        let i = rand_below(rng, ms.len());
        proof {
            assert(b.spec_moves().contains(ms@[i as int]));
            b.playing_decreases(ms@[i as int]);
            lemma_legal_line_push(board, line, ms@[i as int]);
            lemma_play_seq_push(board, line, ms@[i as int]);
            line = line.push(ms@[i as int]);
        }
        b = b.clone_and_play(ms[i]);
        if let Some(o) = b.outcome() {
            proof {
                assert(legal_line(board, line) && spec_play_seq(board, line).spec_outcome()
                    == Some(o));
            }
            return o;
        }
    }
}

/// Record one more visit with outcome `o` (from the node's own mover's
/// side) at node `i`.
fn bump_node<B, M: Copy>(tree: &mut Tree<B, M>, i: usize, o: OutcomeWDL, Ghost(steps): Ghost<nat>)
    requires
        tree_structure(old(tree).nodes@),
        i < old(tree).nodes@.len(),
        old(tree).nodes@[i as int].kind is Estimate,
        old(tree).nodes@[i as int].visits <= steps,
        steps < u64::MAX,
    ensures
        final(tree).root_board == old(tree).root_board,
        final(tree).nodes@.len() == old(tree).nodes@.len(),
        final(tree).nodes@ == old(tree).nodes@.update(i as int, final(tree).nodes@[i as int]),
        final(tree).nodes@[i as int].last_move == old(tree).nodes@[i as int].last_move,
        final(tree).nodes@[i as int].children == old(tree).nodes@[i as int].children,
        final(tree).nodes@[i as int].visits == old(tree).nodes@[i as int].visits + 1,
        final(tree).nodes@[i as int].kind is Estimate,
        tree_structure(final(tree).nodes@),
        nodes_grow(old(tree).nodes@, final(tree).nodes@),
{
    let ghost a = tree.nodes@;
    let n = tree.nodes[i];
    tree.nodes[i] = n.incremented(o);
    proof {
        lemma_structure_after_update(a, tree.nodes@, i as int);
    }
}

/// Mark node `i` as exactly solved with outcome `o` (from the node's own
/// mover's side); marking counts as a visit.
fn solve_node<B, M: Copy>(tree: &mut Tree<B, M>, i: usize, o: OutcomeWDL, Ghost(steps): Ghost<nat>)
    requires
        tree_structure(old(tree).nodes@),
        i < old(tree).nodes@.len(),
        old(tree).nodes@[i as int].kind is Estimate,
        old(tree).nodes@[i as int].visits <= steps,
        steps < u64::MAX,
    ensures
        final(tree).root_board == old(tree).root_board,
        final(tree).nodes@.len() == old(tree).nodes@.len(),
        final(tree).nodes@ == old(tree).nodes@.update(i as int, final(tree).nodes@[i as int]),
        final(tree).nodes@[i as int].last_move == old(tree).nodes@[i as int].last_move,
        final(tree).nodes@[i as int].children == old(tree).nodes@[i as int].children,
        final(tree).nodes@[i as int].visits == old(tree).nodes@[i as int].visits + 1,
        final(tree).nodes@[i as int].kind == SNodeKind::Solved(o),
        tree_structure(final(tree).nodes@),
        nodes_grow(old(tree).nodes@, final(tree).nodes@),
{
    let ghost a = tree.nodes@;
    let n = tree.nodes[i];
    tree.nodes[i] = n.solved(o);
    proof {
        lemma_structure_after_update(a, tree.nodes@, i as int);
    }
}


/// A slack predicate with nothing pending is the plain child-sum bound.
proof fn lemma_slack_zero_is_ok<M>(nodes: Seq<Node<M>>, path: Seq<usize>)
    requires
        child_sums_slack(nodes, path, 0),
    ensures
        child_sums_ok(nodes),
{
    reveal(child_sums_slack);
    reveal(crate::tree::child_sums_ok);
    assert forall|i: int|
        0 <= i < nodes.len() && (#[trigger] nodes[i]).kind is Estimate implies (nodes[i].children
        matches Some(r) ==> sum_child_visits(nodes, r.start as int, r.length as nat)
        <= nodes[i].visits) by {
        if nodes[i].children is Some {
            assert(sum_child_visits(
                nodes,
                nodes[i].children.unwrap().start as int,
                nodes[i].children.unwrap().length as nat,
            ) <= nodes[i].visits + 0);
        }
    }
}

/// With no update pending, any slack allowance is satisfied by the plain
/// child-sum bound, and conversely.
proof fn lemma_ok_gives_slack<M>(nodes: Seq<Node<M>>, path: Seq<usize>, j: int)
    requires
        child_sums_ok(nodes),
    ensures
        child_sums_slack(nodes, path, j),
{
    reveal(child_sums_slack);
    reveal(crate::tree::child_sums_ok);
    assert forall|i: int|
        0 <= i < nodes.len() && (#[trigger] nodes[i]).kind is Estimate && nodes[i].children is Some
            implies sum_child_visits(
        nodes,
        nodes[i].children.unwrap().start as int,
        nodes[i].children.unwrap().length as nat,
    ) <= nodes[i].visits + (if j >= 1 && i == path[j - 1] {
        1int
    } else {
        0int
    }) by {
        assert(nodes[i].children matches Some(r) ==> sum_child_visits(
            nodes,
            r.start as int,
            r.length as nat,
        ) <= nodes[i].visits);
    }
}

/// The slack predicate only reads the path entry before `j`, so two paths
/// that agree there are interchangeable.
proof fn lemma_slack_same_pending<M>(
    nodes: Seq<Node<M>>,
    p1: Seq<usize>,
    p2: Seq<usize>,
    j: int,
)
    requires
        child_sums_slack(nodes, p1, j),
        j >= 1 ==> 0 <= j - 1 < p1.len() && 0 <= j - 1 < p2.len() && p1[j - 1] == p2[j - 1],
    ensures
        child_sums_slack(nodes, p2, j),
{
    reveal(child_sums_slack);
    assert forall|i: int|
        0 <= i < nodes.len() && (#[trigger] nodes[i]).kind is Estimate && nodes[i].children is Some
            implies sum_child_visits(
        nodes,
        nodes[i].children.unwrap().start as int,
        nodes[i].children.unwrap().length as nat,
    ) <= nodes[i].visits + (if j >= 1 && i == p2[j - 1] {
        1int
    } else {
        0int
    }) by {
        assert(sum_child_visits(
            nodes,
            nodes[i].children.unwrap().start as int,
            nodes[i].children.unwrap().length as nat,
        ) <= nodes[i].visits + (if j >= 1 && i == p1[j - 1] {
            1int
        } else {
            0int
        }));
    }
}

/// After an expansion: the fresh children appended at the end and the
/// parent's new child range keep the arena well formed, only grown, and all
/// child sums in bounds.
proof fn lemma_expansion_ok<M>(
    orig: Seq<Node<M>>,
    after_push: Seq<Node<M>>,
    exp: Seq<Node<M>>,
    curr: int,
    len: int,
    steps: nat,
)
    requires
        tree_structure(orig),
        visit_bounds(orig, steps),
        child_sums_ok(orig),
        solved_from_children(orig),
        0 <= curr < orig.len(),
        orig[curr].kind is Estimate,
        orig[curr].children is None,
        len >= 1,
        after_push.len() == orig.len() + len,
        after_push.subrange(0, orig.len() as int) == orig,
        forall|k: int|
            0 <= k < len ==> ((#[trigger] after_push[orig.len() + k]).last_move is Some
                && after_push[orig.len() + k].visits == 0 && after_push[orig.len()
                + k].children is None && (after_push[orig.len() + k].kind matches
            SNodeKind::Estimate(w) ==> w.spec_sum() == 0)),
        exp == after_push.update(curr, exp[curr]),
        exp[curr].children == Some(IdxRange { start: orig.len() as usize, length: len as usize }),
        exp[curr].last_move == orig[curr].last_move,
        exp[curr].visits == orig[curr].visits,
        exp[curr].kind == orig[curr].kind,
        orig.len() + len <= usize::MAX,
    ensures
        tree_structure(exp),
        nodes_grow(orig, exp),
        visit_bounds(exp, steps),
        child_sums_ok(exp),
        solved_from_children(exp),
{
    reveal(crate::tree::ranges_disjoint_all);
    reveal(crate::tree::child_sums_ok);
    let start = orig.len() as int;
    assert(forall|x: int|
        0 <= x < exp.len() && x != curr ==> #[trigger] exp[x] == after_push[x]);
    assert(forall|x: int|
        0 <= x < orig.len() && x != curr ==> after_push[x] == orig[x]);
    assert forall|x: int| 0 <= x < exp.len() implies ((#[trigger] exp[x]).children matches Some(
        rr,
    ) ==> wf_range(rr, x, exp.len() as int)) by {
        if x < orig.len() && x != curr {
            assert(exp[x] == orig[x]);
            assert(orig[x].children matches Some(rr2) ==> wf_range(rr2, x, orig.len() as int));
        }
        if x >= orig.len() {
            assert(exp[x] == after_push[x]);
            assert(after_push[start + (x - start)].children is None);
        }
    }
    assert forall|x: int| 0 < x < exp.len() implies (#[trigger] exp[x]).last_move is Some by {
        if x < orig.len() && x != curr {
            assert(exp[x] == orig[x]);
        }
        if x >= orig.len() {
            assert(exp[x] == after_push[x]);
            assert(after_push[start + (x - start)].last_move is Some);
        }
    }
    assert forall|x: int| 0 <= x < exp.len() implies ((#[trigger] exp[x]).kind matches
        SNodeKind::Estimate(w) ==> w.spec_sum() == exp[x].visits) by {
        if x < orig.len() && x != curr {
            assert(exp[x] == orig[x]);
        }
        if x >= orig.len() {
            assert(exp[x] == after_push[x]);
            assert(after_push[start + (x - start)].visits == 0);
            assert(after_push[start + (x - start)].kind matches SNodeKind::Estimate(w)
                ==> w.spec_sum() == 0);
        }
    }
    assert forall|x: int|
        0 <= x < exp.len() && (#[trigger] exp[x]).kind is Estimate && exp[x].children is Some
            implies exp[x].children.unwrap().length >= 1 by {
        if x < orig.len() && x != curr {
            assert(exp[x] == orig[x]);
        }
        if x >= orig.len() {
            assert(exp[x] == after_push[x]);
            assert(after_push[start + (x - start)].children is None);
        }
    }
    assert forall|i1: int, i2: int|
        0 <= i1 < exp.len() && 0 <= i2 < exp.len() && i1 != i2 && (#[trigger] exp[i1]).children
            is Some && (#[trigger] exp[i2]).children is Some implies crate::tree::ranges_disjoint(
        exp[i1].children.unwrap(),
        exp[i2].children.unwrap(),
    ) by {
        if i1 >= orig.len() {
            assert(exp[i1] == after_push[i1]);
            assert(after_push[start + (i1 - start)].children is None);
        } else if i2 >= orig.len() {
            assert(exp[i2] == after_push[i2]);
            assert(after_push[start + (i2 - start)].children is None);
        } else if i1 != curr && i2 != curr {
            assert(exp[i1] == orig[i1] && exp[i2] == orig[i2]);
        } else if i1 == curr {
            assert(exp[i2] == orig[i2]);
            assert(wf_range(orig[i2].children.unwrap(), i2, orig.len() as int));
        } else {
            assert(exp[i1] == orig[i1]);
            assert(wf_range(orig[i1].children.unwrap(), i1, orig.len() as int));
        }
    }
    assert(tree_structure(exp));
    assert forall|x: int| 0 <= x < orig.len() implies ((#[trigger] exp[x]).last_move
        == orig[x].last_move && (orig[x].children is Some ==> exp[x].children == orig[x].children)
        && (orig[x].kind is Solved ==> exp[x].kind == orig[x].kind) && exp[x].visits
        >= orig[x].visits) by {
        if x != curr {
            assert(exp[x] == orig[x]);
        }
    }
    assert(nodes_grow(orig, exp));
    assert forall|x: int| 0 <= x < exp.len() implies (#[trigger] exp[x]).visits <= steps by {
        if x < orig.len() && x != curr {
            assert(exp[x] == orig[x]);
        }
        if x >= orig.len() {
            assert(exp[x] == after_push[x]);
            assert(after_push[start + (x - start)].visits == 0);
        }
    }
    assert forall|x: int|
        0 <= x < exp.len() && (#[trigger] exp[x]).kind is Estimate implies (exp[x].children
        matches Some(rr) ==> sum_child_visits(exp, rr.start as int, rr.length as nat)
        <= exp[x].visits) by {
        if exp[x].children is Some {
            let rx = exp[x].children.unwrap();
            if x == curr {
                assert forall|t: int|
                    rx.start <= t < rx.start + rx.length implies (#[trigger] exp[t]).visits
                    == 0 by {
                    assert(exp[t] == after_push[t]);
                    assert(after_push[start + (t - start)].visits == 0);
                }
                crate::tree::lemma_sum_zero(exp, rx.start as int, rx.length as nat);
            } else {
                assert(exp[x] == orig[x]);
                assert(wf_range(rx, x, orig.len() as int));
                assert forall|t: int|
                    rx.start <= t < rx.start + rx.length implies (#[trigger] exp[t]).visits
                    == orig[t].visits by {
                    if t != curr {
                        assert(exp[t] == orig[t]);
                    }
                }
                crate::tree::lemma_sum_congruent(orig, exp, rx.start as int, rx.length as nat);
                assert(orig[x].kind is Estimate);
            }
        }
    }
    assert(child_sums_ok(exp));
    // no solution changed: every solved node's justification reads as before
    reveal(solved_from_children);
    assert forall|x: int|
        0 <= x < exp.len() && (#[trigger] exp[x]).kind is Solved && exp[x].children is Some
            implies exp[x].spec_solution() == OutcomeWDL::spec_best_of(
        flipped_sols(exp, exp[x].children.unwrap()),
    ) by {
        assert(x != curr);
        if x >= orig.len() {
            assert(exp[x] == after_push[x]);
            assert(after_push[start + (x - start)].children is None);
        } else {
            assert(exp[x] == orig[x]);
            let c = orig[x].children.unwrap();
            assert(orig[x].spec_solution() == OutcomeWDL::spec_best_of(flipped_sols(orig, c)));
            assert(wf_range(c, x, orig.len() as int));
            assert forall|k: int|
                c.start <= k < c.start + c.length implies (#[trigger] exp[k]).spec_solution()
                == orig[k].spec_solution() by {
                if k != curr {
                    assert(exp[k] == orig[k]);
                } else {
                    assert(exp[curr].kind == orig[curr].kind);
                }
            }
            lemma_flipped_sols_congruent(orig, exp, c);
        }
    }
}


/// Updating nodes without touching any child range keeps all path links.
proof fn lemma_links_preserved<M>(a: Seq<Node<M>>, b: Seq<Node<M>>, path: Seq<usize>, target: int)
    requires
        path_links(a, path, target),
        b.len() >= a.len(),
        forall|k: int|
            0 <= k < path.len() ==> (#[trigger] b[path[k] as int]).children
                == a[path[k] as int].children,
    ensures
        path_links(b, path, target),
{
    assert forall|k: int| 0 <= k < path.len() implies in_children(
        b,
        #[trigger] path[k] as int,
        if k == path.len() - 1 {
            target
        } else {
            path[k + 1] as int
        },
    ) by {
        assert(in_children(a, path[k] as int, if k == path.len() - 1 {
            target
        } else {
            path[k + 1] as int
        }));
        assert(b[path[k] as int].children == a[path[k] as int].children);
    }
}

/// Bumping the node below the end of the path moves the child-sum slack to
/// the path's last entry.
proof fn lemma_bottom_bump_slack<M>(
    a: Seq<Node<M>>,
    b: Seq<Node<M>>,
    path2: Seq<usize>,
    pick: usize,
)
    requires
        tree_structure(a),
        tree_structure(b),
        child_sums_ok(a),
        (pick as int) < a.len(),
        b == a.update(pick as int, b[pick as int]),
        b[pick as int].kind is Estimate ==> b[pick as int].children == a[pick as int].children,
        b[pick as int].visits == a[pick as int].visits + 1,
        a[pick as int].kind is Estimate,
        path2.len() >= 1 ==> (path2[path2.len() - 1] < a.len() && in_children(
            a,
            path2[path2.len() - 1] as int,
            pick as int,
        )),
        path2.len() == 0 ==> pick == 0,
    ensures
        child_sums_slack(b, path2, path2.len() as int),
{
    let path3 = path2.push(pick);
    lemma_ok_gives_slack(a, path3, path2.len() as int + 1);
    lemma_slack_after_bump(a, b, path3, path2.len() as int, pick as int);
    lemma_slack_same_pending(b, path3, path2, path2.len() as int);
}

/// Extending the path by the current node keeps all links, with the picked
/// child as the new target.
proof fn lemma_links_push<M>(
    a: Seq<Node<M>>,
    b: Seq<Node<M>>,
    path_old: Seq<usize>,
    curr: usize,
    pick: int,
)
    requires
        path_links(a, path_old, curr as int),
        (curr as int) < a.len(),
        b.len() >= a.len(),
        forall|x: int| 0 <= x < a.len() ==> (#[trigger] b[x]).children == a[x].children,
        in_children(b, curr as int, pick),
        path_old.len() == 0 ==> curr == 0,
    ensures
        path_links(b, path_old.push(curr), pick),
{
    let p2 = path_old.push(curr);
    assert(p2.len() > 0 && p2[0] == if path_old.len() == 0 {
        curr
    } else {
        path_old[0]
    });
    assert forall|k: int| 0 <= k < p2.len() implies in_children(
        b,
        #[trigger] p2[k] as int,
        if k == p2.len() - 1 {
            pick
        } else {
            p2[k + 1] as int
        },
    ) by {
        if k < path_old.len() {
            let t = if k == path_old.len() - 1 {
                curr as int
            } else {
                path_old[k + 1] as int
            };
            assert(in_children(a, path_old[k] as int, t));
            assert(b[path_old[k] as int].children == a[path_old[k] as int].children);
            assert(p2[k] == path_old[k]);
            assert((if k == p2.len() - 1 {
                pick
            } else {
                p2[k + 1] as int
            }) == t);
        }
    }
}

/// Expanding a node of a finished position: it gets an empty child range and
/// is solved on the spot, which counts as a visit.
#[verifier::rlimit(100)]
proof fn lemma_empty_expansion_ok<M>(
    orig: Seq<Node<M>>,
    b: Seq<Node<M>>,
    path: Seq<usize>,
    curr: usize,
    steps: nat,
)
    requires
        tree_structure(orig),
        visit_bounds(orig, steps),
        child_sums_ok(orig),
        steps < u64::MAX,
        (curr as int) < orig.len(),
        orig[curr as int].kind is Estimate,
        orig[curr as int].children is None,
        b == orig.update(curr as int, b[curr as int]),
        b[curr as int].children == Some(
            IdxRange { start: orig.len() as usize, length: 0 },
        ),
        b[curr as int].kind == SNodeKind::Solved(OutcomeWDL::Loss),
        b[curr as int].visits == orig[curr as int].visits + 1,
        b[curr as int].last_move == orig[curr as int].last_move,
        path_links(orig, path, curr as int),
        orig.len() <= usize::MAX,
        solved_from_children(orig),
        unparented_by_solved(orig, curr as int),
    ensures
        tree_structure(b),
        nodes_grow(orig, b),
        visit_bounds(b, steps + 1),
        child_sums_slack(b, path, path.len() as int),
        path_links(b, path, curr as int),
        solved_from_children(b),
{
    reveal(crate::tree::ranges_disjoint_all);
    assert(b.len() == orig.len());
    assert forall|x: int| 0 <= x < b.len() implies ((#[trigger] b[x]).children matches Some(rr)
        ==> wf_range(rr, x, b.len() as int)) by {
        if x != curr {
            assert(b[x] == orig[x]);
        }
    }
    assert forall|x: int| 0 < x < b.len() implies (#[trigger] b[x]).last_move is Some by {
        if x != curr {
            assert(b[x] == orig[x]);
        }
    }
    assert forall|x: int| 0 <= x < b.len() implies ((#[trigger] b[x]).kind matches
        SNodeKind::Estimate(w) ==> w.spec_sum() == b[x].visits) by {
        if x != curr {
            assert(b[x] == orig[x]);
        }
    }
    assert forall|x: int|
        0 <= x < b.len() && (#[trigger] b[x]).kind is Estimate && b[x].children is Some
            implies b[x].children.unwrap().length >= 1 by {
        if x != curr {
            assert(b[x] == orig[x]);
        }
    }
    assert forall|i1: int, i2: int|
        0 <= i1 < b.len() && 0 <= i2 < b.len() && i1 != i2 && (#[trigger] b[i1]).children is Some
            && (#[trigger] b[i2]).children is Some implies crate::tree::ranges_disjoint(
        b[i1].children.unwrap(),
        b[i2].children.unwrap(),
    ) by {
        if i1 != curr && i2 != curr {
            assert(b[i1] == orig[i1] && b[i2] == orig[i2]);
        } else if i1 == curr {
            assert(b[i2] == orig[i2]);
            assert(wf_range(orig[i2].children.unwrap(), i2, orig.len() as int));
        } else {
            assert(b[i1] == orig[i1]);
            assert(wf_range(orig[i1].children.unwrap(), i1, orig.len() as int));
        }
    }
    assert(tree_structure(b));
    assert forall|x: int| 0 <= x < orig.len() implies ((#[trigger] b[x]).last_move
        == orig[x].last_move && (orig[x].children is Some ==> b[x].children == orig[x].children)
        && (orig[x].kind is Solved ==> b[x].kind == orig[x].kind) && b[x].visits
        >= orig[x].visits) by {
        if x != curr {
            assert(b[x] == orig[x]);
        }
    }
    assert(nodes_grow(orig, b));
    lemma_bottom_bump_slack(orig, b, path, curr);
    assert forall|k: int| 0 <= k < path.len() implies in_children(
        b,
        #[trigger] path[k] as int,
        if k == path.len() - 1 {
            curr as int
        } else {
            path[k + 1] as int
        },
    ) by {
        assert(in_children(orig, path[k] as int, if k == path.len() - 1 {
            curr as int
        } else {
            path[k + 1] as int
        }));
        assert(path[k] != curr) by {
            if path.len() > 0 && k == path.len() - 1 {
                assert(in_children(orig, path[k] as int, curr as int));
                assert(wf_range(orig[path[k] as int].children.unwrap(), path[k] as int, orig.len() as int));
            }
        }
        assert(b[path[k] as int].children == orig[path[k] as int].children);
    }
    // the best of no children is a loss, which justifies the fresh solved node
    reveal(solved_from_children);
    let er = IdxRange { start: orig.len() as usize, length: 0 };
    assert(flipped_sols(b, er) =~= Seq::<Option<OutcomeWDL>>::empty());
    assert(OutcomeWDL::spec_best_of(flipped_sols(b, er)) == Some(OutcomeWDL::Loss));
    assert forall|x: int|
        0 <= x < b.len() && (#[trigger] b[x]).kind is Solved && b[x].children is Some
            implies b[x].spec_solution() == OutcomeWDL::spec_best_of(
        flipped_sols(b, b[x].children.unwrap()),
    ) by {
        if x != curr {
            assert(b[x] == orig[x]);
            assert(!in_children(orig, x, curr as int));
            let c = orig[x].children.unwrap();
            assert(orig[x].spec_solution() == OutcomeWDL::spec_best_of(flipped_sols(orig, c)));
            assert forall|k: int|
                c.start <= k < c.start + c.length implies (#[trigger] b[k]).spec_solution()
                == orig[k].spec_solution() by {
                assert(k != curr);
                assert(b[k] == orig[k]);
            }
            lemma_flipped_sols_congruent(orig, b, c);
        }
    }
}

/// Process one path node during backpropagation: when the result below was
/// proven, re-attempt exact solving from the children's outcomes, marking
/// the node solved on success; otherwise record one more visit with the
/// given result. Either way the node's visit counter grows by exactly one.
fn backprop_node<B, M: Copy>(
    tree: &mut Tree<B, M>,
    i: usize,
    res: OutcomeWDL,
    proven: bool,
    Ghost(steps): Ghost<nat>,
) -> (r: (OutcomeWDL, bool))
    requires
        tree_structure(old(tree).nodes@),
        solved_from_children(old(tree).nodes@),
        unparented_by_solved(old(tree).nodes@, i as int),
        i < old(tree).nodes@.len(),
        old(tree).nodes@[i as int].kind is Estimate,
        old(tree).nodes@[i as int].children is Some,
        old(tree).nodes@[i as int].visits <= steps,
        steps < u64::MAX,
    ensures
        tree_structure(final(tree).nodes@),
        solved_from_children(final(tree).nodes@),
        nodes_grow(old(tree).nodes@, final(tree).nodes@),
        final(tree).root_board == old(tree).root_board,
        final(tree).nodes@.len() == old(tree).nodes@.len(),
        final(tree).nodes@ == old(tree).nodes@.update(i as int, final(tree).nodes@[i as int]),
        final(tree).nodes@[i as int].children == old(tree).nodes@[i as int].children,
        final(tree).nodes@[i as int].last_move == old(tree).nodes@[i as int].last_move,
        final(tree).nodes@[i as int].visits == old(tree).nodes@[i as int].visits + 1,
        r.1 ==> final(tree).nodes@[i as int].kind == SNodeKind::Solved(r.0),
        !r.1 ==> final(tree).nodes@[i as int].kind is Estimate && r.0 == res,
        !proven ==> !r.1,
{
    let ghost pre = tree.nodes@;
    if proven {
        let cr = match tree.nodes[i].children {
            Some(cr) => cr,
            None => {
                return vstd::pervasive::unreached();
            },
        };
        proof {
            assert(wf_range(cr, i as int, tree.nodes@.len() as int));
        }
        let sols = flipped_solutions(&tree.nodes, cr);
        proof {
            assert(sols@ =~= flipped_sols(pre, cr));
        }
        match OutcomeWDL::best_of(&sols) {
            Some(out) => {
                solve_node(tree, i, out, Ghost(steps));
                proof {
                    lemma_sfc_solve(pre, tree.nodes@, i as int, out);
                }
                (out, true)
            },
            None => {
                bump_node(tree, i, res, Ghost(steps));
                proof {
                    lemma_sfc_same_solution(pre, tree.nodes@, i as int);
                }
                (res, false)
            },
        }
    } else {
        bump_node(tree, i, res, Ghost(steps));
        proof {
            lemma_sfc_same_solution(pre, tree.nodes@, i as int);
        }
        (res, false)
    }
}

/// A single node replacement that keeps that node's move and the root's
/// child range keeps the root-children correspondence.
proof fn lemma_root_match_preserved<M>(a: Seq<Node<M>>, b: Seq<Node<M>>, i: int, ms: Seq<M>)
    requires
        tree_structure(a),
        root_children_match(a, ms),
        0 <= i < a.len(),
        b == a.update(i, b[i]),
        b[i].last_move == a[i].last_move,
        b[i].children == a[i].children,
    ensures
        root_children_match(b, ms),
{
    let c = a[0].children.unwrap();
    assert(wf_range(c, 0, a.len() as int));
    assert(b[0].children == a[0].children);
    assert forall|k: int| 0 <= k < ms.len() implies (#[trigger] b[c.start + k]).last_move == Some(
        ms[k],
    ) by {
        if c.start + k != i {
            assert(b[c.start + k] == a[c.start + k]);
        }
    }
}

/// Appending an entry above all current ones keeps the path sorted.
proof fn lemma_sorted_push(path: Seq<usize>, x: usize)
    requires
        forall|k1: int, k2: int| 0 <= k1 < k2 < path.len() ==> path[k1] < path[k2],
        forall|k: int| 0 <= k < path.len() ==> (#[trigger] path[k]) < x,
    ensures
        forall|k1: int, k2: int|
            0 <= k1 < k2 < path.push(x).len() ==> path.push(x)[k1] < path.push(x)[k2],
{
    let p2 = path.push(x);
    assert forall|k1: int, k2: int| 0 <= k1 < k2 < p2.len() implies p2[k1] < p2[k2] by {
        if k2 < path.len() {
            assert(p2[k1] == path[k1] && p2[k2] == path[k2]);
        } else {
            assert(p2[k2] == x && p2[k1] == path[k1]);
        }
    }
}

/// Pick an unvisited child of `c` uniformly at random, when there is one,
/// play a random game from its position and record the outcome there, from
/// that child's own mover's side.
fn try_unvisited<M: Copy, B: Position<M>>(
    tree: &mut Tree<B, M>,
    curr: usize,
    c: IdxRange,
    board: &B,
    rng: &mut rand::rngs::StdRng,
    Ghost(steps): Ghost<nat>,
) -> (r: Option<(OutcomeWDL, usize)>)
    requires
        tree_structure(old(tree).nodes@),
        visit_bounds(old(tree).nodes@, steps),
        solved_from_children(old(tree).nodes@),
        steps < u64::MAX,
        (curr as usize) < old(tree).nodes@.len(),
        old(tree).nodes@[curr as int].children == Some(c),
    ensures
        final(tree).root_board == old(tree).root_board,
        solved_from_children(final(tree).nodes@),
        r is None ==> final(tree).nodes@ == old(tree).nodes@ && (forall|t: int|
            0 <= t < c.length ==> !(#[trigger] old(tree).nodes@[c.start + t]).spec_is_unvisited()),
        r matches Some((oc, pick)) ==> (c.start <= pick < c.start + c.length
            && final(tree).nodes@ == old(tree).nodes@.update(
            pick as int,
            final(tree).nodes@[pick as int],
        ) && final(tree).nodes@[pick as int].children == old(tree).nodes@[pick as int].children
            && final(tree).nodes@[pick as int].last_move == old(
            tree,
        ).nodes@[pick as int].last_move && final(tree).nodes@[pick as int].visits == old(
            tree,
        ).nodes@[pick as int].visits + 1 && final(tree).nodes@[pick as int].kind is Estimate
            && old(tree).nodes@[pick as int].kind is Estimate && tree_structure(final(tree).nodes@)
            && nodes_grow(old(tree).nodes@, final(tree).nodes@) && visit_bounds(
            final(tree).nodes@,
            steps + 1,
        )),
{
    proof {
        assert(wf_range(c, curr as int, old(tree).nodes@.len() as int));
    }
    let n_now = tree.nodes.len();
    let mut unv: Vec<usize> = Vec::new();
    let mut k: usize = 0;
    while k < c.length
        invariant
            k <= c.length,
            c.start + c.length <= tree.nodes@.len(),
            n_now == tree.nodes@.len(),
            forall|t: int|
                0 <= t < unv@.len() ==> c.start <= (#[trigger] unv@[t]) < c.start + c.length
                    && tree.nodes@[unv@[t] as int].spec_is_unvisited(),
            unv@.len() == 0 ==> forall|t: int|
                0 <= t < k ==> !(#[trigger] tree.nodes@[c.start + t]).spec_is_unvisited(),
        decreases c.length - k,
    {
        if tree.nodes[c.start + k].is_unvisited() {
            unv.push(c.start + k);
        }
        k = k + 1;
    }
    if unv.len() == 0 {
        return None;
    }
    let pi = rand_below(rng, unv.len());
    let pick = unv[pi];
    let mv = match tree.nodes[pick].last_move {
        Some(m) => m,
        None => {
            proof {
                assert(tree.nodes@[pick as int].last_move is Some);
            }
            vstd::pervasive::unreached()
        },
    };
    let next_board = board.clone_and_play(mv);
    let o_abs = match next_board.outcome() {
        Some(o) => o,
        None => random_playout(next_board, rng),
    };
    let oc = o_abs.pov(board.next_player().other());
    let ghost pre = tree.nodes@;
    bump_node(tree, pick, oc, Ghost(steps));
    proof {
        lemma_sfc_same_solution(pre, tree.nodes@, pick as int);
    }
    Some((oc, pick))
}

/// The first child of `c` with the highest selection score.
fn select_child<M: Copy>(
    nodes: &Vec<Node<M>>,
    c: IdxRange,
    parent_visits: u64,
    exploration_weight: u64,
    heuristic_val: i64,
    Ghost(steps): Ghost<nat>,
) -> (best: usize)
    requires
        tree_structure(nodes@),
        visit_bounds(nodes@, steps),
        steps < u64::MAX,
        c.start + c.length <= nodes@.len(),
        c.length >= 1,
        exploration_weight <= EXPLORATION_MAX,
        -HEURISTIC_MAX <= heuristic_val <= HEURISTIC_MAX,
        forall|t: int| 0 <= t < c.length ==> !(#[trigger] nodes@[c.start + t]).spec_is_unvisited(),
    ensures
        c.start <= best < c.start + c.length,
{
    proof {
        assert(!(nodes@[c.start + 0]).spec_is_unvisited());
    }
    let n = nodes.len();
    let mut best: usize = c.start;
    let mut best_score: i64 = uct_heuristic(
        &nodes[c.start],
        parent_visits,
        exploration_weight,
        heuristic_val,
    );
    let mut k2: usize = 1;
    while k2 < c.length
        invariant
            1 <= k2 <= c.length,
            tree_structure(nodes@),
            visit_bounds(nodes@, steps),
            steps < u64::MAX,
            exploration_weight <= EXPLORATION_MAX,
            -HEURISTIC_MAX <= heuristic_val <= HEURISTIC_MAX,
            c.start + c.length <= nodes@.len(),
            n == nodes@.len(),
            c.start <= best < c.start + c.length,
            forall|t: int|
                0 <= t < c.length ==> !(#[trigger] nodes@[c.start + t]).spec_is_unvisited(),
        decreases c.length - k2,
    {
        proof {
            assert(!(nodes@[c.start + k2]).spec_is_unvisited());
        }
        let sc = uct_heuristic(
            &nodes[c.start + k2],
            parent_visits,
            exploration_weight,
            heuristic_val,
        );
        if sc > best_score {
            best = c.start + k2;
            best_score = sc;
        }
        k2 = k2 + 1;
    }
    best
}

/// Expand an unexpanded node: append one child per legal move of its
/// position (terminal children born solved from their own mover's side),
/// record the child range, and attempt exact solving over the children's
/// outcomes. Returns the solved outcome when the node solved on the spot
/// (marking counted as a visit), and the child range.
/// Append one child node per legal move of `board` — terminal children born
/// solved with their position's outcome from their own mover's side — and
/// record the fresh range in node `curr`.
#[verifier::rlimit(100)]
#[verifier::spinoff_prover]
fn append_children<M: Copy, B: Position<M>>(
    tree: &mut Tree<B, M>,
    curr: usize,
    board: &B,
    Ghost(steps): Ghost<nat>,
) -> (range: IdxRange)
    requires
        tree_structure(old(tree).nodes@),
        visit_bounds(old(tree).nodes@, steps),
        child_sums_ok(old(tree).nodes@),
        solved_from_children(old(tree).nodes@),
        (curr as int) < old(tree).nodes@.len(),
        old(tree).nodes@[curr as int].kind is Estimate,
        old(tree).nodes@[curr as int].children is None,
        board.spec_moves().len() >= 1,
    ensures
        final(tree).root_board == old(tree).root_board,
        tree_structure(final(tree).nodes@),
        nodes_grow(old(tree).nodes@, final(tree).nodes@),
        visit_bounds(final(tree).nodes@, steps),
        child_sums_ok(final(tree).nodes@),
        solved_from_children(final(tree).nodes@),
        final(tree).nodes@[curr as int].children == Some(range),
        wf_range(range, curr as int, final(tree).nodes@.len() as int),
        range.start == old(tree).nodes@.len(),
        range.length == board.spec_moves().len(),
        final(tree).nodes@[curr as int].last_move == old(tree).nodes@[curr as int].last_move,
        final(tree).nodes@[curr as int].kind == old(tree).nodes@[curr as int].kind,
        final(tree).nodes@[curr as int].visits == old(tree).nodes@[curr as int].visits,
        forall|x: int|
            0 <= x < old(tree).nodes@.len() && x != curr ==> #[trigger] final(tree).nodes@[x]
                == old(tree).nodes@[x],
        children_match_board(final(tree).nodes@, range, *board),
        children_solved_iff_terminal(final(tree).nodes@, range, *board),
        flipped_sols(final(tree).nodes@, range) =~= spec_one_ply_sols(*board),
        forall|t: int|
            0 <= t < range.length ==> ((#[trigger] final(tree).nodes@[range.start + t]).kind
                is Estimate ==> final(tree).nodes@[range.start + t].spec_is_unvisited()),
{
    let ghost orig = tree.nodes@;
    let ms = board.moves();
    let start = tree.nodes.len();
    let mover = board.next_player();
    let mut idx: usize = 0;
    while idx < ms.len()
        invariant
            tree.nodes@.len() == start + idx,
            idx <= ms@.len(),
            start == orig.len(),
            tree.nodes@.subrange(0, start as int) == orig,
            forall|k: int|
                0 <= k < idx ==> ((#[trigger] tree.nodes@[start + k]).last_move == Some(ms@[k])
                    && tree.nodes@[start + k].visits == 0 && tree.nodes@[start + k].children
                    is None),
            forall|k: int|
                0 <= k < idx ==> ((#[trigger] tree.nodes@[start + k]).kind matches
                SNodeKind::Estimate(w) ==> w == (WDL { win: 0, draw: 0, loss: 0 })),
            forall|k: int|
                0 <= k < idx ==> ((#[trigger] tree.nodes@[start + k]).kind == (
                match board.spec_play(ms@[k]).spec_outcome() {
                    Some(o) => SNodeKind::Solved(o.spec_pov(board.spec_player().spec_other())),
                    None => SNodeKind::Estimate(WDL { win: 0, draw: 0, loss: 0 }),
                })),
            tree.root_board == old(tree).root_board,
            ms@ == board.spec_moves(),
            mover == board.spec_player(),
        decreases ms@.len() - idx,
    {
        let ghost pre = tree.nodes@;
        let m = ms[idx];
        let nb = board.clone_and_play(m);
        let o = nb.outcome();
        let oc = match o {
            None => None,
            Some(out) => Some(out.pov(mover.other())),
        };
        tree.nodes.push(Node::new_node(Some(m), oc));
        proof {
            assert(tree.nodes@.subrange(0, start as int) =~= pre.subrange(0, start as int));
            assert(forall|k: int|
                0 <= k < idx ==> #[trigger] tree.nodes@[start + k] == pre[start + k]);
        }
        idx = idx + 1;
    }
    // the grown arena length fits in usize
    let total = tree.nodes.len();
    let range = IdxRange { start, length: ms.len() };
    let n2 = tree.nodes[curr];
    proof {
        assert(tree.nodes@[curr as int] == tree.nodes@.subrange(0, start as int)[curr as int]);
        assert(n2 == orig[curr as int]);
    }
    let ghost after_push = tree.nodes@;
    tree.nodes[curr] = Node { children: Some(range), ..n2 };
    let ghost exp = tree.nodes@;
    proof {
        // the expanded arena is well formed, only grown, and all child sums
        // are intact
        lemma_expansion_ok(orig, after_push, exp, curr as int, ms@.len() as int, steps);
        assert(forall|x: int|
            0 <= x < exp.len() && x != curr ==> #[trigger] exp[x] == after_push[x]);
        // the fresh children keep their birth state, which mirrors the
        // position's moves and their one-ply outcomes exactly
        assert forall|k: int| 0 <= k < range.length implies ((#[trigger] exp[range.start
            + k]).last_move == Some(board.spec_moves()[k]) && exp[range.start + k].kind == (
        match board.spec_play(board.spec_moves()[k]).spec_outcome() {
            Some(o) => SNodeKind::Solved(o.spec_pov(board.spec_player().spec_other())),
            None => SNodeKind::Estimate(WDL { win: 0, draw: 0, loss: 0 }),
        }) && (exp[range.start + k].kind is Estimate ==> exp[range.start
            + k].spec_is_unvisited())) by {
            assert(exp[range.start + k] == after_push[range.start + k]);
        }
        lemma_birth_children(exp, range, *board);
    }
    range
}

#[verifier::rlimit(100)]
#[verifier::spinoff_prover]
fn expand_node<M: Copy, B: Position<M>>(
    tree: &mut Tree<B, M>,
    curr: usize,
    board: &B,
    Ghost(steps): Ghost<nat>,
    Ghost(path): Ghost<Seq<usize>>,
) -> (r: (Option<OutcomeWDL>, IdxRange))
    requires
        tree_structure(old(tree).nodes@),
        visit_bounds(old(tree).nodes@, steps),
        child_sums_ok(old(tree).nodes@),
        solved_from_children(old(tree).nodes@),
        steps < u64::MAX,
        (curr as int) < old(tree).nodes@.len(),
        old(tree).nodes@[curr as int].kind is Estimate,
        old(tree).nodes@[curr as int].children is None,
        path_links(old(tree).nodes@, path, curr as int),
        forall|k: int| 0 <= k < path.len() ==> (#[trigger] path[k]) < curr,
        forall|k: int|
            0 <= k < path.len() ==> old(tree).nodes@[#[trigger] path[k] as int].kind is Estimate,
    ensures
        final(tree).root_board == old(tree).root_board,
        tree_structure(final(tree).nodes@),
        solved_from_children(final(tree).nodes@),
        nodes_grow(old(tree).nodes@, final(tree).nodes@),
        visit_bounds(final(tree).nodes@, steps + 1),
        final(tree).nodes@[curr as int].children == Some(r.1),
        wf_range(r.1, curr as int, final(tree).nodes@.len() as int),
        final(tree).nodes@[curr as int].last_move == old(tree).nodes@[curr as int].last_move,
        forall|x: int|
            0 <= x < old(tree).nodes@.len() && x != curr ==> #[trigger] final(tree).nodes@[x]
                == old(tree).nodes@[x],
        path_links(final(tree).nodes@, path, curr as int),
        children_match_board(final(tree).nodes@, r.1, *board),
        r.0 == OutcomeWDL::spec_best_of(spec_one_ply_sols(*board)),
        r.0 is Some ==> children_solved_iff_terminal(final(tree).nodes@, r.1, *board),
        r.0 matches Some(out) ==> (final(tree).nodes@[curr as int].kind == SNodeKind::Solved(out)
            && final(tree).nodes@[curr as int].visits == old(tree).nodes@[curr as int].visits + 1
            && child_sums_slack(final(tree).nodes@, path, path.len() as int)),
        r.0 is None ==> (final(tree).nodes@[curr as int].kind == old(
            tree,
        ).nodes@[curr as int].kind && final(tree).nodes@[curr as int].visits == old(
            tree,
        ).nodes@[curr as int].visits && child_sums_ok(final(tree).nodes@) && visit_bounds(
            final(tree).nodes@,
            steps,
        ) && r.1.length >= 1 && some_child_unvisited(final(tree).nodes@, r.1)),
        curr == 0 ==> root_children_match(final(tree).nodes@, board.spec_moves()),
{
    let ghost orig = tree.nodes@;
    let ms = board.moves();
    if ms.len() == 0 {
        // no move to choose from: the best of nothing is a loss
        let range = expand_terminal(tree, curr, Ghost(steps), Ghost(path));
        proof {
            if curr == 0 {
                assert(board.spec_moves().len() == 0);
                assert(root_children_match(tree.nodes@, board.spec_moves()));
            }
            assert(spec_one_ply_sols(*board) =~= Seq::<Option<OutcomeWDL>>::empty());
            assert(OutcomeWDL::spec_best_of(spec_one_ply_sols(*board)) == Some(OutcomeWDL::Loss));
            // an empty child range matches the empty move list trivially
            reveal(children_match_board);
            reveal(children_solved_iff_terminal);
        }
        return (Some(OutcomeWDL::Loss), range);
    }
    let range = append_children(tree, curr, board, Ghost(steps));
    let ghost exp = tree.nodes@;
    proof {
        // no node of the path was touched, so its links survive
        assert forall|k3: int| 0 <= k3 < path.len() implies (
        #[trigger] exp[path[k3] as int]).children == orig[path[k3] as int].children by {
            assert(path[k3] < curr);
            assert(exp[path[k3] as int] == orig[path[k3] as int]);
        }
        lemma_links_preserved(orig, exp, path, curr as int);
        assert forall|k3: int| 0 <= k3 < path.len() implies exp[#[trigger] path[k3] as int].kind
            is Estimate by {
            assert(exp[path[k3] as int] == orig[path[k3] as int]);
        }
        // when the root was just expanded, its children mirror the moves
        if curr == 0 {
            lemma_cmb_root_match(exp, range, *board);
        }
    }
    let solved = solve_expanded(tree, curr, range, Ghost(steps), Ghost(path));
    proof {
        lemma_nodes_grow_trans(orig, exp, tree.nodes@);
        assert(solved == OutcomeWDL::spec_best_of(spec_one_ply_sols(*board)));
        // solving touched only this node, never its children
        if solved is Some {
            assert(tree.nodes@ =~= exp.update(curr as int, tree.nodes@[curr as int]));
            lemma_cmb_preserved(exp, tree.nodes@, curr as int, range, *board);
            lemma_csit_preserved(exp, tree.nodes@, curr as int, range, *board);
        }
        if curr == 0 && solved is Some {
            assert(tree.nodes@ =~= exp.update(curr as int, tree.nodes@[curr as int]));
            lemma_root_match_preserved(exp, tree.nodes@, curr as int, board.spec_moves());
        }
        if solved is None {
            assert(tree.nodes@ == exp);
            assert(tree.nodes@[curr as int].kind == orig[curr as int].kind);
            assert(tree.nodes@[curr as int].visits == orig[curr as int].visits);
            assert(child_sums_ok(tree.nodes@));
            assert(visit_bounds(tree.nodes@, steps));
            assert(range.length >= 1);
        }
    }
    (solved, range)
}

/// After a playout was recorded at a picked child: the path extended by the
/// current node keeps its links, order and child-sum slack.
proof fn lemma_after_pick<M>(
    a: Seq<Node<M>>,
    b: Seq<Node<M>>,
    path_new: Seq<usize>,
    curr: usize,
    pick: usize,
)
    requires
        tree_structure(a),
        tree_structure(b),
        child_sums_ok(a),
        path_new.len() >= 1,
        path_new[path_new.len() - 1] == curr,
        path_links(a, path_new.drop_last(), curr as int),
        forall|k: int| 0 <= k < path_new.len() - 1 ==> (#[trigger] path_new[k]) < curr,
        (curr as int) < a.len(),
        (pick as int) < a.len(),
        b == a.update(pick as int, b[pick as int]),
        b[pick as int].kind is Estimate,
        b[pick as int].children == a[pick as int].children,
        b[pick as int].visits == a[pick as int].visits + 1,
        a[pick as int].kind is Estimate,
        in_children(a, curr as int, pick as int),
        path_new.len() == 1 ==> curr == 0,
    ensures
        child_sums_slack(b, path_new, path_new.len() as int),
        path_links(b, path_new, pick as int),
        forall|k: int| 0 <= k < path_new.len() ==> (#[trigger] path_new[k]) < pick,
{
    let path_old = path_new.drop_last();
    assert(path_old.push(curr) =~= path_new);
    lemma_bottom_bump_slack(a, b, path_new, pick);
    assert(forall|x: int|
        0 <= x < a.len() ==> (#[trigger] b[x]).children == a[x].children);
    lemma_links_push(a, b, path_old, curr, pick as int);
    assert(wf_range(a[curr as int].children.unwrap(), curr as int, a.len() as int));
    assert((curr as int) < pick as int);
    assert forall|k: int| 0 <= k < path_new.len() implies (#[trigger] path_new[k]) < pick by {
        if k < path_new.len() - 1 {
            assert(path_new[k] < curr);
        } else {
            assert(path_new[k] == curr);
        }
    }
}

/// Attempt exact solving of a freshly expanded node from its children's
/// outcomes: solve it when the best-of rule is determined, and otherwise
/// leave it untouched, in which case some fresh child is still unvisited.
#[verifier::rlimit(100)]
#[verifier::spinoff_prover]
fn solve_expanded<M: Copy, B>(
    tree: &mut Tree<B, M>,
    curr: usize,
    range: IdxRange,
    Ghost(steps): Ghost<nat>,
    Ghost(path): Ghost<Seq<usize>>,
) -> (r: Option<OutcomeWDL>)
    requires
        tree_structure(old(tree).nodes@),
        visit_bounds(old(tree).nodes@, steps),
        child_sums_ok(old(tree).nodes@),
        solved_from_children(old(tree).nodes@),
        steps < u64::MAX,
        (curr as int) < old(tree).nodes@.len(),
        old(tree).nodes@[curr as int].kind is Estimate,
        old(tree).nodes@[curr as int].children == Some(range),
        range.length >= 1,
        forall|t: int|
            0 <= t < range.length ==> ((#[trigger] old(tree).nodes@[range.start + t]).kind
                is Estimate ==> old(tree).nodes@[range.start + t].spec_is_unvisited()),
        path_links(old(tree).nodes@, path, curr as int),
        forall|k: int| 0 <= k < path.len() ==> (#[trigger] path[k]) < curr,
        forall|k: int|
            0 <= k < path.len() ==> old(tree).nodes@[#[trigger] path[k] as int].kind is Estimate,
    ensures
        final(tree).root_board == old(tree).root_board,
        tree_structure(final(tree).nodes@),
        solved_from_children(final(tree).nodes@),
        nodes_grow(old(tree).nodes@, final(tree).nodes@),
        final(tree).nodes@.len() == old(tree).nodes@.len(),
        final(tree).nodes@[curr as int].children == Some(range),
        final(tree).nodes@[curr as int].last_move == old(tree).nodes@[curr as int].last_move,
        forall|x: int|
            0 <= x < old(tree).nodes@.len() && x != curr ==> #[trigger] final(tree).nodes@[x]
                == old(tree).nodes@[x],
        path_links(final(tree).nodes@, path, curr as int),
        r == OutcomeWDL::spec_best_of(flipped_sols(old(tree).nodes@, range)),
        r matches Some(out) ==> (final(tree).nodes@[curr as int].kind == SNodeKind::Solved(out)
            && final(tree).nodes@[curr as int].visits == old(tree).nodes@[curr as int].visits + 1
            && visit_bounds(final(tree).nodes@, steps + 1) && child_sums_slack(
            final(tree).nodes@,
            path,
            path.len() as int,
        )),
        r is None ==> (final(tree).nodes@ == old(tree).nodes@ && some_child_unvisited(
            final(tree).nodes@,
            range,
        )),
{
    let ghost exp = tree.nodes@;
    let sols = flipped_solutions(&tree.nodes, range);
    proof {
        assert(wf_range(range, curr as int, exp.len() as int));
        assert(sols@ =~= flipped_sols(exp, range));
    }
    match OutcomeWDL::best_of(&sols) {
        Some(out) => {
            proof {
                lemma_path_unparented(exp, path, curr as int);
            }
            solve_node(tree, curr, out, Ghost(steps));
            proof {
                lemma_sfc_solve(exp, tree.nodes@, curr as int, out);
                let b = tree.nodes@;
                if path.len() > 0 {
                    assert(in_children(exp, path[path.len() - 1] as int, curr as int));
                }
                lemma_bottom_bump_slack(exp, b, path, curr);
                assert(forall|k3: int|
                    0 <= k3 < path.len() ==> (#[trigger] b[path[k3] as int]).children
                        == exp[path[k3] as int].children);
                lemma_links_preserved(exp, b, path, curr as int);
            }
            Some(out)
        },
        None => {
            proof {
                reveal(some_child_unvisited);
                let xs = sols@;
                assert(OutcomeWDL::spec_best_of(xs) is None);
                assert(exists|t: int| 0 <= t < xs.len() && (#[trigger] xs[t]) is None);
                let t = choose|t: int| 0 <= t < xs.len() && (#[trigger] xs[t]) is None;
                assert(xs[t] == flip_solution(exp[range.start + t].spec_solution()));
                assert(exp[range.start + t].spec_is_unvisited());
                assert(some_child_unvisited(tree.nodes@, range));
            }
            None
        },
    }
}

/// Expand a node whose position offers no moves at all: it receives an empty
/// child range and is solved as a loss on the spot (the best of nothing).
#[verifier::rlimit(100)]
#[verifier::spinoff_prover]
fn expand_terminal<M: Copy, B>(
    tree: &mut Tree<B, M>,
    curr: usize,
    Ghost(steps): Ghost<nat>,
    Ghost(path): Ghost<Seq<usize>>,
) -> (range: IdxRange)
    requires
        tree_structure(old(tree).nodes@),
        visit_bounds(old(tree).nodes@, steps),
        child_sums_ok(old(tree).nodes@),
        solved_from_children(old(tree).nodes@),
        steps < u64::MAX,
        (curr as int) < old(tree).nodes@.len(),
        old(tree).nodes@[curr as int].kind is Estimate,
        old(tree).nodes@[curr as int].children is None,
        path_links(old(tree).nodes@, path, curr as int),
        forall|k: int|
            0 <= k < path.len() ==> old(tree).nodes@[#[trigger] path[k] as int].kind is Estimate,
    ensures
        final(tree).root_board == old(tree).root_board,
        tree_structure(final(tree).nodes@),
        solved_from_children(final(tree).nodes@),
        nodes_grow(old(tree).nodes@, final(tree).nodes@),
        visit_bounds(final(tree).nodes@, steps + 1),
        final(tree).nodes@.len() == old(tree).nodes@.len(),
        final(tree).nodes@[curr as int].children == Some(range),
        wf_range(range, curr as int, final(tree).nodes@.len() as int),
        range.length == 0,
        final(tree).nodes@[curr as int].last_move == old(tree).nodes@[curr as int].last_move,
        forall|x: int|
            0 <= x < old(tree).nodes@.len() && x != curr ==> #[trigger] final(tree).nodes@[x]
                == old(tree).nodes@[x],
        path_links(final(tree).nodes@, path, curr as int),
        final(tree).nodes@[curr as int].kind == SNodeKind::Solved(OutcomeWDL::Loss),
        final(tree).nodes@[curr as int].visits == old(tree).nodes@[curr as int].visits + 1,
        child_sums_slack(final(tree).nodes@, path, path.len() as int),
{
    let ghost orig = tree.nodes@;
    let start = tree.nodes.len();
    let node = tree.nodes[curr];
    let range = IdxRange { start, length: 0 };
    tree.nodes[curr] = Node {
        last_move: node.last_move,
        visits: node.visits + 1,
        children: Some(range),
        kind: SNodeKind::Solved(OutcomeWDL::Loss),
    };
    proof {
        let b = tree.nodes@;
        assert(b == orig.update(curr as int, b[curr as int]));
        assert(orig.len() <= usize::MAX) by {
            assert(start == orig.len());
        }
        lemma_path_unparented(orig, path, curr as int);
        lemma_empty_expansion_ok(orig, b, path, curr, steps);
    }
    range
}

/// Run a single search step from the root of the tree.
///
/// Returns `(result, proven)`: the step's result from the point of view of
/// the player to act at the root position, and whether that result is now
/// exactly proven. A step on an already solved root changes nothing and
/// reports the solved outcome; otherwise a proven step leaves the root
/// solved with the reported outcome, and an unproven one records exactly one
/// more root visit. Nodes are only appended, solved nodes stay solved, each
/// visit counter grows by at most one, and child-visit sums stay within
/// their parents' counts. When the step expands the root, the root's
/// children correspond one for one to the root position's legal moves.
#[verifier::rlimit(100)]
fn mcts_solver_step<M: Copy, B: Position<M>, H: Heuristic<B>>(
    tree: &mut Tree<B, M>,
    root_board: &B,
    exploration_weight: u64,
    heuristic: &H,
    rng: &mut rand::rngs::StdRng,
    Ghost(steps): Ghost<nat>,
) -> (r: (OutcomeWDL, bool))
    requires
        tree_structure(old(tree).nodes@),
        visit_bounds(old(tree).nodes@, steps),
        child_sums_ok(old(tree).nodes@),
        solved_from_children(old(tree).nodes@),
        steps < u64::MAX,
        exploration_weight <= EXPLORATION_MAX,
    ensures
        tree_structure(final(tree).nodes@),
        visit_bounds(final(tree).nodes@, steps + 1),
        child_sums_ok(final(tree).nodes@),
        solved_from_children(final(tree).nodes@),
        nodes_grow(old(tree).nodes@, final(tree).nodes@),
        final(tree).root_board == old(tree).root_board,
        old(tree).nodes@[0].kind is Solved ==> final(tree).nodes@ == old(tree).nodes@ && r.1
            && Some(r.0) == old(tree).nodes@[0].spec_solution(),
        r.1 ==> final(tree).nodes@[0].kind == SNodeKind::Solved(r.0),
        !r.1 ==> final(tree).nodes@[0].kind is Estimate && final(tree).nodes@[0].visits == old(tree).nodes@[0].visits + 1,
        old(tree).nodes@[0].kind is Estimate && old(tree).nodes@[0].children is None ==> final(tree).nodes@[0].children is Some,
        old(tree).nodes@[0].children is None && final(tree).nodes@[0].children is Some
            ==> root_children_match(final(tree).nodes@, root_board.spec_moves()),
        old(tree).nodes@[0].kind is Estimate && old(tree).nodes@[0].children is None ==> (
        final(tree).nodes@[0].children is Some && children_match_board(
            final(tree).nodes@,
            final(tree).nodes@[0].children.unwrap(),
            *root_board,
        ) && (OutcomeWDL::spec_best_of(spec_one_ply_sols(*root_board)) matches Some(out) ==> (r.1
            && r.0 == out && final(tree).nodes@[0].kind == SNodeKind::Solved(out)
            && children_solved_iff_terminal(
            final(tree).nodes@,
            final(tree).nodes@[0].children.unwrap(),
            *root_board,
        )))),
{
    let ghost orig = tree.nodes@;
    let ghost rb = tree.root_board;
    let mut curr: usize = 0;
    let mut board: B = root_board.dup();
    let mut path: Vec<usize> = Vec::new();
    let mut result: OutcomeWDL = OutcomeWDL::Draw;
    let mut proven: bool = false;
    let ghost mut bottom: int = 0;

    // selection: descend from the root; the tree is mutated only in the
    // iteration that ends the descent
    loop
        invariant_except_break
            tree.nodes@ == orig,
            tree.root_board == rb,
            tree_structure(orig),
            visit_bounds(orig, steps),
            child_sums_ok(orig),
            solved_from_children(orig),
            steps < u64::MAX,
            exploration_weight <= EXPLORATION_MAX,
            curr < orig.len(),
            path_links(orig, path@, curr as int),
            forall|k: int| 0 <= k < path@.len() ==> (#[trigger] path@[k]) < curr,
            forall|k1: int, k2: int| 0 <= k1 < k2 < path@.len() ==> path@[k1] < path@[k2],
            forall|k: int|
                0 <= k < path@.len() ==> orig[#[trigger] path@[k] as int].kind is Estimate,
            curr == 0 ==> board == *root_board,
            orig[0].children is None ==> curr == 0 && path@.len() == 0,
        ensures
            tree_structure(tree.nodes@),
            nodes_grow(orig, tree.nodes@),
            tree.root_board == rb,
            visit_bounds(tree.nodes@, steps + 1),
            solved_from_children(tree.nodes@),
            0 <= bottom < tree.nodes@.len(),
            path_links(tree.nodes@, path@, bottom),
            forall|k: int| 0 <= k < path@.len() ==> (#[trigger] path@[k]) < bottom,
            forall|k1: int, k2: int| 0 <= k1 < k2 < path@.len() ==> path@[k1] < path@[k2],
            forall|k: int|
                0 <= k < path@.len() ==> ((#[trigger] path@[k] as int) < orig.len()
                    && tree.nodes@[path@[k] as int].kind == orig[path@[k] as int].kind
                    && tree.nodes@[path@[k] as int].visits == orig[path@[k] as int].visits
                    && orig[path@[k] as int].kind is Estimate),
            child_sums_slack(tree.nodes@, path@, path@.len() as int),
            proven ==> tree.nodes@[bottom].kind == SNodeKind::Solved(result),
            !proven ==> path@.len() > 0,
            path@.len() == 0 ==> bottom == 0,
            orig[0].kind is Solved ==> (tree.nodes@ == orig && proven && Some(result) == orig[0].spec_solution()
                && path@.len() == 0),
            (orig[0].children is None && tree.nodes@[0].children is Some)
                ==> root_children_match(tree.nodes@, root_board.spec_moves()),
            (orig[0].kind is Estimate && orig[0].children is None) ==> tree.nodes@[0].children
                is Some,
            (orig[0].kind is Estimate && orig[0].children is None) ==> (tree.nodes@[0].children
                is Some && children_match_board(
                tree.nodes@,
                tree.nodes@[0].children.unwrap(),
                *root_board,
            ) && (OutcomeWDL::spec_best_of(spec_one_ply_sols(*root_board)) matches Some(out) ==> (
            proven && result == out && tree.nodes@[0].kind == SNodeKind::Solved(out) && path@.len()
                == 0 && children_solved_iff_terminal(
                tree.nodes@,
                tree.nodes@[0].children.unwrap(),
                *root_board,
            )))),
        decreases orig.len() - curr,
    {
        proof {
            if path@.len() > 0 {
                assert(in_children(
                    orig,
                    path@[0] as int,
                    if path@.len() == 1 {
                        curr as int
                    } else {
                        path@[1] as int
                    },
                ));
                assert(orig[0].children is Some);
                assert(orig[path@[0] as int].kind is Estimate);
            }
        }
        let node = tree.nodes[curr];
        match node.kind {
            SNodeKind::Solved(o) => {
                // an already solved subtree returns its outcome at once
                result = o;
                proven = true;
                proof {
                    bottom = curr as int;
                    lemma_ok_gives_slack(tree.nodes@, path@, path@.len() as int);
                }
                break ;
            },
            SNodeKind::Estimate(_) => {},
        }
        let c: IdxRange;
        match node.children {
            Some(c0) => {
                c = c0;
                proof {
                    assert(wf_range(c0, curr as int, orig.len() as int));
                    assert(c0.length >= 1);
                }
            },
            None => {
                // expansion: append one child per legal move, then attempt
                // exact solving over the fresh children
                let er = expand_node(tree, curr, &board, Ghost(steps), Ghost(path@));
                match er.0 {
                    Some(out) => {
                        // the node solved on the spot
                        result = out;
                        proven = true;
                        proof {
                            bottom = curr as int;
                            if orig[0].children is None {
                                assert(curr == 0 && board == *root_board);
                                assert(tree.nodes@[0].children == Some(er.1));
                                assert(children_match_board(tree.nodes@, er.1, *root_board));
                                assert(children_solved_iff_terminal(tree.nodes@, er.1, *root_board));
                            }
                        }
                        break ;
                    },
                    None => {},
                }
                let ghost exp = tree.nodes@;
                // some child is still unknown and, being fresh, unvisited
                let picked = try_unvisited(tree, curr, er.1, &board, rng, Ghost(steps));
                let (oc, pick) = match picked {
                    Some(p) => p,
                    None => {
                        proof {
                            reveal(some_child_unvisited);
                            assert(false);
                        }
                        return vstd::pervasive::unreached();
                    },
                };
                proof {
                    lemma_sorted_push(path@, curr);
                }
                path.push(curr);
                result = oc;
                proven = false;
                proof {
                    bottom = pick as int;
                    let b = tree.nodes@;
                    assert(path@.drop_last() =~= path@.drop_last());
                    assert(path@.drop_last().push(curr) =~= path@);
                    lemma_after_pick(exp, b, path@, curr, pick);
                    if curr == 0 {
                        lemma_root_match_preserved(exp, b, pick as int, root_board.spec_moves());
                    }
                    assert(orig[0].children is None && b[0].children is Some ==> curr == 0);
                    if orig[0].children is None {
                        assert(curr == 0 && board == *root_board);
                        assert(pick != 0);
                        assert(b[0].children == Some(er.1));
                        lemma_cmb_preserved(exp, b, pick as int, er.1, *root_board);
                        assert(OutcomeWDL::spec_best_of(spec_one_ply_sols(*root_board)) is None);
                    }
                }
                break ;
            },
        }
        // all children visited: descend into the child with the best
        // selection score, ties to the first
        let picked = try_unvisited(tree, curr, c, &board, rng, Ghost(steps));
        if let Some((oc, pick)) = picked {
            // an unvisited child gets a random playout recorded first
            proof {
                lemma_sorted_push(path@, curr);
            }
            path.push(curr);
            result = oc;
            proven = false;
            proof {
                bottom = pick as int;
                let b = tree.nodes@;
                assert(path@.drop_last().push(curr) =~= path@);
                lemma_after_pick(orig, b, path@, curr, pick);
                assert(orig[0].children is None ==> curr == 0 && b[0].children is None);
            }
            break ;
        }
        // selection by score
        let h = heuristic.value(&board, 0);
        let parent_visits = node.visits;
        proof {
            assert(c.length >= 1);
        }
        let best = select_child(
            &tree.nodes,
            c,
            parent_visits,
            exploration_weight,
            h,
            Ghost(steps),
        );
        let mv = match tree.nodes[best].last_move {
            Some(m) => m,
            None => vstd::pervasive::unreached(),
        };
        proof {
            assert(in_children(orig, curr as int, best as int));
            assert(forall|k3: int| 0 <= k3 < path@.len() ==> (#[trigger] path@[k3]) < curr);
            lemma_sorted_push(path@, curr);
        }
        path.push(curr);
        board = board.clone_and_play(mv);
        curr = best;
    }

    // backpropagation: flip the result one ply per level, re-attempt exact
    // solving where the result below was proven, and record a visit where it
    // was not
    let ghost mid = tree.nodes@;
    let mut j: usize = path.len();
    proof {
        if path@.len() == 0 {
            assert(bottom == 0);
        }
    }
    while j > 0
        invariant
            j <= path@.len(),
            tree_structure(tree.nodes@),
            nodes_grow(orig, tree.nodes@),
            tree.root_board == rb,
            visit_bounds(tree.nodes@, steps + 1),
            steps < u64::MAX,
            tree_structure(orig),
            visit_bounds(orig, steps),
            0 <= bottom < tree.nodes@.len(),
            path_links(tree.nodes@, path@, bottom),
            forall|k: int| 0 <= k < path@.len() ==> (#[trigger] path@[k]) < bottom,
            forall|k1: int, k2: int|
                0 <= k1 < k2 < path@.len() ==> path@[k1] < path@[k2],
            forall|k: int|
                0 <= k < j ==> ((#[trigger] path@[k] as int) < orig.len()
                    && tree.nodes@[path@[k] as int].kind == orig[path@[k] as int].kind
                    && tree.nodes@[path@[k] as int].visits == orig[path@[k] as int].visits
                    && orig[path@[k] as int].kind is Estimate),
            child_sums_slack(tree.nodes@, path@, j as int),
            solved_from_children(tree.nodes@),
            j == 0 ==> ((proven ==> tree.nodes@[0].kind == SNodeKind::Solved(result)) && (!proven
                ==> tree.nodes@[0].kind is Estimate && tree.nodes@[0].visits == orig[0].visits
                + 1)),
            path@.len() == 0 ==> (j == 0 && proven && tree.nodes@ == mid),
            !proven ==> path@.len() > 0,
            (orig[0].children is None && tree.nodes@[0].children is Some)
                ==> root_children_match(tree.nodes@, root_board.spec_moves()),
            (orig[0].kind is Estimate && orig[0].children is None) ==> tree.nodes@[0].children
                is Some,
            (orig[0].kind is Estimate && orig[0].children is None) ==> children_match_board(
                tree.nodes@,
                tree.nodes@[0].children.unwrap(),
                *root_board,
            ),
            (orig[0].kind is Estimate && orig[0].children is None) ==> (OutcomeWDL::spec_best_of(
                spec_one_ply_sols(*root_board),
            ) matches Some(out) ==> (path@.len() == 0 && proven && result == out
                && tree.nodes@[0].kind == SNodeKind::Solved(out) && children_solved_iff_terminal(
                tree.nodes@,
                tree.nodes@[0].children.unwrap(),
                *root_board,
            ))),
        decreases j,
    {
        j = j - 1;
        let i = path[j];
        result = result.flip();
        let ghost before = tree.nodes@;
        proof {
            assert(before[i as int].kind is Estimate);
            assert(before[i as int].visits <= steps);
            if j >= 1 {
                assert(in_children(before, path@[j as int - 1] as int, path@[j as int] as int));
            }
            assert(in_children(
                before,
                i as int,
                if j == path@.len() - 1 {
                    bottom
                } else {
                    path@[j as int + 1] as int
                },
            ));
        }
        proof {
            lemma_backprop_unparented(before, path@, bottom, j as int);
        }
        let rp = backprop_node(tree, i, result, proven, Ghost(steps));
        result = rp.0;
        proven = rp.1;
        proof {
            let b = tree.nodes@;
            lemma_nodes_grow_trans(orig, before, b);
            lemma_slack_after_bump(before, b, path@, j as int, i as int);
            assert(forall|k2: int|
                0 <= k2 < path@.len() ==> (#[trigger] b[path@[k2] as int]).children
                    == before[path@[k2] as int].children);
            lemma_links_preserved(before, b, path@, bottom);
            assert forall|k: int| 0 <= k < j implies ((#[trigger] path@[k] as int) < orig.len()
                && b[path@[k] as int].kind == orig[path@[k] as int].kind && b[path@[k] as int].visits
                == orig[path@[k] as int].visits && orig[path@[k] as int].kind is Estimate) by {
                assert(path@[k] < path@[j as int]);
                assert(b[path@[k] as int] == before[path@[k] as int]);
            }
            if j == 0 {
                assert(path@[0] == 0);
                assert(i == 0);
            }
            if orig[0].children is None && b[0].children is Some {
                assert(b[0].children == before[0].children);
                lemma_root_match_preserved(before, b, i as int, root_board.spec_moves());
            }
            if orig[0].kind is Estimate && orig[0].children is None {
                assert(b[0].children == before[0].children);
                lemma_cmb_preserved(
                    before,
                    b,
                    i as int,
                    before[0].children.unwrap(),
                    *root_board,
                );
            }
        }
    }
    proof {
        lemma_slack_zero_is_ok(tree.nodes@, path@);
        if path@.len() > 0 {
            assert(path@[0] == 0);
            assert(orig[0].kind is Estimate);
        }
        if orig[0].kind is Solved {
            assert(path@.len() == 0 && tree.nodes@ == mid && mid == orig);
        }
    }
    (result, proven)
}

/// The root-children correspondence survives any number of search steps:
/// nodes are only appended and keep their moves and assigned ranges.
proof fn lemma_root_match_grow<M>(a: Seq<Node<M>>, b: Seq<Node<M>>, ms: Seq<M>)
    requires
        tree_structure(a),
        root_children_match(a, ms),
        nodes_grow(a, b),
        a.len() >= 1,
    ensures
        root_children_match(b, ms),
{
    let c = a[0].children.unwrap();
    assert(wf_range(c, 0, a.len() as int));
    assert(b[0].children == a[0].children);
    assert forall|k: int| 0 <= k < ms.len() implies (#[trigger] b[c.start + k]).last_move == Some(
        ms[k],
    ) by {
        assert(b[c.start + k].last_move == a[c.start + k].last_move);
    }
}

/// Build a search tree for `root_board`: initialize the root (pre-solved
/// when the position is already finished, in which case no search step runs
/// and the arena stays a single never-visited node), then run search steps
/// up to the iteration budget, stopping early once the root is solved. When
/// the root comes back an estimate, every iteration ran and recorded exactly
/// one root visit; when the root position was playable, the root's children
/// correspond one for one to its legal moves, with terminal children solved
/// as their position's outcome. Every solved node is justified by the exact
/// solving rule over its children; in particular, when one ply of play
/// already decides the position — a winning move on the board, or every move
/// ending the game — the root comes back solved with exactly that outcome,
/// whatever the random source did.
pub fn mcts_build_tree<M: Copy, B: Position<M>, H: Heuristic<B>>(
    root_board: &B,
    iterations: u64,
    exploration_weight: u64,
    heuristic: &H,
    rng: &mut rand::rngs::StdRng,
) -> (t: Tree<B, M>)
    requires
        iterations >= 1,
        exploration_weight <= EXPLORATION_MAX,
    ensures
        t.root_board == *root_board,
        tree_structure(t.nodes@),
        visit_bounds(t.nodes@, iterations as nat),
        child_sums_ok(t.nodes@),
        solved_from_children(t.nodes@),
        root_board.spec_outcome() matches Some(o) ==> (t.nodes@.len() == 1 && t.nodes@[0].children
            is None && t.nodes@[0].visits == 0 && t.nodes@[0].kind == SNodeKind::Solved(
            o.spec_pov(root_board.spec_player()),
        )),
        t.nodes@[0].kind is Estimate ==> t.nodes@[0].visits == iterations,
        root_board.spec_outcome() is None ==> (t.nodes@[0].children is Some
            && root_children_match(t.nodes@, root_board.spec_moves())
            && t.nodes@[0].children.unwrap().length == root_board.spec_moves().len()
            && root_board.spec_moves().len() >= 1),
        root_board.spec_outcome() is None ==> children_match_board(
            t.nodes@,
            t.nodes@[0].children.unwrap(),
            *root_board,
        ),
        root_board.spec_outcome() is None ==> (OutcomeWDL::spec_best_of(
            spec_one_ply_sols(*root_board),
        ) matches Some(out) ==> (t.nodes@[0].kind == SNodeKind::Solved(out)
            && children_solved_iff_terminal(
            t.nodes@,
            t.nodes@[0].children.unwrap(),
            *root_board,
        ))),
{
    let mut tree: Tree<B, M> = Tree::new(root_board.dup());
    let root_outcome = match root_board.outcome() {
        None => None,
        Some(o) => Some(o.pov(root_board.next_player())),
    };
    tree.nodes.push(Node::new_node(None, root_outcome));
    let ghost init = tree.nodes@;
    proof {
        reveal(crate::tree::ranges_disjoint_all);
        reveal(crate::tree::child_sums_ok);
        reveal(solved_from_children);
        assert(init.len() == 1);
        assert(tree_structure(init));
        assert(visit_bounds(init, 0nat));
        assert(child_sums_ok(init));
        assert(solved_from_children(init));
    }
    let mut it: u64 = 0;
    while it < iterations
        invariant_except_break
            it <= iterations,
            iterations >= 1,
            exploration_weight <= EXPLORATION_MAX,
            init.len() == 1,
            init[0].children is None,
            init[0].visits == 0,
            root_board.spec_outcome() matches Some(o) ==> init[0].kind == SNodeKind::Solved(
                o.spec_pov(root_board.spec_player()),
            ),
            root_board.spec_outcome() is None ==> init[0].kind is Estimate,
            tree.root_board == *root_board,
            tree_structure(tree.nodes@),
            visit_bounds(tree.nodes@, it as nat),
            child_sums_ok(tree.nodes@),
            it == 0 ==> tree.nodes@ == init,
            root_board.spec_outcome() matches Some(o) ==> tree.nodes@ == init,
            tree.nodes@[0].kind is Estimate ==> tree.nodes@[0].visits == it,
            root_board.spec_outcome() is None && it >= 1 ==> tree.nodes@[0].children is Some,
            tree.nodes@[0].children is Some ==> root_children_match(
                tree.nodes@,
                root_board.spec_moves(),
            ),
            solved_from_children(tree.nodes@),
            root_board.spec_outcome() is None && it >= 1 ==> children_match_board(
                tree.nodes@,
                tree.nodes@[0].children.unwrap(),
                *root_board,
            ),
            root_board.spec_outcome() is None && it >= 1 ==> (OutcomeWDL::spec_best_of(
                spec_one_ply_sols(*root_board),
            ) matches Some(out) ==> (tree.nodes@[0].kind == SNodeKind::Solved(out)
                && children_solved_iff_terminal(
                tree.nodes@,
                tree.nodes@[0].children.unwrap(),
                *root_board,
            ))),
        ensures
            tree.root_board == *root_board,
            tree_structure(tree.nodes@),
            visit_bounds(tree.nodes@, iterations as nat),
            child_sums_ok(tree.nodes@),
            solved_from_children(tree.nodes@),
            root_board.spec_outcome() matches Some(o) ==> tree.nodes@ == init,
            tree.nodes@[0].kind is Estimate ==> tree.nodes@[0].visits == iterations,
            root_board.spec_outcome() is None ==> tree.nodes@[0].children is Some,
            tree.nodes@[0].children is Some ==> root_children_match(
                tree.nodes@,
                root_board.spec_moves(),
            ),
            root_board.spec_outcome() is None ==> children_match_board(
                tree.nodes@,
                tree.nodes@[0].children.unwrap(),
                *root_board,
            ),
            root_board.spec_outcome() is None ==> (OutcomeWDL::spec_best_of(
                spec_one_ply_sols(*root_board),
            ) matches Some(out) ==> (tree.nodes@[0].kind == SNodeKind::Solved(out)
                && children_solved_iff_terminal(
                tree.nodes@,
                tree.nodes@[0].children.unwrap(),
                *root_board,
            ))),
        decreases iterations - it,
    {
        // once the root is solved, the search is done
        let done = tree.nodes[0].solution();
        if done.is_some() {
            proof {
                if root_board.spec_outcome() is None && it == 0 {
                    assert(tree.nodes@ == init);
                    assert(init[0].kind is Estimate);
                    assert(false);
                }
                if tree.nodes@[0].kind is Estimate {
                    assert(false);
                }
                assert(visit_bounds(tree.nodes@, iterations as nat)) by {
                    assert(forall|i: int|
                        0 <= i < tree.nodes@.len() ==> (#[trigger] tree.nodes@[i]).visits
                            <= it <= iterations);
                }
            }
            break ;
        }
        let ghost before = tree.nodes@;
        mcts_solver_step(&mut tree, root_board, exploration_weight, heuristic, rng, Ghost(it as nat));
        it = it + 1;
        proof {
            if root_board.spec_outcome() matches Some(o) {
                assert(before == init);
                assert(init[0].kind is Solved);
                assert(false);
            }
            if before[0].children is Some {
                lemma_root_match_grow(before, tree.nodes@, root_board.spec_moves());
            }
            assert(before[0].kind is Estimate);
            if before[0].children is Some {
                // the root's children and their solved kinds survive the step
                let cb = before[0].children.unwrap();
                assert(wf_range(cb, 0, before.len() as int));
                assert(children_match_board(before, cb, *root_board));
                lemma_cmb_grow(before, tree.nodes@, cb, *root_board);
                assert(tree.nodes@[0].children == before[0].children);
                if OutcomeWDL::spec_best_of(spec_one_ply_sols(*root_board)) is Some {
                    // a one-ply-determined root solves in its first step, so
                    // it could not still be an estimate here
                    let out = OutcomeWDL::spec_best_of(spec_one_ply_sols(*root_board)).unwrap();
                    assert(before[0].kind == SNodeKind::Solved(out));
                    assert(false);
                }
            }
        }
    }
    proof {
        if root_board.spec_outcome() is None {
            let c = tree.nodes@[0].children.unwrap();
            assert(root_children_match(tree.nodes@, root_board.spec_moves()));
            assert(c.length == root_board.spec_moves().len());
            root_board.moves_when_not_done();
        }
    }
    tree
}

/// The search bot: an iteration budget, an exploration weight in fixed
/// point, a static evaluator blended into the selection score, and the
/// random source that drives playouts. Given a playable position it builds a
/// fresh tree and answers with the root's best move: a proven winning move
/// if the search found one, otherwise the most visited one.
pub struct MCTSBot<B: Position<M>, M: Copy, H: Heuristic<B>> {
    iterations: u64,
    exploration_weight: u64,
    heuristic: H,
    rng: rand::rngs::StdRng,
    place_holder: core::marker::PhantomData<(B, M)>,
}

impl<B: Position<M>, M: Copy, H: Heuristic<B>> MCTSBot<B, M, H> {
    /// A usable bot: a positive budget and a bounded exploration weight.
    pub closed spec fn wf(self) -> bool {
        self.iterations >= 1 && self.exploration_weight <= EXPLORATION_MAX
    }

    /// The iteration budget.
    pub closed spec fn spec_iterations(self) -> u64 {
        self.iterations
    }

    /// The exploration weight, in fixed point.
    pub closed spec fn spec_exploration_weight(self) -> u64 {
        self.exploration_weight
    }

    /// Creates a new `MCTSBot`. The iteration budget must be positive, and
    /// the exploration weight at most [`EXPLORATION_MAX`].
    pub fn new(iterations: u64, exploration_weight: u64, heuristic: H, rng: rand::rngs::StdRng) -> (r:
        MCTSBot<B, M, H>)
        requires
            iterations >= 1,
            exploration_weight <= EXPLORATION_MAX,
        ensures
            r.spec_iterations() == iterations,
            r.spec_exploration_weight() == exploration_weight,
            r.wf(),
    {
        MCTSBot {
            iterations,
            exploration_weight,
            heuristic,
            rng,
            place_holder: core::marker::PhantomData,
        }
    }

    /// Build a search tree for `board` with this bot's configuration; see
    /// [`mcts_build_tree`].
    pub fn build_tree(&mut self, board: &B) -> (t: Tree<B, M>)
        requires
            old(self).wf(),
        ensures
            final(self).wf(),
            final(self).spec_iterations() == old(self).spec_iterations(),
            final(self).spec_exploration_weight() == old(self).spec_exploration_weight(),
            t.root_board == *board,
            tree_structure(t.nodes@),
            visit_bounds(t.nodes@, old(self).spec_iterations() as nat),
            child_sums_ok(t.nodes@),
            solved_from_children(t.nodes@),
            board.spec_outcome() matches Some(o) ==> (t.nodes@.len() == 1 && t.nodes@[0].kind
                == SNodeKind::Solved(o.spec_pov(board.spec_player())) && t.nodes@[0].visits == 0),
            t.nodes@[0].kind is Estimate ==> t.nodes@[0].visits == old(self).spec_iterations(),
            board.spec_outcome() is None ==> (t.nodes@[0].children is Some && root_children_match(
                t.nodes@,
                board.spec_moves(),
            ) && t.nodes@[0].children.unwrap().length == board.spec_moves().len()
                && board.spec_moves().len() >= 1),
            board.spec_outcome() is None ==> children_match_board(
                t.nodes@,
                t.nodes@[0].children.unwrap(),
                *board,
            ),
            board.spec_outcome() is None ==> (OutcomeWDL::spec_best_of(
                spec_one_ply_sols(*board),
            ) matches Some(out) ==> (t.nodes@[0].kind == SNodeKind::Solved(out)
                && children_solved_iff_terminal(
                t.nodes@,
                t.nodes@[0].children.unwrap(),
                *board,
            ))),
    {
        mcts_build_tree(board, self.iterations, self.exploration_weight, &self.heuristic, &mut self.rng)
    }

    /// Select a move for the player to act: build a tree and answer with the
    /// root's best move, which is always one of the position's legal moves.
    /// The position must not be finished. The answer is the move of the tree's
    /// best root child (a proven winning child first, otherwise the most
    /// visited one; see [`spec_best_child`]); in particular, when some legal
    /// move wins the game on the spot, the answer is such a move, whatever
    /// moves the random playouts drew.
    pub fn select_move(&mut self, board: &B) -> (r: M)
        requires
            old(self).wf(),
            board.spec_outcome() is None,
        ensures
            final(self).wf(),
            final(self).spec_iterations() == old(self).spec_iterations(),
            final(self).spec_exploration_weight() == old(self).spec_exploration_weight(),
            board.spec_moves().contains(r),
            OutcomeWDL::spec_best_of(spec_one_ply_sols(*board)) == Some(OutcomeWDL::Win)
                ==> board.spec_play(r).spec_outcome() == Some(
                Outcome::WonBy(board.spec_player()),
            ),
            exists|ns: Seq<Node<M>>|
                (#[trigger] tree_structure(ns)) && visit_bounds(
                    ns,
                    old(self).spec_iterations() as nat,
                ) && child_sums_ok(ns) && solved_from_children(ns) && ns[0].children is Some
                    && children_match_board(ns, ns[0].children.unwrap(), *board) && Some(r)
                    == ns[spec_best_child(ns, ns[0].children.unwrap())].last_move,
    {
        let tree = self.build_tree(board);
        let ghost ms = board.spec_moves();
        let ghost c = tree.nodes@[0].children.unwrap();
        let best = tree.best_child();
        let r = match tree.nodes[best].last_move {
            Some(m) => m,
            None => vstd::pervasive::unreached(),
        };
        proof {
            let k = best - c.start;
            assert(tree.nodes@[c.start + k].last_move == Some(ms[k]));
            assert(ms[k] == r);
            assert(ms.contains(r));
            if OutcomeWDL::spec_best_of(spec_one_ply_sols(*board)) == Some(OutcomeWDL::Win) {
                // some move wins on the spot, so its child was born solved as
                // a loss for its own mover, the search proved the root at its
                // first expansion, and the win-child scan answers with such a
                // child
                reveal(children_match_board);
                reveal(children_solved_iff_terminal);
                let ops = spec_one_ply_sols(*board);
                assert(exists|i: int| 0 <= i < ops.len() && ops[i] == Some(OutcomeWDL::Win));
                let i = choose|i: int| 0 <= i < ops.len() && ops[i] == Some(OutcomeWDL::Win);
                assert(board.spec_play(ms[i]).spec_outcome() is Some);
                let o = board.spec_play(ms[i]).spec_outcome().unwrap();
                assert(o.spec_pov(board.spec_player()) == OutcomeWDL::Win);
                assert(o == Outcome::WonBy(board.spec_player()));
                assert(tree.nodes@[c.start + i].kind == SNodeKind::Solved(
                    o.spec_pov(board.spec_player().spec_other()),
                ));
                assert(tree.nodes@[c.start + i].spec_solution() == Some(OutcomeWDL::Loss));
                lemma_win_child_found(tree.nodes@, c.start as int, c.length as nat);
                let w = spec_win_child(tree.nodes@, c.start as int, c.length as nat);
                assert(best == w);
                let j = w - c.start;
                assert(tree.nodes@[c.start + j].kind is Solved);
                assert(board.spec_play(ms[j]).spec_outcome() is Some);
                let o2 = board.spec_play(ms[j]).spec_outcome().unwrap();
                assert(tree.nodes@[c.start + j].kind == SNodeKind::Solved(
                    o2.spec_pov(board.spec_player().spec_other()),
                ));
                assert(o2.spec_pov(board.spec_player().spec_other()) == OutcomeWDL::Loss);
                assert(o2 == Outcome::WonBy(board.spec_player()));
                assert(r == ms[j]);
            }
            let ns = tree.nodes@;
            assert(tree_structure(ns) && visit_bounds(ns, old(self).spec_iterations() as nat)
                && child_sums_ok(ns) && solved_from_children(ns) && ns[0].children is Some
                && children_match_board(ns, ns[0].children.unwrap(), *board) && Some(r)
                == ns[spec_best_child(ns, ns[0].children.unwrap())].last_move);
        }
        r
    }
}

} // verus!
