//! The search tree: one node per explored position, with visit statistics,
//! and the selection, expansion and backpropagation steps of the search.

use crate::eval::evaluate;
use crate::eval::heuristic_spec;
use crate::eval::playout_rel;
use crate::eval::Policy;
use crate::eval::PLAYOUT_CAP;
use crate::eval::UNIT;
use crate::game::GamePosition;
use crate::game::Side;
use crate::rng::XorShift;
use crate::num::isqrt;
use crate::num::log2;
use crate::num::log2_floor;
use crate::num::sqrt_floor;
use vstd::arithmetic::div_mod::lemma_div_is_ordered;
use vstd::arithmetic::div_mod::lemma_div_multiples_vanish;
use vstd::arithmetic::div_mod::lemma_div_nonincreasing;
use vstd::prelude::*;

verus! {

/// Hard ceiling on a node's visit count. It keeps `total`, which grows by at
/// most [`UNIT`] per visit, far away from `u64` overflow.
pub const VISIT_CAP: u64 = 0x10000000000000;

/// Largest accepted exploration constant, in thousandths (one thousand times
/// the usual `sqrt(2) = 1.41...` reference value).
pub const EXPLORE_MAX: u64 = 1000000;

/// One vertex of the search tree. It owns its children outright: the tree has
/// no sharing and no back edges.
pub struct Node<P> {
    /// The position this node stands for.
    pub pos: P,
    /// One child per legal move, in enumeration order; empty until expanded.
    pub children: Vec<Node<P>>,
    /// How many search cycles have passed through this node.
    pub visits: u64,
    /// Accumulated value of those cycles, in thousandths, from the
    /// perspective the search was run with.
    pub total: u64,
    /// The subtree's outcome is fully determined; it is excluded from
    /// further selection.
    pub resolved: bool,
}

/// The visits of all nodes of a sequence, added up.
pub open spec fn sum_visits<P>(s: Seq<Node<P>>) -> nat
    decreases s,
{
    if s.len() == 0 {
        0
    } else {
        (s[0].visits + sum_visits(s.drop_first())) as nat
    }
}

/// Every node of the sequence carries `resolved`.
pub open spec fn all_resolved<P>(s: Seq<Node<P>>) -> bool {
    forall|i: int| 0 <= i < s.len() ==> (#[trigger] s[i]).resolved
}

/// The height of the tree hanging off this node.
pub open spec fn height<P>(n: Node<P>) -> nat
    decreases n,
{
    1 + height_all(n.children@)
}

/// The greatest height of the nodes of a sequence.
pub open spec fn height_all<P>(s: Seq<Node<P>>) -> nat
    decreases s,
{
    if s.len() == 0 {
        0
    } else {
        let h0 = height(s[0]);
        let hr = height_all(s.drop_first());
        if h0 >= hr {
            h0
        } else {
            hr
        }
    }
}

impl<P: GamePosition> Node<P> {
    /// Well-formedness of the node and its whole subtree.
    ///
    /// In particular: the accumulated value never exceeds `visits` units
    /// (the value-range invariant); an expanded node has exactly one child
    /// per legal move, each holding the successor position of its move; and
    /// a visited expanded node's count exceeds its children's counts by
    /// exactly one (the visit-conservation invariant).
    pub open spec fn wf(self) -> bool
        decreases self,
    {
        &&& self.pos.inv()
        &&& self.total <= self.visits * UNIT
        &&& self.visits <= VISIT_CAP
        &&& (self.visits == 0 ==> self.total == 0 && !self.resolved)
        &&& (self.children@.len() == 0 && !self.resolved ==> self.visits <= 1)
        &&& (self.resolved && self.children@.len() == 0 ==> self.pos.terminal())
        &&& (self.children@.len() > 0 ==> {
            &&& !self.pos.terminal()
            &&& self.children@.len() == self.pos.move_total()
            &&& (self.visits > 0 ==> self.visits == 1 + sum_visits(self.children@))
            &&& (self.visits == 0 ==> sum_visits(self.children@) == 0)
            &&& (all_resolved(self.children@) ==> self.resolved)
        })
        &&& (forall|i: int|
            0 <= i < self.children@.len() ==> (#[trigger] self.children@[i]).wf()
                && self.pos.is_succ(i, self.children@[i].pos))
    }

    /// Creates an unexpanded, unvisited node for a position.
    pub fn new(pos: P) -> (n: Node<P>)
        requires
            pos.inv(),
        ensures
            n.wf(),
            n.pos == pos,
            n.children@.len() == 0,
            n.visits == 0,
            n.total == 0,
            !n.resolved,
    {
        Node { pos, children: Vec::new(), visits: 0, total: 0, resolved: false }
    }

    /// Expands the node: creates one unexpanded child per legal move, in the
    /// adapter's enumeration order, each holding the position its move
    /// reaches.
    pub fn expand(&mut self)
        requires
            old(self).wf(),
            old(self).children@.len() == 0,
            !old(self).pos.terminal(),
            !old(self).resolved,
        ensures
            final(self).wf(),
            final(self).pos == old(self).pos,
            final(self).visits == old(self).visits,
            final(self).total == old(self).total,
            final(self).resolved == old(self).resolved,
            final(self).children@.len() == final(self).pos.move_total() > 0,
            forall|i: int|
                0 <= i < final(self).children@.len() ==> {
                    let c = #[trigger] final(self).children@[i];
                    c.visits == 0 && c.total == 0 && !c.resolved && c.children@.len() == 0
                        && final(self).pos.is_succ(i, c.pos)
                },
    {
        proof {
            self.pos.law_moves();
        }
        let k = self.pos.move_count();
        let mut kids: Vec<Node<P>> = Vec::new();
        let mut i: usize = 0;
        while i < k
            invariant
                i <= k,
                self.pos.inv(),
                k == self.pos.move_total(),
                kids@.len() == i,
                forall|j: int|
                    0 <= j < i ==> {
                        let c = #[trigger] kids@[j];
                        c.wf() && c.visits == 0 && c.total == 0 && !c.resolved && c.children@.len()
                            == 0 && self.pos.is_succ(j, c.pos)
                    },
            decreases k - i,
        {
            let q = self.pos.apply_move(i);
            kids.push(Node::new(q));
            i = i + 1;
        }
        proof {
            lemma_sum_visits_zero(kids@);
        }
        self.children = kids;
    }
}

/// The UCT exploration bonus in thousandths, computed in fixed point: the
/// natural logarithm is approximated by `0.693` times the floor of the
/// base-two logarithm of the parent's visits.
pub open spec fn spec_explore(c_milli: u64, pv: nat, cv: nat) -> int {
    (c_milli * sqrt_floor((693 * log2(pv) * 1000) / cv)) / 1000
}

/// The selection score of a child under a parent with `pv` visits: an
/// unvisited child outranks everything; otherwise the child's average value
/// — read from the searching side's point of view, so flipped when the side
/// to move at the parent is the other side — plus the exploration bonus.
pub open spec fn spec_score<P>(c_milli: u64, pv: nat, c: Node<P>, flip: bool) -> int {
    if c.visits == 0 {
        u64::MAX as int
    } else {
        let wr = c.total as int / c.visits as int;
        let wrf: int = if flip {
            UNIT - wr
        } else {
            wr
        };
        wrf + spec_explore(c_milli, pv, c.visits as nat)
    }
}

/// Child `i` is the one the selection rule picks under node `n`: not yet
/// resolved, and the first unresolved child of maximal selection score.
pub open spec fn is_selected_child<P: GamePosition>(
    n: Node<P>,
    persp: Side,
    c_milli: u64,
    i: int,
) -> bool {
    &&& 0 <= i < n.children@.len()
    &&& !n.children@[i].resolved
    &&& forall|j: int|
        0 <= j < i && !(#[trigger] n.children@[j]).resolved ==> spec_score(
            c_milli,
            n.visits as nat,
            n.children@[j],
            n.flips(persp),
        ) < spec_score(c_milli, n.visits as nat, n.children@[i], n.flips(persp))
    &&& forall|j: int|
        i < j < n.children@.len() && !(#[trigger] n.children@[j]).resolved ==> spec_score(
            c_milli,
            n.visits as nat,
            n.children@[j],
            n.flips(persp),
        ) <= spec_score(c_milli, n.visits as nat, n.children@[i], n.flips(persp))
}

impl<P: GamePosition> Node<P> {
    /// The child's winrate must be flipped when the side to move here is not
    /// the side the search values are counted for.
    pub open spec fn flips(self, persp: Side) -> bool {
        self.pos.to_move() != persp
    }

    /// Picks the child the next cycle descends into: among the children not
    /// yet resolved, the first one of maximal selection score.
    pub fn select_child(&self, persp: Side, c_milli: u64) -> (idx: usize)
        requires
            self.wf(),
            self.children@.len() > 0,
            self.visits > 0,
            !self.resolved,
            c_milli <= EXPLORE_MAX,
        ensures
            is_selected_child(*self, persp, c_milli, idx as int),
    {
        let ghost pv = self.visits as nat;
        let ghost flip_g = self.flips(persp);
        let side = self.pos.side_to_move();
        let flip = !(side == persp);
        let lg = log2_floor(self.visits);
        let ln_m: u64 = 693 * lg;
        let mut best_i: usize = 0;
        let mut best_s: u64 = 0;
        let mut found = false;
        let mut j: usize = 0;
        let len = self.children.len();
        while j < len
            invariant
                len == self.children@.len(),
                j <= len,
                self.wf(),
                self.visits > 0,
                c_milli <= EXPLORE_MAX,
                ln_m == 693 * log2(pv),
                ln_m <= 43659,
                pv == self.visits as nat,
                flip == flip_g,
                !found ==> forall|t: int| 0 <= t < j ==> (#[trigger] self.children@[t]).resolved,
                found ==> best_i < j && !self.children@[best_i as int].resolved && best_s as int
                    == spec_score(c_milli, pv, self.children@[best_i as int], flip_g),
                found ==> forall|t: int|
                    0 <= t < j && !(#[trigger] self.children@[t]).resolved ==> (if t < best_i {
                        spec_score(c_milli, pv, self.children@[t], flip_g) < best_s as int
                    } else {
                        spec_score(c_milli, pv, self.children@[t], flip_g) <= best_s as int
                    }),
            decreases len - j,
        {
            assert(self.children@[j as int].wf());
            let c = &self.children[j];
            if !c.resolved {
                let s = child_score(c, flip, ln_m, c_milli, Ghost(pv));
                if !found || s > best_s {
                    best_i = j;
                    best_s = s;
                    found = true;
                }
            }
            j = j + 1;
        }
        if !found {
            proof {
                assert(all_resolved(self.children@));
                assert(false);
            }
        }
        best_i
    }
}

/// Computes one child's selection score.
fn child_score<P: GamePosition>(
    c: &Node<P>,
    flip: bool,
    ln_m: u64,
    c_milli: u64,
    Ghost(pv): Ghost<nat>,
) -> (s: u64)
    requires
        c.wf(),
        ln_m == 693 * log2(pv),
        ln_m <= 43659,
        c_milli <= EXPLORE_MAX,
    ensures
        s as int == spec_score(c_milli, pv, *c, flip),
{
    if c.visits == 0 {
        return u64::MAX;
    }
    let wr = c.total / c.visits;
    proof {
        assert((c.visits * UNIT) as int == c.visits as int * UNIT as int);
        lemma_div_is_ordered(c.total as int, (c.visits * UNIT) as int, c.visits as int);
        lemma_div_multiples_vanish(UNIT as int, c.visits as int);
        assert(c.visits as int * UNIT as int == UNIT as int * c.visits as int)
            by (nonlinear_arith);
    }
    assert(wr <= UNIT);
    let wrf = if flip {
        UNIT - wr
    } else {
        wr
    };
    let ratio = (ln_m * 1000) / c.visits;
    proof {
        lemma_div_nonincreasing((ln_m * 1000) as int, c.visits as int);
    }
    let root = isqrt(ratio);
    assert(root < 6608) by (nonlinear_arith)
        requires
            root * root <= ratio,
            ratio <= 43659000,
    ;
    assert(c_milli * root <= 1000000u64 * 6608u64) by (nonlinear_arith)
        requires
            c_milli <= 1000000,
            root < 6608,
    ;
    let ex = (c_milli * root) / 1000;
    wrf + ex
}

/// Tree `b` keeps every `resolved` flag tree `a` carried, node for node: a
/// search step never takes resolution back.
pub open spec fn keeps_resolution<P>(a: Node<P>, b: Node<P>) -> bool
    decreases a,
{
    &&& (a.resolved ==> b.resolved)
    &&& a.children@.len() <= b.children@.len()
    &&& forall|i: int|
        0 <= i < a.children@.len() ==> keeps_resolution(
            #[trigger] a.children@[i],
            b.children@[i],
        )
}

pub proof fn lemma_keeps_resolution_refl<P>(a: Node<P>)
    ensures
        keeps_resolution(a, a),
    decreases a,
{
    assert forall|i: int| 0 <= i < a.children@.len() implies keeps_resolution(
        #[trigger] a.children@[i],
        a.children@[i],
    ) by {
        lemma_keeps_resolution_refl(a.children@[i]);
    }
}

/// Tests whether every node of the vector is resolved.
fn all_resolved_exec<P: GamePosition>(v: &Vec<Node<P>>) -> (b: bool)
    ensures
        b == all_resolved(v@),
{
    let mut i: usize = 0;
    while i < v.len()
        invariant
            i <= v@.len(),
            forall|t: int| 0 <= t < i ==> (#[trigger] v@[t]).resolved,
        decreases v@.len() - i,
    {
        if !v[i].resolved {
            return false;
        }
        i = i + 1;
    }
    true
}

impl<P: GamePosition> Node<P> {
    /// Runs one search cycle through this subtree: walks down along
    /// best-scored unresolved children, expands a node on its second visit,
    /// evaluates the leaf reached, and carries the value back up, adding one
    /// visit to every node on the path.
    ///
    /// Terminal leaves resolve; a node whose children are all resolved
    /// resolves with them; resolution is never taken back.
    pub fn mcts(self, persp: Side, c_milli: u64, policy: Policy, rng: &mut XorShift) -> (r: (
        Node<P>,
        u64,
    ))
        requires
            self.wf(),
            !self.resolved,
            self.visits < VISIT_CAP,
            c_milli <= EXPLORE_MAX,
        ensures
            r.0.wf(),
            r.0.pos == self.pos,
            r.0.visits == self.visits + 1,
            r.0.total == self.total + r.1,
            r.1 <= UNIT,
            keeps_resolution(self, r.0),
            self.pos.terminal() ==> r.0.resolved && r.0.children@.len() == 0,
            !self.pos.terminal() && self.visits > 0 ==> r.0.children@.len()
                == self.pos.move_total(),
            self.visits == 0 || self.pos.terminal() ==> r.0.children@.len()
                == self.children@.len(),
            self.visits > 0 && !self.pos.terminal() && self.children@.len() > 0 ==> exists|i: int|
                {
                    &&& #[trigger] is_selected_child(self, persp, c_milli, i)
                    &&& r.0.children@[i].visits == self.children@[i].visits + 1
                    &&& forall|j: int|
                        0 <= j < self.children@.len() && j != i ==> r.0.children@[j]
                            == self.children@[j]
                },
            self.visits == 0 || self.pos.terminal() ==> {
                &&& (policy == Policy::Heuristic ==> r.1 == heuristic_spec(self.pos, persp))
                &&& (policy == Policy::RandomPlayout ==> playout_rel(
                    self.pos,
                    persp,
                    old(rng).state,
                    PLAYOUT_CAP as nat,
                    r.1 as nat,
                    final(rng).state,
                ))
            },
        decreases height(self), self.visits,
    {
        let ghost orig = self;
        let mut n = self;
        let term = n.pos.is_terminal();
        if n.visits > 0 && !term {
            if n.children.len() == 0 {
                n.expand();
            }
            let ghost pre = n;
            let idx = n.select_child(persp, c_milli);
            proof {
                assert(pre.children@[idx as int].wf());
                lemma_sum_visits_elem(pre.children@, idx as int);
                if orig.children@.len() > 0 {
                    lemma_height_elem(orig.children@, idx as int);
                } else {
                    assert(height(pre.children@[idx as int]) == 1);
                    assert(height(orig) == 1);
                }
            }
            let child = n.children.remove(idx);
            let (child2, val) = child.mcts(persp, c_milli, policy, rng);
            let ghost child2_g = child2;
            let child2_resolved = child2.resolved;
            n.children.insert(idx, child2);
            proof {
                assert(n.children@ =~= pre.children@.update(idx as int, child2_g));
                lemma_sum_visits_update(pre.children@, idx as int, child2_g);
            }
            if child2_resolved {
                if all_resolved_exec(&n.children) {
                    n.resolved = true;
                }
            }
            n.visits = n.visits + 1;
            n.total = n.total + val;
            proof {
                assert(n.total <= n.visits * UNIT) by (nonlinear_arith)
                    requires
                        pre.total <= pre.visits * UNIT,
                        n.total == pre.total + val,
                        val <= UNIT,
                        n.visits == pre.visits + 1,
                ;
                assert forall|i: int|
                    0 <= i < n.children@.len() implies (#[trigger] n.children@[i]).wf()
                    && n.pos.is_succ(i, n.children@[i].pos) by {
                    if i != idx as int {
                        assert(n.children@[i] == pre.children@[i]);
                    }
                }
                if !n.resolved {
                    if all_resolved(n.children@) {
                        assert(n.children@[idx as int].resolved);
                        assert(false);
                    }
                }
                assert(keeps_resolution(orig, n)) by {
                    if orig.children@.len() > 0 {
                        assert forall|i: int| 0 <= i < orig.children@.len() implies
                            keeps_resolution(#[trigger] orig.children@[i], n.children@[i]) by {
                            if i == idx as int {
                                assert(keeps_resolution(child, child2_g));
                            } else {
                                lemma_keeps_resolution_refl(orig.children@[i]);
                            }
                        }
                    }
                }
            }
            (n, val)
        } else {
            let val = evaluate(&n.pos, persp, policy, rng);
            if term {
                n.resolved = true;
            }
            n.visits = n.visits + 1;
            n.total = n.total + val;
            proof {
                assert(n.total <= n.visits * UNIT) by (nonlinear_arith)
                    requires
                        orig.total <= orig.visits * UNIT,
                        n.total == orig.total + val,
                        val <= UNIT,
                        n.visits == orig.visits + 1,
                ;
                if n.children@.len() > 0 {
                    assert(!orig.pos.terminal());
                    assert(orig.visits == 0);
                    assert(sum_visits(orig.children@) == 0);
                    lemma_sum_visits_zero(orig.children@);
                    assert((#[trigger] orig.children@[0]).visits == 0);
                    assert(orig.children@[0].wf());
                    assert(!orig.children@[0].resolved);
                    assert(n.children@[0] == orig.children@[0]);
                    assert(!all_resolved(n.children@));
                }
                assert(keeps_resolution(orig, n)) by {
                    assert forall|i: int| 0 <= i < orig.children@.len() implies keeps_resolution(
                        #[trigger] orig.children@[i],
                        n.children@[i],
                    ) by {
                        lemma_keeps_resolution_refl(orig.children@[i]);
                    }
                }
            }
            (n, val)
        }
    }
}

/// A visited child's selection score stays strictly below the score an
/// unvisited child gets.
proof fn lemma_score_bound<P: GamePosition>(c_milli: u64, pv: nat, c: Node<P>, flip: bool)
    requires
        c.wf(),
        c.visits > 0,
        c_milli <= EXPLORE_MAX,
        pv >= 1,
        pv <= VISIT_CAP,
    ensures
        spec_score(c_milli, pv, c, flip) < u64::MAX as int,
{
    let wr = c.total as int / c.visits as int;
    assert((c.visits * UNIT) as int == c.visits as int * UNIT as int);
    lemma_div_is_ordered(c.total as int, (c.visits * UNIT) as int, c.visits as int);
    lemma_div_multiples_vanish(UNIT as int, c.visits as int);
    assert(c.visits as int * UNIT as int == UNIT as int * c.visits as int) by (nonlinear_arith);
    assert(wr <= UNIT);
    vstd::arithmetic::div_mod::lemma_div_pos_is_pos(c.total as int, c.visits as int);
    assert(wr >= 0);
    crate::num::lemma_log2_u64(VISIT_CAP);
    assert(log2(pv) <= log2(VISIT_CAP as nat)) by {
        lemma_log2_mono(pv, VISIT_CAP as nat);
    }
    let ratio = (693 * log2(pv) * 1000) / (c.visits as nat);
    assert(693 * log2(pv) * 1000 <= 43659000) by (nonlinear_arith)
        requires
            log2(pv) <= 63,
    ;
    lemma_div_nonincreasing((693 * log2(pv) * 1000) as int, c.visits as int);
    assert(ratio <= 43659000);
    let root = sqrt_floor(ratio);
    crate::num::lemma_sqrt_floor_bounds(ratio);
    assert(root < 6608) by (nonlinear_arith)
        requires
            root * root <= ratio,
            ratio <= 43659000,
    ;
    assert(c_milli * root <= 1000000 * 6608) by (nonlinear_arith)
        requires
            c_milli <= 1000000,
            root < 6608,
    ;
    lemma_div_nonincreasing((c_milli * root) as int, 1000int);
}

/// The base-two logarithm only grows.
proof fn lemma_log2_mono(a: nat, b: nat)
    requires
        a <= b,
    ensures
        log2(a) <= log2(b),
    decreases b,
{
    if a > 1 {
        lemma_log2_mono(a / 2, b / 2);
    }
}

/// Unconditional priority of the unexplored: where some unresolved child has
/// never been visited, the child the selection rule picks has never been
/// visited either, whatever the other children's averages are.
pub proof fn lemma_zero_visit_priority<P: GamePosition>(
    n: Node<P>,
    persp: Side,
    c_milli: u64,
    i: int,
    z: int,
)
    requires
        n.wf(),
        n.visits >= 1,
        c_milli <= EXPLORE_MAX,
        is_selected_child(n, persp, c_milli, i),
        0 <= z < n.children@.len(),
        !n.children@[z].resolved,
        n.children@[z].visits == 0,
    ensures
        n.children@[i].visits == 0,
{
    if n.children@[i].visits > 0 {
        assert(n.children@[i].wf());
        lemma_score_bound(c_milli, n.visits as nat, n.children@[i], n.flips(persp));
        assert(spec_score(c_milli, n.visits as nat, n.children@[z], n.flips(persp)) == u64::MAX
            as int);
    }
}

/// Determinism of structure: in any well-formed tree, an expanded node's
/// children mirror the adapter's enumerated legal moves exactly, one child
/// per move, in enumeration order.
pub proof fn lemma_children_mirror_moves<P: GamePosition>(n: Node<P>)
    requires
        n.wf(),
        n.children@.len() > 0,
    ensures
        n.children@.len() == n.pos.move_total(),
        forall|i: int|
            0 <= i < n.children@.len() ==> n.pos.is_succ(i, (#[trigger] n.children@[i]).pos),
{
}

/// Visit conservation: a well-formed node that has been expanded and visited
/// counts exactly one more visit than all its children together — every
/// cycle through it went on into exactly one child, except the first, which
/// evaluated the node itself.
pub proof fn lemma_visit_conservation<P: GamePosition>(n: Node<P>)
    requires
        n.wf(),
        n.children@.len() > 0,
        n.visits > 0,
    ensures
        n.visits == 1 + sum_visits(n.children@),
{
}

/// Value range: a well-formed node's accumulated value never exceeds one
/// unit per visit, so its average value lies between zero and one unit.
pub proof fn lemma_value_range<P: GamePosition>(n: Node<P>)
    requires
        n.wf(),
        n.visits > 0,
    ensures
        n.total <= n.visits * UNIT,
        n.total as int / n.visits as int <= UNIT,
{
    assert((n.visits * UNIT) as int == n.visits as int * UNIT as int);
    lemma_div_is_ordered(n.total as int, (n.visits * UNIT) as int, n.visits as int);
    lemma_div_multiples_vanish(UNIT as int, n.visits as int);
    assert(n.visits as int * UNIT as int == UNIT as int * n.visits as int) by (nonlinear_arith);
}

/// An element's visits never exceed the sequence's sum.
pub proof fn lemma_sum_visits_elem<P>(s: Seq<Node<P>>, i: int)
    requires
        0 <= i < s.len(),
    ensures
        s[i].visits <= sum_visits(s),
    decreases s,
{
    if i > 0 {
        lemma_sum_visits_elem(s.drop_first(), i - 1);
    }
}

/// Replacing one element changes the sum by the difference of the visits.
pub proof fn lemma_sum_visits_update<P>(s: Seq<Node<P>>, i: int, c: Node<P>)
    requires
        0 <= i < s.len(),
    ensures
        sum_visits(s.update(i, c)) + s[i].visits == sum_visits(s) + c.visits,
    decreases s,
{
    if i == 0 {
        assert(s.update(0, c).drop_first() =~= s.drop_first());
    } else {
        assert(s.update(i, c).drop_first() =~= s.drop_first().update(i - 1, c));
        lemma_sum_visits_update(s.drop_first(), i - 1, c);
    }
}

/// The sum is zero exactly when every element's visits are zero.
pub proof fn lemma_sum_visits_zero<P>(s: Seq<Node<P>>)
    ensures
        (sum_visits(s) == 0) <==> (forall|i: int| 0 <= i < s.len() ==> (#[trigger] s[i]).visits == 0),
    decreases s,
{
    if s.len() > 0 {
        lemma_sum_visits_zero(s.drop_first());
        assert forall|i: int|
            0 <= i < s.len() && sum_visits(s) == 0 implies (#[trigger] s[i]).visits == 0 by {
            if i > 0 {
                assert(s.drop_first()[i - 1] == s[i]);
            }
        }
        if forall|i: int| 0 <= i < s.len() ==> (#[trigger] s[i]).visits == 0 {
            assert forall|i: int|
                0 <= i < s.drop_first().len() implies (#[trigger] s.drop_first()[i]).visits
                == 0 by {
                assert(s.drop_first()[i] == s[i + 1]);
            }
        }
    }
}

/// An element is never taller than the tallest of its sequence.
pub proof fn lemma_height_elem<P>(s: Seq<Node<P>>, i: int)
    requires
        0 <= i < s.len(),
    ensures
        height(s[i]) <= height_all(s),
    decreases s,
{
    if i > 0 {
        lemma_height_elem(s.drop_first(), i - 1);
    }
}

} // verus!
