//! Driving the search: tree reuse across turns, the cycle loop under the
//! clock, and the final move choice.

use crate::clock::clock_now;
use crate::clock::duration_millis;
use crate::clock::elapsed_since;
use crate::eval::Policy;
use crate::game::GamePosition;
use crate::game::Side;
use crate::node::Node;
use crate::node::EXPLORE_MAX;
use crate::node::VISIT_CAP;
use crate::rng::XorShift;
use vstd::prelude::*;

verus! {

/// How a finished game ended, seen from one side.
#[derive(Clone, Copy, PartialEq, Eq, Structural, Debug)]
pub enum Outcome {
    Win,
    Loss,
    Draw,
}

/// Reads the reported winner from `us`'s point of view.
pub fn game_outcome(winner: Option<Side>, us: Side) -> (o: Outcome)
    ensures
        o == match winner {
            Option::None => Outcome::Draw,
            Option::Some(w) => if w == us {
                Outcome::Win
            } else {
                Outcome::Loss
            },
        },
{
    match winner {
        None => Outcome::Draw,
        Some(w) => if w == us {
            Outcome::Win
        } else {
            Outcome::Loss
        },
    }
}

/// The engine's configuration surface.
pub struct Config {
    /// Wall-clock budget per move, in milliseconds.
    pub time_ms: u64,
    /// Exploration constant of the selection rule, in thousandths.
    pub explore_milli: u64,
    /// The leaf evaluation policy.
    pub policy: Policy,
    /// Hard cap on search cycles, independent of the clock.
    pub max_cycles: u64,
    /// Seed of the playout randomness source.
    pub seed: u64,
}

impl Config {
    pub open spec fn inv(&self) -> bool {
        &&& self.explore_milli <= EXPLORE_MAX
        &&& 1 <= self.max_cycles <= VISIT_CAP
    }

    /// The reference configuration: just under two seconds on the clock, an
    /// exploration constant close to the square root of two, and the
    /// heuristic evaluation.
    pub fn standard() -> (c: Config)
        ensures
            c.inv(),
            c.time_ms == 1900,
            c.explore_milli == 1410,
            c.policy == Policy::Heuristic,
    {
        Config {
            time_ms: 1900,
            explore_milli: 1410,
            policy: Policy::Heuristic,
            max_cycles: 0x10000000000,
            seed: 1,
        }
    }
}

/// The grandchild rows of a node sequence, flattened in order.
pub open spec fn grandchild_rows<P>(s: Seq<Node<P>>) -> Seq<Node<P>>
    decreases s,
{
    if s.len() == 0 {
        Seq::empty()
    } else {
        s[0].children@ + grandchild_rows(s.drop_first())
    }
}

/// The nodes the tree-reuse scan considers, in scan order: the retained
/// root itself, then its children, then its grandchildren.
pub open spec fn candidates<P>(t: Node<P>) -> Seq<Node<P>> {
    seq![t] + t.children@ + grandchild_rows(t.children@)
}

/// Candidate `k` is the first one that matches the actual position.
pub open spec fn first_match_at<P: GamePosition>(t: Node<P>, actual: P, k: int) -> bool {
    &&& 0 <= k < candidates(t).len()
    &&& candidates(t)[k].pos.same_pos(&actual)
    &&& forall|k2: int|
        0 <= k2 < k ==> !(#[trigger] candidates(t)[k2]).pos.same_pos(&actual)
}

/// Some candidate matches the actual position.
pub open spec fn any_match<P: GamePosition>(t: Node<P>, actual: P) -> bool {
    exists|k: int|
        0 <= k < candidates(t).len() && (#[trigger] candidates(t)[k]).pos.same_pos(&actual)
}

/// `root` is a freshly created, empty root for the actual position.
pub open spec fn fresh_root<P: GamePosition>(root: Node<P>, actual: P) -> bool {
    &&& root.pos == actual
    &&& root.visits == 0
    &&& root.total == 0
    &&& !root.resolved
    &&& root.children@.len() == 0
}

proof fn lemma_gc_no_match<P: GamePosition>(s: Seq<Node<P>>, actual: P)
    requires
        forall|i: int, j: int|
            #![trigger s[i].children@[j]]
            0 <= i < s.len() && 0 <= j < s[i].children@.len()
                ==> !s[i].children@[j].pos.same_pos(&actual),
    ensures
        forall|k: int|
            0 <= k < grandchild_rows(s).len() ==> !(#[trigger] grandchild_rows(s)[k]).pos.same_pos(&actual),
    decreases s,
{
    if s.len() > 0 {
        let rest = s.drop_first();
        assert forall|i: int, j: int|
            #![trigger rest[i].children@[j]]
            0 <= i < rest.len() && 0 <= j < rest[i].children@.len() implies !rest[i].children@[j].pos.same_pos(&actual) by {
            assert(rest[i] == s[i + 1]);
        }
        lemma_gc_no_match(rest, actual);
        assert forall|k: int|
            0 <= k < grandchild_rows(s).len() implies !(#[trigger] grandchild_rows(s)[k]).pos.same_pos(&actual) by {
            if k < s[0].children@.len() {
                assert(grandchild_rows(s)[k] == s[0].children@[k]);
            } else {
                assert(grandchild_rows(s)[k] == grandchild_rows(rest)[k - s[0].children@.len()]);
            }
        }
    }
}

proof fn lemma_gc_first<P: GamePosition>(s: Seq<Node<P>>, actual: P, i0: int, j0: int) -> (k0:
    int)
    requires
        0 <= i0 < s.len(),
        0 <= j0 < s[i0].children@.len(),
        s[i0].children@[j0].pos.same_pos(&actual),
        forall|i: int, j: int|
            #![trigger s[i].children@[j]]
            0 <= i < s.len() && 0 <= j < s[i].children@.len() && (i < i0 || (i == i0 && j < j0))
                ==> !s[i].children@[j].pos.same_pos(&actual),
    ensures
        0 <= k0 < grandchild_rows(s).len(),
        grandchild_rows(s)[k0] == s[i0].children@[j0],
        forall|k: int|
            0 <= k < k0 ==> !(#[trigger] grandchild_rows(s)[k]).pos.same_pos(&actual),
    decreases s,
{
    if i0 == 0 {
        assert forall|k: int| 0 <= k < j0 implies !(#[trigger] grandchild_rows(s)[k]).pos.same_pos(&actual) by {
            assert(grandchild_rows(s)[k] == s[0].children@[k]);
        }
        assert(grandchild_rows(s)[j0] == s[0].children@[j0]);
        j0
    } else {
        let rest = s.drop_first();
        assert forall|i: int, j: int|
            #![trigger rest[i].children@[j]]
            0 <= i < rest.len() && 0 <= j < rest[i].children@.len() && (i < i0 - 1 || (i == i0 - 1
                && j < j0)) implies !rest[i].children@[j].pos.same_pos(&actual) by {
            assert(rest[i] == s[i + 1]);
        }
        assert(rest[i0 - 1] == s[i0]);
        let kr = lemma_gc_first(rest, actual, i0 - 1, j0);
        let k0 = s[0].children@.len() + kr;
        assert(grandchild_rows(s)[k0] == grandchild_rows(rest)[kr]);
        assert forall|k: int| 0 <= k < k0 implies !(#[trigger] grandchild_rows(s)[k]).pos.same_pos(&actual) by {
            if k < s[0].children@.len() {
                assert(grandchild_rows(s)[k] == s[0].children@[k]);
            } else {
                assert(grandchild_rows(s)[k] == grandchild_rows(rest)[k - s[0].children@.len()]);
            }
        }
        k0
    }
}

/// Locates the node for the actual position within the retained tree — the
/// old root, its children, and its grandchildren, in that order — and hands
/// it back with its statistics and subtree intact; or, when nothing there
/// matches, creates a fresh unexpanded root.
#[verifier::loop_isolation(false)]
pub fn reuse_root<P: GamePosition>(prior: Option<Node<P>>, actual: P) -> (root: Node<P>)
    requires
        actual.inv(),
        prior matches Some(t) ==> t.wf(),
    ensures
        root.wf(),
        match prior {
            Option::None => fresh_root(root, actual),
            Option::Some(t) => {
                if any_match(t, actual) {
                    exists|k: int|
                        #[trigger] first_match_at(t, actual, k) && root == candidates(t)[k]
                } else {
                    fresh_root(root, actual)
                }
            },
        },
{
    if prior.is_none() {
        return Node::new(actual);
    }
    let mut t = prior.unwrap();
    let ghost t0 = t;
    if t.pos.equals(&actual) {
        proof {
            assert(candidates(t0)[0] == t0);
            assert(first_match_at(t0, actual, 0));
        }
        return t;
    }
    let len = t.children.len();
    let mut i: usize = 0;
    while i < len
        invariant
            t == t0,
            t0.wf(),
            actual.inv(),
            len == t0.children@.len(),
            i <= len,
            !t0.pos.same_pos(&actual),
            forall|x: int|
                0 <= x < i ==> !(#[trigger] t0.children@[x]).pos.same_pos(&actual),
        decreases len - i,
    {
        assert(t0.children@[i as int].wf());
        if t.children[i].pos.equals(&actual) {
            proof {
                let k = 1 + i as int;
                assert(candidates(t0)[k] == t0.children@[i as int]);
                assert forall|k2: int| 0 <= k2 < k implies !(#[trigger] candidates(t0)[k2]).pos.same_pos(&actual) by {
                    if k2 == 0 {
                        assert(candidates(t0)[0] == t0);
                    } else {
                        assert(candidates(t0)[k2] == t0.children@[k2 - 1]);
                    }
                }
                assert(first_match_at(t0, actual, k));
            }
            let c = t.children.remove(i);
            return c;
        }
        i = i + 1;
    }
    let mut gi: usize = 0;
    while gi < len
        invariant
            t == t0,
            t0.wf(),
            actual.inv(),
            len == t0.children@.len(),
            gi <= len,
            !t0.pos.same_pos(&actual),
            forall|x: int|
                0 <= x < len ==> !(#[trigger] t0.children@[x]).pos.same_pos(&actual),
            forall|x: int, y: int|
                #![trigger t0.children@[x].children@[y]]
                0 <= x < gi && 0 <= y < t0.children@[x].children@.len()
                    ==> !t0.children@[x].children@[y].pos.same_pos(&actual),
        decreases len - gi,
    {
        assert(t0.children@[gi as int].wf());
        let glen = t.children[gi].children.len();
        let mut gj: usize = 0;
        while gj < glen
            invariant
                t == t0,
                t0.wf(),
                actual.inv(),
                len == t0.children@.len(),
                gi < len,
                t0.children@[gi as int].wf(),
                glen == t0.children@[gi as int].children@.len(),
                gj <= glen,
                !t0.pos.same_pos(&actual),
                forall|x: int|
                    0 <= x < len ==> !(#[trigger] t0.children@[x]).pos.same_pos(&actual),
                forall|x: int, y: int|
                    #![trigger t0.children@[x].children@[y]]
                    0 <= x < gi && 0 <= y < t0.children@[x].children@.len()
                        ==> !t0.children@[x].children@[y].pos.same_pos(&actual),
                forall|y: int|
                    0 <= y < gj ==> !(#[trigger] t0.children@[gi as int].children@[y]).pos.same_pos(&actual),
            decreases glen - gj,
        {
            assert(t0.children@[gi as int].children@[gj as int].wf());
            if t.children[gi].children[gj].pos.equals(&actual) {
                proof {
                    assert forall|x: int, y: int|
                        #![trigger t0.children@[x].children@[y]]
                        0 <= x < len && 0 <= y < t0.children@[x].children@.len() && (x < gi as int
                            || (x == gi as int && y < gj as int)) implies !t0.children@[x].children@[y].pos.same_pos(&actual) by {}
                    let kr = lemma_gc_first(
                        t0.children@,
                        actual,
                        gi as int,
                        gj as int,
                    );
                    let k = 1 + len as int + kr;
                    assert(candidates(t0)[k] == grandchild_rows(t0.children@)[kr]);
                    assert forall|k2: int| 0 <= k2 < k implies !(#[trigger] candidates(t0)[k2]).pos.same_pos(&actual) by {
                        if k2 == 0 {
                            assert(candidates(t0)[0] == t0);
                        } else if k2 < 1 + len as int {
                            assert(candidates(t0)[k2] == t0.children@[k2 - 1]);
                        } else {
                            assert(candidates(t0)[k2] == grandchild_rows(t0.children@)[k2 - 1
                                - len as int]);
                        }
                    }
                    assert(first_match_at(t0, actual, k));
                }
                let mut c = t.children.remove(gi);
                let g = c.children.remove(gj);
                return g;
            }
            gj = gj + 1;
        }
        gi = gi + 1;
    }
    proof {
        lemma_gc_no_match(t0.children@, actual);
        assert forall|k: int| 0 <= k < candidates(t0).len() implies !(#[trigger] candidates(t0)[k]).pos.same_pos(&actual) by {
            if k == 0 {
                assert(candidates(t0)[0] == t0);
            } else if k < 1 + len as int {
                assert(candidates(t0)[k] == t0.children@[k - 1]);
            } else {
                assert(candidates(t0)[k] == grandchild_rows(t0.children@)[k - 1 - len as int]);
            }
        }
    }
    Node::new(actual)
}

/// Strict preference between two children at move choice: more visits, or
/// equally many visits with a greater accumulated value.
pub open spec fn beats<P>(a: Node<P>, b: Node<P>) -> bool {
    a.visits > b.visits || (a.visits == b.visits && a.total > b.total)
}

/// Child `i` is the move choice: the first child no later child beats.
pub open spec fn is_best_child<P>(n: Node<P>, i: int) -> bool {
    &&& 0 <= i < n.children@.len()
    &&& forall|j: int| 0 <= j < i ==> beats(n.children@[i], #[trigger] n.children@[j])
    &&& forall|j: int|
        i < j < n.children@.len() ==> !beats(#[trigger] n.children@[j], n.children@[i])
}

/// Picks the robust child: highest visit count, ties broken by higher
/// accumulated value (at equal visit counts that is the higher average),
/// then by enumeration order.
pub fn best_child_index<P: GamePosition>(n: &Node<P>) -> (idx: usize)
    requires
        n.children@.len() > 0,
    ensures
        is_best_child(*n, idx as int),
{
    let mut best: usize = 0;
    let mut j: usize = 1;
    while j < n.children.len()
        invariant
            best < j <= n.children@.len(),
            forall|x: int| 0 <= x < best ==> beats(n.children@[best as int], #[trigger] n.children@[x]),
            forall|x: int|
                best < x < j ==> !beats(#[trigger] n.children@[x], n.children@[best as int]),
        decreases n.children@.len() - j,
    {
        let cv = n.children[j].visits;
        let ct = n.children[j].total;
        let bv = n.children[best].visits;
        let bt = n.children[best].total;
        if cv > bv || (cv == bv && ct > bt) {
            best = j;
        }
        j = j + 1;
    }
    best
}

/// Computes the move to play at `actual`: reuses the retained tree from the
/// previous turn where it matches, runs search cycles until the clock, the
/// cycle cap or full resolution ends them — but always at least one — and
/// returns the index of the robust child among the legal moves of `actual`,
/// together with the tree to retain for the next turn.
///
/// Returns `None` exactly when the game is over at `actual`.
pub fn choose_move<P: GamePosition>(prior: Option<Node<P>>, actual: P, cfg: &Config) -> (r:
    Option<(usize, Node<P>)>)
    requires
        actual.inv(),
        cfg.inv(),
        prior matches Some(t) ==> t.wf(),
    ensures
        match r {
            Option::None => actual.terminal(),
            Option::Some((mv, tree)) => {
                &&& !actual.terminal()
                &&& tree.wf()
                &&& tree.visits >= 1
                &&& tree.children@.len() == actual.move_total()
                &&& mv < actual.move_total()
                &&& is_best_child(tree, mv as int)
                &&& match prior {
                    Option::None => true,
                    Option::Some(t) => any_match(t, actual) ==> exists|k: int|
                        {
                            &&& #[trigger] first_match_at(t, actual, k)
                            &&& tree.visits >= candidates(t)[k].visits
                            &&& tree.total >= candidates(t)[k].total
                        },
                }
            },
        },
{
    let ghost actual_g = actual;
    let mut root = reuse_root(prior, actual);
    let ghost reused = prior is Some && any_match(prior->Some_0, actual_g);
    let ghost k0: int = if reused {
        choose|k: int|
            #[trigger] first_match_at(prior->Some_0, actual_g, k) && root == candidates(
                prior->Some_0,
            )[k]
    } else {
        0
    };
    proof {
        if reused {
            let t = prior->Some_0;
            assert(first_match_at(t, actual_g, k0) && root == candidates(t)[k0]);
            root.pos.law_same(&actual_g);
        } else {
            assert(fresh_root(root, actual_g));
            root.pos.law_refl();
        }
        assert(root.pos.same_pos(&actual_g));
        assert(root.pos.move_total() == actual_g.move_total());
        assert(root.pos.terminal() == actual_g.terminal());
    }
    let ghost v0 = root.visits;
    let ghost t0 = root.total;
    let term = root.pos.is_terminal();
    if term {
        return None;
    }
    if root.children.len() == 0 {
        root.expand();
    }
    let persp = root.pos.side_to_move();
    let mut rng = XorShift::new(cfg.seed);
    let start = clock_now();
    let mut cycles: u64 = 0;
    let ghost p0 = root.pos;
    while cycles < cfg.max_cycles
        invariant
            cfg.inv(),
            root.wf(),
            root.pos == p0,
            !root.pos.terminal(),
            root.children@.len() == root.pos.move_total(),
            root.children@.len() > 0,
            cycles <= cfg.max_cycles,
            cycles > 0 ==> root.visits >= 1,
            root.visits >= v0,
            root.total >= t0,
        ensures
            root.wf(),
            root.pos == p0,
            root.children@.len() == root.pos.move_total(),
            root.children@.len() > 0,
            root.visits >= 1,
            root.visits >= v0,
            root.total >= t0,
        decreases cfg.max_cycles - cycles,
    {
        if root.resolved {
            proof {
                assert(root.visits > 0);
            }
            break ;
        }
        if root.visits >= VISIT_CAP {
            break ;
        }
        if cycles > 0 {
            let spent = duration_millis(&elapsed_since(&start));
            if spent >= cfg.time_ms {
                break ;
            }
        }
        let (r2, _val) = root.mcts(persp, cfg.explore_milli, cfg.policy, &mut rng);
        root = r2;
        cycles = cycles + 1;
        proof {
            if cycles == cfg.max_cycles {
                assert(root.visits >= 1);
            }
        }
    }
    let mv = best_child_index(&root);
    Some((mv, root))
}

} // verus!
