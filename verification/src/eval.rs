//! Leaf evaluation: the two interchangeable policies that turn a position
//! into a value in `0 ..= UNIT` thousandths.

use crate::game::GamePosition;
use crate::game::Side;
use crate::game::CELL_LIMIT;
use crate::rng::spec_step;
use crate::rng::XorShift;
use crate::territory::credit;
use crate::territory::dist_ok;
use crate::territory::distances;
use crate::territory::lemma_closer_iff;
use crate::territory::lemma_credit_bound;
use vstd::arithmetic::div_mod::lemma_div_is_ordered;
use vstd::arithmetic::div_mod::lemma_div_multiples_vanish;
use vstd::prelude::*;

verus! {

/// Fixed-point one: all values are thousandths in `0 ..= UNIT`.
pub const UNIT: u64 = 1000;

/// How many moves a playout may make before it gives up and scores the
/// position it reached as if it were final.
pub const PLAYOUT_CAP: u32 = 4096;

/// Which leaf evaluation the search uses.
#[derive(Clone, Copy, PartialEq, Eq, Structural, Debug)]
pub enum Policy {
    /// Complete the game with uniformly random moves and score the end.
    RandomPlayout,
    /// Estimate the value from material and flood-fill territory.
    Heuristic,
}

/// Scores a finished (or abandoned) position for the side holding `a` points
/// against `b`: the whole unit for a win, nothing for a loss, half for a draw.
pub open spec fn result_value(a: nat, b: nat) -> nat {
    if a > b {
        UNIT as nat
    } else if a < b {
        0
    } else {
        (UNIT / 2) as nat
    }
}

/// What a random playout may return: `v` is the result of completing the game
/// from `p` with moves drawn from a generator in state `s0`, scored for
/// `persp`, leaving the generator in state `s_end`. The playout stops, and
/// scores the position reached by [`result_value`], when the position is
/// terminal (or reports no moves), or after `fuel` steps.
pub open spec fn playout_rel<P: GamePosition>(
    p: P,
    persp: Side,
    s0: u64,
    fuel: nat,
    v: nat,
    s_end: u64,
) -> bool
    decreases fuel,
{
    if p.terminal() || p.move_total() == 0 || fuel == 0 {
        v == result_value(p.points(persp), p.points(persp.spec_other())) && s_end == s0
    } else {
        {
            let idx = spec_step(s0) as nat % p.move_total();
            exists|q: P|
                p.is_succ(idx as int, q) && playout_rel(
                    q,
                    persp,
                    spec_step(s0),
                    (fuel - 1) as nat,
                    v,
                    s_end,
                )
        }
    }
}

/// Completes the game from `p` with uniformly random moves and scores the
/// terminal position for `persp`.
pub fn playout<P: GamePosition>(p: &P, persp: Side, fuel: u32, rng: &mut XorShift) -> (v: u64)
    requires
        p.inv(),
    ensures
        v <= UNIT,
        playout_rel(*p, persp, old(rng).state, fuel as nat, v as nat, final(rng).state),
    decreases fuel,
{
    let term = p.is_terminal();
    let k = p.move_count();
    if term || k == 0 || fuel == 0 {
        let a = p.score(persp);
        let b = p.score(persp.other());
        if a > b {
            UNIT
        } else if a < b {
            0
        } else {
            UNIT / 2
        }
    } else {
        let r = rng.next();
        let idx = (r % (k as u64)) as usize;
        assert(idx < k) by {
            assert(r % (k as u64) < k as u64);
        }
        let q = p.apply_move(idx);
        let v = playout(&q, persp, fuel - 1, rng);
        proof {
            assert(idx as nat == spec_step(old(rng).state) as nat % (*p).move_total());
            assert(playout_rel(
                *p,
                persp,
                old(rng).state,
                fuel as nat,
                v as nat,
                final(rng).state,
            )) by {
                assert((*p).is_succ(idx as int, q) && playout_rel(
                    q,
                    persp,
                    spec_step(old(rng).state),
                    (fuel - 1) as nat,
                    v as nat,
                    final(rng).state,
                ));
            }
        }
        v
    }
}

/// Squashes a pair of nonnegative scores into `0 ..= UNIT` thousandths:
/// `a`'s share of the total, the midpoint when there is nothing to share.
pub open spec fn normalize(a: nat, b: nat) -> nat {
    if a + b == 0 {
        (UNIT / 2) as nat
    } else {
        ((UNIT * a) / (a + b) as int) as nat
    }
}

/// The heuristic static estimate: each side's material plus its territory
/// credit, normalized to the side `persp`'s share.
pub open spec fn heuristic_spec<P: GamePosition>(p: P, persp: Side) -> nat {
    let opp = persp.spec_other();
    normalize(
        p.points(persp) + credit(p, persp, opp, p.cell_total() as int),
        p.points(opp) + credit(p, opp, persp, p.cell_total() as int),
    )
}

/// Adds up the fish on the cells whose first distance is strictly below the
/// second.
fn side_credit<P: GamePosition>(
    p: &P,
    du: &Vec<u64>,
    dopp: &Vec<u64>,
    Ghost(s1): Ghost<Side>,
    Ghost(s2): Ghost<Side>,
) -> (sum: u64)
    requires
        p.inv(),
        dist_ok(*p, s1, du@),
        dist_ok(*p, s2, dopp@),
    ensures
        sum == credit(*p, s1, s2, p.cell_total() as int),
        sum <= CELL_LIMIT * 4294967295,
{
    proof {
        p.law_board();
    }
    let n = p.cell_count();
    let mut sum: u64 = 0;
    let mut c: usize = 0;
    while c < n
        invariant
            c <= n,
            n == p.cell_total(),
            p.inv(),
            dist_ok(*p, s1, du@),
            dist_ok(*p, s2, dopp@),
            sum == credit(*p, s1, s2, c as int),
            sum <= c * 4294967295,
            forall|t: int| 0 <= t < n ==> #[trigger] p.fish_on(t) <= u32::MAX,
            n <= CELL_LIMIT,
        decreases n - c,
    {
        proof {
            lemma_closer_iff(*p, s1, s2, du@, dopp@, c as int);
        }
        if du[c] < dopp[c] {
            let f = p.fish_at(c);
            sum = sum + f as u64;
        }
        c = c + 1;
    }
    sum
}

/// Computes the heuristic static estimate of a position's value for `persp`.
pub fn heuristic_value<P: GamePosition>(p: &P, persp: Side) -> (v: u64)
    requires
        p.inv(),
    ensures
        v == heuristic_spec(*p, persp),
        v <= UNIT,
{
    proof {
        p.law_board();
    }
    let opp = persp.other();
    let du = distances(p, persp);
    let dopp = distances(p, opp);
    let cu = side_credit(p, &du, &dopp, Ghost(persp), Ghost(opp));
    let co = side_credit(p, &dopp, &du, Ghost(opp), Ghost(persp));
    let a = p.score(persp) as u64 + cu;
    let b = p.score(opp) as u64 + co;
    if a == 0 && b == 0 {
        UNIT / 2
    } else {
        let v = (UNIT * a) / (a + b);
        proof {
            assert(UNIT * a <= UNIT * (a + b)) by (nonlinear_arith)
                requires
                    a <= a + b,
                    UNIT >= 0,
            ;
            lemma_div_is_ordered((UNIT * a) as int, (UNIT * (a + b)) as int, (a + b) as int);
            lemma_div_multiples_vanish(UNIT as int, (a + b) as int);
            assert(UNIT as int * ((a + b) as int) == (a + b) as int * (UNIT as int))
                by (nonlinear_arith);
        }
        v
    }
}

/// Evaluates a leaf with the configured policy.
pub fn evaluate<P: GamePosition>(p: &P, persp: Side, policy: Policy, rng: &mut XorShift) -> (v:
    u64)
    requires
        p.inv(),
    ensures
        v <= UNIT,
        policy == Policy::Heuristic ==> v == heuristic_spec(*p, persp) && final(rng).state == old(
            rng,
        ).state,
        policy == Policy::RandomPlayout ==> playout_rel(
            *p,
            persp,
            old(rng).state,
            PLAYOUT_CAP as nat,
            v as nat,
            final(rng).state,
        ),
{
    match policy {
        Policy::RandomPlayout => playout(p, persp, PLAYOUT_CAP, rng),
        Policy::Heuristic => heuristic_value(p, persp),
    }
}

} // verus!
