//! The territory flood fill: a multi-source breadth-first sweep over the
//! board's move graph, one per side, recording for every cell the least
//! number of move-steps from that side's occupied cells.

use crate::game::GamePosition;
use crate::game::Side;
use crate::game::CELL_LIMIT;
use vstd::prelude::*;

verus! {

/// Marks a cell the flood fill did not reach.
pub const UNREACHED: u64 = 0xFFFFFFFFFFFFFFFF;

/// Cell `c` is within `k` move-steps of one of `side`'s occupied cells.
pub open spec fn reach<P: GamePosition>(p: P, side: Side, c: int, k: nat) -> bool
    decreases k,
{
    if p.is_source(side, c) {
        true
    } else if k == 0 {
        false
    } else {
        exists|b: int| reach(p, side, b, (k - 1) as nat) && #[trigger] p.edge(b, c)
    }
}

/// What is within `k` steps is within `k + 1`.
proof fn lemma_reach_step<P: GamePosition>(p: P, side: Side, c: int, k: nat)
    requires
        reach(p, side, c, k),
    ensures
        reach(p, side, c, (k + 1) as nat),
    decreases k,
{
    if !p.is_source(side, c) && k > 0 {
        let b = choose|b: int| reach(p, side, b, (k - 1) as nat) && #[trigger] p.edge(b, c);
        lemma_reach_step(p, side, b, (k - 1) as nat);
        assert(reach(p, side, b, k) && p.edge(b, c));
    }
}

/// Reachability only grows with the step budget.
pub proof fn lemma_reach_mono<P: GamePosition>(p: P, side: Side, c: int, j: nat, k: nat)
    requires
        j <= k,
        reach(p, side, c, j),
    ensures
        reach(p, side, c, k),
    decreases k - j,
{
    if j < k {
        lemma_reach_step(p, side, c, j);
        lemma_reach_mono(p, side, c, j + 1, k);
    }
}

/// One more step reaches nothing new beyond budget `l`.
pub open spec fn saturated<P: GamePosition>(p: P, side: Side, l: nat) -> bool {
    forall|c: int| reach(p, side, c, (l + 1) as nat) ==> #[trigger] reach(p, side, c, l)
}

/// Once the sweep saturates, no budget at all reaches anything new.
pub proof fn lemma_reach_saturated<P: GamePosition>(p: P, side: Side, l: nat, c: int, k: nat)
    requires
        saturated(p, side, l),
        reach(p, side, c, k),
    ensures
        reach(p, side, c, l),
    decreases k,
{
    if k <= l {
        lemma_reach_mono(p, side, c, k, l);
    } else if p.is_source(side, c) {
        assert(reach(p, side, c, l));
    } else {
        let b = choose|b: int| reach(p, side, b, (k - 1) as nat) && #[trigger] p.edge(b, c);
        lemma_reach_saturated(p, side, l, b, (k - 1) as nat);
        assert(reach(p, side, c, (l + 1) as nat));
    }
}

/// How many cells the fill has not reached.
pub open spec fn count_unreached(s: Seq<u64>) -> nat
    decreases s,
{
    if s.len() == 0 {
        0
    } else {
        ((if s[0] == UNREACHED {
            1nat
        } else {
            0nat
        }) + count_unreached(s.drop_first())) as nat
    }
}

proof fn lemma_count_push(s: Seq<u64>, v: u64)
    ensures
        count_unreached(s.push(v)) == count_unreached(s) + (if v == UNREACHED {
            1nat
        } else {
            0nat
        }),
    decreases s,
{
    if s.len() == 0 {
        assert(s.push(v).drop_first() =~= s);
    } else {
        assert(s.push(v).drop_first() =~= s.drop_first().push(v));
        lemma_count_push(s.drop_first(), v);
    }
}

proof fn lemma_count_update(s: Seq<u64>, i: int, v: u64)
    requires
        0 <= i < s.len(),
        s[i] == UNREACHED,
        v != UNREACHED,
    ensures
        count_unreached(s.update(i, v)) + 1 == count_unreached(s),
    decreases s,
{
    if i == 0 {
        assert(s.update(0, v).drop_first() =~= s.drop_first());
    } else {
        assert(s.update(i, v).drop_first() =~= s.drop_first().update(i - 1, v));
        lemma_count_update(s.drop_first(), i - 1, v);
    }
}

/// `d` records, for every cell, the least number of move-steps from `side`'s
/// occupied cells, with [`UNREACHED`] for cells no number of steps reaches.
pub open spec fn dist_ok<P: GamePosition>(p: P, side: Side, d: Seq<u64>) -> bool {
    &&& d.len() == p.cell_total()
    &&& forall|c: int|
        0 <= c < d.len() && (#[trigger] d[c]) != UNREACHED ==> d[c] <= p.cell_total() && reach(
            p,
            side,
            c,
            d[c] as nat,
        ) && (d[c] > 0 ==> !reach(p, side, c, (d[c] - 1) as nat))
    &&& forall|c: int, k: nat|
        0 <= c < d.len() && (#[trigger] d[c]) == UNREACHED ==> !#[trigger] reach(p, side, c, k)
}

/// Side `s1` reaches cell `c` in strictly fewer move-steps than side `s2`
/// (in particular, whenever `s1` reaches a cell `s2` never reaches).
pub open spec fn strictly_closer<P: GamePosition>(p: P, s1: Side, s2: Side, c: int) -> bool {
    exists|k: nat| #[trigger] reach(p, s1, c, k) && !reach(p, s2, c, k)
}

/// The fish on the cells below `upto` that `s1` reaches strictly sooner than
/// `s2`, added up: `s1`'s territory credit.
pub open spec fn credit<P: GamePosition>(p: P, s1: Side, s2: Side, upto: int) -> nat
    decreases upto,
{
    if upto <= 0 {
        0
    } else {
        credit(p, s1, s2, upto - 1) + (if strictly_closer(p, s1, s2, upto - 1) {
            p.fish_on(upto - 1)
        } else {
            0
        })
    }
}

/// The credit stays below one maximal fish count per cell.
pub proof fn lemma_credit_bound<P: GamePosition>(p: P, s1: Side, s2: Side, upto: int)
    requires
        forall|c: int| 0 <= c < upto ==> #[trigger] p.fish_on(c) <= u32::MAX,
        upto >= 0,
    ensures
        credit(p, s1, s2, upto) <= upto * (u32::MAX as int),
    decreases upto,
{
    if upto > 0 {
        lemma_credit_bound(p, s1, s2, upto - 1);
    }
}

/// The distance comparison of the two flood fills decides `strictly_closer`.
pub proof fn lemma_closer_iff<P: GamePosition>(
    p: P,
    s1: Side,
    s2: Side,
    du: Seq<u64>,
    dopp: Seq<u64>,
    c: int,
)
    requires
        dist_ok(p, s1, du),
        dist_ok(p, s2, dopp),
        0 <= c < p.cell_total(),
    ensures
        (du[c] < dopp[c]) <==> strictly_closer(p, s1, s2, c),
{
    if du[c] < dopp[c] {
        let k = du[c] as nat;
        assert(reach(p, s1, c, k));
        assert(!reach(p, s2, c, k)) by {
            if dopp[c] != UNREACHED {
                if reach(p, s2, c, k) {
                    lemma_reach_mono(p, s2, c, k, (dopp[c] - 1) as nat);
                }
            }
        }
        assert(strictly_closer(p, s1, s2, c));
    }
    if strictly_closer(p, s1, s2, c) {
        let k = choose|k: nat| #[trigger] reach(p, s1, c, k) && !reach(p, s2, c, k);
        assert(du[c] != UNREACHED);
        assert(du[c] <= k) by {
            if du[c] > k {
                lemma_reach_mono(p, s1, c, k, (du[c] - 1) as nat);
            }
        }
        if dopp[c] != UNREACHED {
            assert(du[c] < dopp[c]) by {
                if dopp[c] <= du[c] {
                    lemma_reach_mono(p, s2, c, dopp[c] as nat, k);
                }
            }
        }
    }
}

/// Runs the flood fill for one side and returns the distance of every cell.
#[verifier::loop_isolation(false)]
#[verifier::rlimit(60)]
pub fn distances<P: GamePosition>(p: &P, side: Side) -> (d: Vec<u64>)
    requires
        p.inv(),
    ensures
        dist_ok(*p, side, d@),
{
    proof {
        p.law_board();
    }
    let n = p.cell_count();
    let mut d: Vec<u64> = Vec::new();
    let mut i: usize = 0;
    while i < n
        invariant
            i <= n,
            d@.len() == i,
            forall|t: int| 0 <= t < i ==> d@[t] == UNREACHED,
            count_unreached(d@) == i,
        decreases n - i,
    {
        proof {
            lemma_count_push(d@, UNREACHED);
        }
        d.push(UNREACHED);
        i = i + 1;
    }
    let srcs = p.occupied_cells(side);
    let mut frontier: Vec<usize> = Vec::new();
    let mut si: usize = 0;
    while si < srcs.len()
        invariant
            d@.len() == n,
            forall|c: int| 0 <= c < n && (#[trigger] d@[c]) != UNREACHED ==> d@[c] == 0,
            forall|c: int| 0 <= c < n && (#[trigger] d@[c]) == 0 ==> p.is_source(side, c),
            forall|j: int| 0 <= j < si ==> d@[#[trigger] srcs@[j] as int] == 0,
            forall|t: int|
                0 <= t < frontier@.len() ==> (#[trigger] frontier@[t]) < n
                    && d@[frontier@[t] as int] == 0,
            forall|c: int|
                0 <= c < n && (#[trigger] d@[c]) == 0 ==> exists|t: int|
                    0 <= t < frontier@.len() && frontier@[t] == c,
            count_unreached(d@) + frontier@.len() == n,
        decreases srcs.len() - si,
    {
        let s = srcs[si];
        if d[s] == UNREACHED {
            proof {
                lemma_count_update(d@, s as int, 0);
            }
            let ghost f0 = frontier@;
            let ghost d0 = d@;
            d[s] = 0;
            frontier.push(s);
            proof {
                assert forall|c: int| 0 <= c < n && (#[trigger] d@[c]) == 0 implies exists|t: int|
                    0 <= t < frontier@.len() && frontier@[t] == c by {
                    if c == s as int {
                        assert(frontier@[frontier@.len() - 1] == c);
                    } else {
                        assert(d0[c] == 0);
                        let t = choose|t: int| 0 <= t < f0.len() && f0[t] == c;
                        assert(frontier@[t] == c);
                    }
                }
            }
        }
        si = si + 1;
    }
    let mut level: u64 = 0;
    while frontier.len() > 0
        invariant
            d@.len() == n,
            level <= n,
            forall|c: int|
                0 <= c < n && (#[trigger] d@[c]) != UNREACHED ==> d@[c] <= level && reach(
                    *p,
                    side,
                    c,
                    d@[c] as nat,
                ) && (d@[c] > 0 ==> !reach(*p, side, c, (d@[c] - 1) as nat)),
            forall|c: int| 0 <= c < n && reach(*p, side, c, level as nat) ==> (#[trigger] d@[c])
                != UNREACHED,
            forall|t: int|
                0 <= t < frontier@.len() ==> (#[trigger] frontier@[t]) < n
                    && d@[frontier@[t] as int] == level,
            forall|c: int|
                0 <= c < n && (#[trigger] d@[c]) == level ==> exists|t: int|
                    0 <= t < frontier@.len() && frontier@[t] == c,
            frontier@.len() > 0 ==> level + count_unreached(d@) < n,
        decreases count_unreached(d@), frontier@.len(),
    {
        let ghost d_start = d@;
        let ghost count_start = count_unreached(d@);
        let mut next_f: Vec<usize> = Vec::new();
        let mut fi: usize = 0;
        while fi < frontier.len()
            invariant
                fi <= frontier@.len(),
                d@.len() == n,
                forall|c: int|
                    0 <= c < n && (#[trigger] d_start[c]) != UNREACHED ==> d@[c] == d_start[c],
                forall|c: int|
                    0 <= c < n && (#[trigger] d@[c]) != d_start[c] ==> d_start[c] == UNREACHED
                        && d@[c] == level + 1,
                forall|c: int|
                    0 <= c < n && (#[trigger] d@[c]) != UNREACHED ==> reach(*p, side, c, d@[c] as nat)
                        && (d@[c] > 0 ==> !reach(*p, side, c, (d@[c] - 1) as nat)),
                forall|c: int|
                    0 <= c < n && (#[trigger] d@[c]) == level + 1 ==> exists|t: int|
                        0 <= t < next_f@.len() && next_f@[t] == c,
                forall|t: int|
                    0 <= t < next_f@.len() ==> (#[trigger] next_f@[t]) < n && d@[next_f@[t] as int]
                        == level + 1,
                count_unreached(d@) + next_f@.len() == count_start,
                forall|t: int, b: int|
                    0 <= t < fi && 0 <= b < n && p.edge(#[trigger] frontier@[t] as int, b)
                        ==> #[trigger] d@[b] != UNREACHED,
            decreases frontier@.len() - fi,
        {
            let f = frontier[fi];
            let ds = p.destinations(f);
            let ghost d_mid = d@;
            let mut ti: usize = 0;
            while ti < ds.len()
                invariant
                    ti <= ds@.len(),
                    d@.len() == n,
                    forall|c: int|
                        0 <= c < n && (#[trigger] d_start[c]) != UNREACHED ==> d@[c] == d_start[c],
                    forall|c: int|
                        0 <= c < n && (#[trigger] d@[c]) != d_start[c] ==> d_start[c] == UNREACHED
                            && d@[c] == level + 1,
                    forall|c: int|
                        0 <= c < n && (#[trigger] d_mid[c]) != UNREACHED ==> d@[c] == d_mid[c],
                    forall|c: int|
                        0 <= c < n && (#[trigger] d@[c]) != UNREACHED ==> reach(
                            *p,
                            side,
                            c,
                            d@[c] as nat,
                        ) && (d@[c] > 0 ==> !reach(*p, side, c, (d@[c] - 1) as nat)),
                    forall|c: int|
                        0 <= c < n && (#[trigger] d@[c]) == level + 1 ==> exists|t: int|
                            0 <= t < next_f@.len() && next_f@[t] == c,
                    forall|t: int|
                        0 <= t < next_f@.len() ==> (#[trigger] next_f@[t]) < n && d@[next_f@[t]
                            as int] == level + 1,
                    count_unreached(d@) + next_f@.len() == count_start,
                    forall|t: int, b: int|
                        0 <= t < fi && 0 <= b < n && p.edge(#[trigger] frontier@[t] as int, b)
                            ==> #[trigger] d@[b] != UNREACHED,
                    forall|t: int| 0 <= t < ti ==> #[trigger] d@[ds@[t] as int] != UNREACHED,
                decreases ds@.len() - ti,
            {
                let t = ds[ti];
                if d[t] == UNREACHED {
                    proof {
                        lemma_count_update(d@, t as int, (level + 1) as u64);
                        assert(reach(*p, side, f as int, level as nat));
                        assert(reach(*p, side, t as int, (level + 1) as nat)) by {
                            assert(reach(*p, side, f as int, level as nat) && p.edge(
                                f as int,
                                t as int,
                            ));
                        }
                        assert(!reach(*p, side, t as int, level as nat));
                    }
                    let ghost nf0 = next_f@;
                    let ghost dq0 = d@;
                    d[t] = level + 1;
                    next_f.push(t);
                    proof {
                        assert forall|c: int|
                            0 <= c < n && (#[trigger] d@[c]) == level + 1 implies exists|u: int|
                            0 <= u < next_f@.len() && next_f@[u] == c by {
                            if c == t as int {
                                assert(next_f@[next_f@.len() - 1] == c);
                            } else {
                                assert(dq0[c] == level + 1);
                                let u = choose|u: int| 0 <= u < nf0.len() && nf0[u] == c;
                                assert(next_f@[u] == c);
                            }
                        }
                    }
                }
                ti = ti + 1;
            }
            fi = fi + 1;
        }
        proof {
            assert forall|c: int|
                0 <= c < n && reach(*p, side, c, (level + 1) as nat) implies d@[c]
                != UNREACHED by {
                if d_start[c] == UNREACHED {
                    if p.is_source(side, c) {
                        assert(reach(*p, side, c, level as nat));
                        assert(false);
                    } else {
                        let b = choose|b: int|
                            reach(*p, side, b, level as nat) && #[trigger] p.edge(b, c);
                        assert(0 <= b && b < n);
                        assert(d_start[b] != UNREACHED);
                        let db = d_start[b] as nat;
                        if db < level {
                            assert(reach(*p, side, b, db));
                            assert(reach(*p, side, c, (db + 1) as nat));
                            lemma_reach_mono(*p, side, c, (db + 1) as nat, level as nat);
                            assert(false);
                        } else {
                            assert(db == level);
                            assert(exists|t: int| 0 <= t < frontier@.len() && frontier@[t] == b);
                            let t = choose|t: int| 0 <= t < frontier@.len() && frontier@[t] == b;
                            assert(p.edge(frontier@[t] as int, c));
                            assert(d@[c] != UNREACHED);
                        }
                    }
                }
            }
        }
        frontier = next_f;
        level = level + 1;
    }
    proof {
        assert forall|c: int, k: nat|
            0 <= c < n && (#[trigger] d@[c]) == UNREACHED implies !#[trigger] reach(
            *p,
            side,
            c,
            k,
        ) by {
            assert(saturated(*p, side, level as nat)) by {
                assert forall|c2: int|
                    reach(*p, side, c2, (level + 1) as nat) implies #[trigger] reach(
                    *p,
                    side,
                    c2,
                    level as nat,
                ) by {
                    if !p.is_source(side, c2) {
                        let b = choose|b: int|
                            reach(*p, side, b, level as nat) && #[trigger] p.edge(b, c2);
                        assert(0 <= b && b < n);
                        assert(d@[b] != UNREACHED);
                        assert(d@[b] != level);
                        if level > 0 {
                            assert(d@[b] < level);
                            assert(reach(*p, side, b, d@[b] as nat));
                            lemma_reach_mono(*p, side, b, d@[b] as nat, (level - 1) as nat);
                            assert(reach(*p, side, c2, level as nat));
                        } else {
                            assert(false);
                        }
                    }
                }
            }
            if reach(*p, side, c, k) {
                lemma_reach_saturated(*p, side, level as nat, c, k);
            }
        }
    }
    d
}

} // verus!
