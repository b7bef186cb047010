//! Integer arithmetic helpers for the fixed-point selection rule.

use vstd::arithmetic::power2::lemma2_to64;
use vstd::arithmetic::power2::lemma_pow2_strictly_increases;
use vstd::arithmetic::power2::pow2;
use vstd::prelude::*;

verus! {

/// The floor of the base-two logarithm: the number of halvings that take
/// `n` down to one.
pub open spec fn log2(n: nat) -> nat
    decreases n,
{
    if n <= 1 {
        0
    } else {
        1 + log2(n / 2)
    }
}

proof fn lemma_log2_bound(n: nat, k: nat, m: nat)
    requires
        pow2(k) * m <= n,
        m >= 1,
        n < pow2(64),
    ensures
        k < 64,
    decreases 64int - k,
{
    if k >= 64 {
        if k > 64 {
            lemma_pow2_strictly_increases(64, k);
        }
        assert(pow2(k) >= pow2(64));
        assert(pow2(k) * m >= pow2(k) * 1) by (nonlinear_arith)
            requires
                m >= 1,
        ;
    }
}

/// Computes the floor of the base-two logarithm of `n`.
pub fn log2_floor(n: u64) -> (k: u64)
    requires
        n >= 1,
    ensures
        k == log2(n as nat),
        k < 64,
{
    let mut m: u64 = n;
    let mut k: u64 = 0;
    proof {
        lemma2_to64();
    }
    while m > 1
        invariant
            m >= 1,
            log2(n as nat) == k + log2(m as nat),
            pow2(k as nat) * m <= n,
            n < pow2(64),
            k < 64,
        decreases m,
    {
        proof {
            assert(pow2((k + 1) as nat) == 2 * pow2(k as nat)) by {
                vstd::arithmetic::power2::lemma_pow2_unfold((k + 1) as nat);
            }
            assert(pow2((k + 1) as nat) * (m as nat / 2) <= pow2(k as nat) * m) by (nonlinear_arith)
                requires
                    pow2((k + 1) as nat) == 2 * pow2(k as nat),
                    m >= 1,
            ;
        }
        m = m / 2;
        k = k + 1;
        proof {
            lemma_log2_bound(n as nat, k as nat, m as nat);
        }
    }
    k
}

/// Two raised to the floored logarithm stays below its argument.
pub proof fn lemma_pow2_log2(n: nat)
    requires
        n >= 1,
    ensures
        pow2(log2(n)) <= n,
    decreases n,
{
    if n > 1 {
        lemma_pow2_log2(n / 2);
        assert(pow2(log2(n)) == 2 * pow2(log2(n / 2))) by {
            vstd::arithmetic::power2::lemma_pow2_unfold((1 + log2(n / 2)) as nat);
        }
    } else {
        assert(pow2(0) == 1) by {
            lemma2_to64();
        }
    }
}

/// The floored logarithm of anything that fits sixty-four bits stays below
/// sixty-four.
pub proof fn lemma_log2_u64(n: u64)
    requires
        n >= 1,
    ensures
        log2(n as nat) < 64,
{
    lemma_pow2_log2(n as nat);
    if log2(n as nat) >= 64 {
        if log2(n as nat) > 64 {
            lemma_pow2_strictly_increases(64, log2(n as nat));
        }
        lemma2_to64();
        vstd::arithmetic::power2::lemma2_to64_rest();
        assert(pow2(64) > u64::MAX);
    }
}

/// The integer square root: the greatest `r` with `r * r <= x`.
pub open spec fn sqrt_floor(x: nat) -> nat
    decreases x,
{
    if x == 0 {
        0
    } else {
        let s = sqrt_floor((x - 1) as nat);
        if (s + 1) * (s + 1) <= x {
            s + 1
        } else {
            s
        }
    }
}

pub proof fn lemma_sqrt_floor_bounds(x: nat)
    ensures
        sqrt_floor(x) * sqrt_floor(x) <= x,
        x < (sqrt_floor(x) + 1) * (sqrt_floor(x) + 1),
    decreases x,
{
    if x == 0 {
        assert(sqrt_floor(0) == 0);
        assert(sqrt_floor(x) * sqrt_floor(x) <= x);
        assert((sqrt_floor(x) + 1) * (sqrt_floor(x) + 1) == 1) by (nonlinear_arith)
            requires
                sqrt_floor(x) == 0,
        ;
        assert(x < (sqrt_floor(x) + 1) * (sqrt_floor(x) + 1));
    } else {
        lemma_sqrt_floor_bounds((x - 1) as nat);
        let s = sqrt_floor((x - 1) as nat);
        assert(s * s <= x - 1);
        assert(x - 1 < (s + 1) * (s + 1));
        if (s + 1) * (s + 1) <= x {
            assert(sqrt_floor(x) == s + 1);
            assert(x <= (s + 1) * (s + 1));
            assert((s + 1) * (s + 1) < (s + 2) * (s + 2)) by (nonlinear_arith);
            assert(x < (sqrt_floor(x) + 1) * (sqrt_floor(x) + 1));
        } else {
            assert(sqrt_floor(x) == s);
            assert(sqrt_floor(x) * sqrt_floor(x) <= x);
            assert(x < (sqrt_floor(x) + 1) * (sqrt_floor(x) + 1));
        }
    }
}

/// The square-root bounds pin the root down: anything that satisfies them is
/// `sqrt_floor`.
pub proof fn lemma_sqrt_unique(x: nat, r: nat)
    requires
        r * r <= x,
        x < (r + 1) * (r + 1),
    ensures
        r == sqrt_floor(x),
{
    lemma_sqrt_floor_bounds(x);
    let s = sqrt_floor(x);
    if r < s {
        assert((r + 1) * (r + 1) <= s * s) by (nonlinear_arith)
            requires
                r + 1 <= s,
        ;
    }
    if s < r {
        assert((s + 1) * (s + 1) <= r * r) by (nonlinear_arith)
            requires
                s + 1 <= r,
        ;
    }
}

/// Computes the integer square root: the greatest `r` with `r * r <= x`.
pub fn isqrt(x: u64) -> (r: u64)
    ensures
        r * r <= x,
        x < (r + 1) * (r + 1),
        r == sqrt_floor(x as nat),
{
    if x == 0 {
        return 0;
    }
    let mut lo: u64 = 0;
    let mut hi: u64 = 4294967296;
    proof {
        assert((4294967296u64 as int) * (4294967296u64 as int) > u64::MAX as int)
            by (nonlinear_arith);
    }
    while lo + 1 < hi
        invariant
            lo < hi,
            hi <= 4294967296,
            lo * lo <= x,
            x < hi * hi,
        decreases hi - lo,
    {
        let mid: u64 = lo + (hi - lo) / 2;
        assert(lo < mid < hi);
        assert(mid * mid < 4294967296u64 * 4294967296u64) by (nonlinear_arith)
            requires
                mid < 4294967296u64,
        ;
        assert((4294967296u64 as int) * (4294967296u64 as int) == 0x10000000000000000)
            by (nonlinear_arith);
        if mid * mid <= x {
            lo = mid;
        } else {
            hi = mid;
        }
    }
    proof {
        lemma_sqrt_unique(x as nat, lo as nat);
    }
    lo
}

} // verus!
