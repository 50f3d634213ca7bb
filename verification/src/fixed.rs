//! Fixed-point arithmetic for the UCB1 selection score.
//!
//! The engine keeps rewards and scores as integers scaled by one million
//! ("micro" units), so every computation here is exact integer arithmetic
//! with a proved relation to the mathematical definitions below.

use vstd::prelude::*;
use vstd::arithmetic::power2::pow2;

verus! {

/// One unit of reward, expressed in micro units.
pub const SCALE: u64 = 1_000_000;

/// The natural logarithm of 2, in micro units (rounded down).
pub const LN2_MICRO: u64 = 693_147;

/// Floor of the base-2 logarithm, defined recursively by halving.
pub open spec fn lg(a: nat) -> nat
    decreases a,
{
    if a < 2 {
        0
    } else {
        1 + lg(a / 2)
    }
}

/// `lg` really is the floor of the base-2 logarithm: `2^lg(a) <= a < 2^(lg(a)+1)`.
pub proof fn lemma_lg_bounds(a: nat)
    requires
        1 <= a,
    ensures
        pow2(lg(a)) <= a,
        a < pow2(lg(a) + 1),
    decreases a,
{
    vstd::arithmetic::power2::lemma_pow2_unfold(lg(a) + 1);
    if a < 2 {
        vstd::arithmetic::power2::lemma2_to64();
    } else {
        lemma_lg_bounds(a / 2);
        vstd::arithmetic::power2::lemma_pow2_unfold(lg(a));
    }
}

/// Anything below `2 * pow2(low)` is also below every higher power of two.
proof fn lemma_pow2_ordered(low: nat, high: nat, a: nat)
    requires
        low < high,
        a < 2 * pow2(low),
    ensures
        a < pow2(high),
{
    assert(pow2(low + 1) == 2 * pow2(low)) by {
        vstd::arithmetic::power2::lemma_pow2_unfold(low + 1);
    };
    if low + 1 < high {
        vstd::arithmetic::power2::lemma_pow2_strictly_increases(low + 1, high);
    }
}

/// Two powers of two that both sandwich `a` have the same exponent.
proof fn lemma_pow2_sandwich(m1: nat, m2: nat, a: nat)
    requires
        pow2(m1) <= a,
        a < 2 * pow2(m1),
        pow2(m2) <= a,
        a < 2 * pow2(m2),
    ensures
        m1 == m2,
{
    if m1 < m2 {
        lemma_pow2_ordered(m1, m2, a);
    } else if m2 < m1 {
        lemma_pow2_ordered(m2, m1, a);
    }
}

/// Floor of the base-2 logarithm, together with the matching power of two.
/// Returns `(m, p)` with `p == 2^m` and `p <= x < 2 * p`.
pub fn floor_log2(x: u64) -> (r: (u32, u64))
    requires
        1 <= x,
    ensures
        r.0 == lg(x as nat),
        r.0 <= 63,
        r.1 == pow2(r.0 as nat),
        r.1 <= x,
        x < 2 * r.1,
{
    let mut m: u32 = 0;
    let mut t: u64 = 1;
    proof {
        vstd::arithmetic::power2::lemma2_to64();
    }
    while t <= x / 2
        invariant
            1 <= x,
            1 <= t,
            t == pow2(m as nat),
            t <= x,
            m <= 63,
        decreases x - t,
    {
        proof {
            vstd::arithmetic::power2::lemma_pow2_unfold(m as nat + 1);
            if m as nat + 1 >= 64 {
                vstd::arithmetic::power2::lemma_pow2_strictly_increases(63, m as nat + 1);
                vstd::arithmetic::power2::lemma2_to64();
            }
        }
        t = t * 2;
        m = m + 1;
    }
    proof {
        lemma_lg_bounds(x as nat);
        vstd::arithmetic::power2::lemma_pow2_unfold(lg(x as nat) + 1);
        lemma_pow2_sandwich(m as nat, lg(x as nat), x as nat);
    }
    (m, t)
}

/// Floor of the square root, defined by counting up.
pub open spec fn sqrt_floor(x: nat) -> nat
    decreases x,
{
    if x == 0 {
        0
    } else {
        let s = sqrt_floor((x - 1) as nat);
        if (s + 1) * (s + 1) <= x {
            s + 1
        } else {
            s
        }
    }
}

/// `sqrt_floor` really is the floor of the square root.
pub proof fn lemma_sqrt_floor_bounds(x: nat)
    ensures
        sqrt_floor(x) * sqrt_floor(x) <= x,
        x < (sqrt_floor(x) + 1) * (sqrt_floor(x) + 1),
    decreases x,
{
    if x > 0 {
        lemma_sqrt_floor_bounds((x - 1) as nat);
        let s = sqrt_floor((x - 1) as nat);
        if (s + 1) * (s + 1) <= x {
            assert(sqrt_floor(x) == s + 1);
            assert(x <= (s + 1) * (s + 1));
            assert(x < (s + 2) * (s + 2)) by (nonlinear_arith)
                requires x <= (s + 1) * (s + 1);
            assert(sqrt_floor(x) * sqrt_floor(x) <= x);
            assert(x < (sqrt_floor(x) + 1) * (sqrt_floor(x) + 1));
        } else {
            assert(sqrt_floor(x) == s);
            assert(sqrt_floor(x) * sqrt_floor(x) <= x);
            assert(x < (sqrt_floor(x) + 1) * (sqrt_floor(x) + 1));
        }
    } else {
        assert(sqrt_floor(x) == 0);
        assert(sqrt_floor(x) * sqrt_floor(x) <= x) by (nonlinear_arith)
            requires x == 0 && sqrt_floor(x) == 0;
        assert(x < (sqrt_floor(x) + 1) * (sqrt_floor(x) + 1)) by (nonlinear_arith)
            requires x == 0 && sqrt_floor(x) == 0;
    }
}

/// The floor of the square root is the only value sitting between the
/// two consecutive squares around `x`.
pub proof fn lemma_sqrt_unique(x: nat, r: nat)
    requires
        r * r <= x,
        x < (r + 1) * (r + 1),
    ensures
        r == sqrt_floor(x),
{
    let s = sqrt_floor(x);
    lemma_sqrt_floor_bounds(x);
    if r < s {
        assert((r + 1) * (r + 1) <= s * s) by (nonlinear_arith)
            requires r + 1 <= s;
    }
    if s < r {
        assert((s + 1) * (s + 1) <= r * r) by (nonlinear_arith)
            requires s + 1 <= r;
    }
}

/// Floor of the square root, by binary search.
pub fn isqrt(x: u64) -> (r: u64)
    ensures
        r == sqrt_floor(x as nat),
{
    let mut lo: u64 = 0;
    let mut hi: u64 = 0x1_0000_0000;
    proof {
        assert((0x1_0000_0000 as int) * (0x1_0000_0000 as int) > u64::MAX as int) by (nonlinear_arith);
    }
    while hi - lo > 1
        invariant
            lo < hi,
            hi <= 0x1_0000_0000,
            (lo as int) * (lo as int) <= x as int,
            (x as int) < (hi as int) * (hi as int),
        decreases hi - lo,
    {
        let mid: u64 = lo + (hi - lo) / 2;
        proof {
            assert((mid as int) * (mid as int) <= 0x1_0000_0000_0000_0000) by (nonlinear_arith)
                requires mid <= 0x1_0000_0000;
        }
        if (mid as u128) * (mid as u128) <= x as u128 {
            lo = mid;
        } else {
            hi = mid;
        }
    }
    proof {
        lemma_sqrt_unique(x as nat, lo as nat);
    }
    lo
}

/// The fixed-point natural logarithm: `ln2 * lg(a)` plus a linear
/// interpolation between the two neighbouring powers of two, in micro units.
pub open spec fn ln_micro_spec(a: nat) -> int {
    LN2_MICRO * lg(a) + (a - pow2(lg(a))) * LN2_MICRO / pow2(lg(a)) as int
}

/// Fixed-point natural logarithm (micro units), exact with respect to
/// `ln_micro_spec`.
pub fn ln_micro(a: u64) -> (r: u64)
    requires
        1 <= a,
    ensures
        r == ln_micro_spec(a as nat),
        r <= 64 * LN2_MICRO,
{
    let (m, p) = floor_log2(a);
    proof {
        vstd::arithmetic::div_mod::lemma_multiply_divide_lt(
            (a - p) * LN2_MICRO,
            p as int,
            LN2_MICRO as int,
        );
        assert((a - p) * (LN2_MICRO as int) < (p as int) * (LN2_MICRO as int)) by (nonlinear_arith)
            requires 0 <= a - p < p as int;
    }
    let frac: u64 = (((a - p) as u128 * LN2_MICRO as u128) / (p as u128)) as u64;
    LN2_MICRO * (m as u64) + frac
}

/// Saturating addition, pinned exactly.
pub open spec fn sat_add_spec(a: u64, b: u64) -> u64 {
    if a + b > u64::MAX {
        u64::MAX
    } else {
        (a + b) as u64
    }
}

/// Saturating addition on `u64`.
pub fn sat_add(a: u64, b: u64) -> (r: u64)
    ensures
        r == sat_add_spec(a, b),
{
    if a > u64::MAX - b {
        u64::MAX
    } else {
        a + b
    }
}

} // verus!
