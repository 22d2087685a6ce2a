use vstd::prelude::*;
use vstd::arithmetic::div_mod::{
    lemma_div_nonincreasing, lemma_div_of0, lemma_div_pos_is_pos, lemma_fundamental_div_mod,
};
use vstd::arithmetic::mul::lemma_mul_upper_bound;

verus! {

/// Fixed-point scale: a raw value `v` stands for the real quantity
/// `v / SCALE`, so one simulation unit is `SCALE` raw ticks.
pub const SCALE: i64 = 1_000_000;

/// Largest admissible width or height of the simulation area (raw units).
pub const DIM_CAP: i64 = 1_000_000_000;

/// Largest admissible charge magnitude (raw units).
pub const Q_CAP: i64 = 10_000_000;

/// Largest admissible integration jump factor (raw units).
pub const JUMP_CAP: i64 = 1_000_000_000;

/// Every force-matrix entry is bounded by `Q_CAP * DIM_CAP`, which this
/// constant spells out.
pub const FORCE_CAP: i64 = 10_000_000_000_000_000;

/// Largest admissible number of charges.
pub const MAX_CHARGES: usize = 10_000;

/// Largest admissible grid resolution along either axis.
pub const RES_CAP: usize = 4_096;

/// Division rounding toward zero, the rule every fixed-point quotient of
/// the simulation follows.
pub open spec fn tdiv(a: int, b: int) -> int
    recommends
        b >= 1,
{
    if a >= 0 {
        a / b
    } else {
        -((-a) / b)
    }
}

/// Saturates `v` into the closed interval `[lo, hi]`.
pub open spec fn clamp_s(v: int, lo: int, hi: int) -> int {
    if v < lo {
        lo
    } else if v > hi {
        hi
    } else {
        v
    }
}

/// A truncating quotient never grows in magnitude and keeps the sign of
/// its dividend.
pub proof fn lemma_tdiv_bounds(a: int, b: int)
    requires
        b >= 1,
    ensures
        a >= 0 ==> 0 <= tdiv(a, b) <= a,
        a <= 0 ==> a <= tdiv(a, b) <= 0,
{
    if a >= 0 {
        lemma_div_pos_is_pos(a, b);
        lemma_div_nonincreasing(a, b);
    } else {
        lemma_div_pos_is_pos(-a, b);
        lemma_div_nonincreasing(-a, b);
    }
}

/// Negating the dividend negates a truncating quotient.
pub proof fn lemma_tdiv_neg(a: int, b: int)
    requires
        b >= 1,
    ensures
        tdiv(-a, b) == -tdiv(a, b),
{
    if a == 0 {
        lemma_div_of0(b);
    }
}

/// Divides `a` by `b`, rounding toward zero.
pub fn div_fx(a: i64, b: i64) -> (r: i64)
    requires
        b >= 1,
        a > i64::MIN,
    ensures
        r == tdiv(a as int, b as int),
{
    if a >= 0 {
        ((a as u64) / (b as u64)) as i64
    } else {
        let m: u64 = ((-a) as u64) / (b as u64);
        -(m as i64)
    }
}

/// Divides `a` by `b`, rounding toward zero, on wide intermediates.
pub fn div_fx128(a: i128, b: i128) -> (r: i128)
    requires
        b >= 1,
        a > i128::MIN,
    ensures
        r == tdiv(a as int, b as int),
{
    if a >= 0 {
        ((a as u128) / (b as u128)) as i128
    } else {
        let m: u128 = ((-a) as u128) / (b as u128);
        -(m as i128)
    }
}

/// The integer square root, rounded down, by quartering the argument.
pub open spec fn sqrt_floor(n: nat) -> nat
    decreases n,
{
    if n == 0 {
        0
    } else {
        let r = sqrt_floor(n / 4);
        if (2 * r + 1) * (2 * r + 1) <= n {
            2 * r + 1
        } else {
            2 * r
        }
    }
}

/// `sqrt_floor(n)` is the largest integer whose square is at most `n`.
pub proof fn lemma_sqrt_floor_bounds(n: nat)
    ensures
        sqrt_floor(n) * sqrt_floor(n) <= n,
        n < (sqrt_floor(n) + 1) * (sqrt_floor(n) + 1),
    decreases n,
{
    if n == 0 {
        assert(sqrt_floor(0) == 0);
        assert(n < (sqrt_floor(n) + 1) * (sqrt_floor(n) + 1)) by (nonlinear_arith)
            requires
                n == 0,
                sqrt_floor(n) == 0,
        ;
    } else {
        let m = n / 4;
        lemma_sqrt_floor_bounds(m);
        let r = sqrt_floor(m);
        lemma_fundamental_div_mod(n as int, 4);
        assert(4 * m <= n < 4 * m + 4);
        assert((2 * r) * (2 * r) <= 4 * m && 4 * m + 4 <= (2 * r + 2) * (2 * r + 2))
            by (nonlinear_arith)
            requires
                r * r <= m < (r + 1) * (r + 1),
        ;
        if (2 * r + 1) * (2 * r + 1) <= n {
            assert(sqrt_floor(n) == 2 * r + 1);
            assert(n < (2 * r + 2) * (2 * r + 2));
        } else {
            assert(sqrt_floor(n) == 2 * r);
            assert((2 * r) * (2 * r) <= n);
        }
    }
}

/// Only one integer can sit between the two squares that bracket `n`.
pub proof fn lemma_sqrt_unique(n: nat, r: nat)
    requires
        r * r <= n,
        n < (r + 1) * (r + 1),
    ensures
        r == sqrt_floor(n),
{
    lemma_sqrt_floor_bounds(n);
    let s = sqrt_floor(n);
    assert(r == s) by (nonlinear_arith)
        requires
            r * r <= n < (r + 1) * (r + 1),
            s * s <= n < (s + 1) * (s + 1),
    ;
}

/// Computes the integer square root of `n` by bisection.
pub fn isqrt(n: u64) -> (r: u64)
    ensures
        r == sqrt_floor(n as nat),
        r * r <= n < (r + 1) * (r + 1),
{
    if n == 0 {
        proof {
            lemma_sqrt_floor_bounds(0);
        }
        return 0;
    }
    let mut lo: u64 = 0;
    let mut hi: u64 = 4_294_967_296;
    while lo + 1 < hi
        invariant
            lo < hi <= 4_294_967_296,
            (lo as int) * (lo as int) <= n as int,
            (n as int) < (hi as int) * (hi as int),
        decreases hi - lo,
    {
        let mid = lo + (hi - lo) / 2;
        proof {
            lemma_mul_upper_bound(mid as int, 4_294_967_295, mid as int, 4_294_967_295);
        }
        let sq = mid * mid;
        if sq <= n {
            lo = mid;
        } else {
            hi = mid;
        }
    }
    proof {
        lemma_sqrt_unique(n as nat, lo as nat);
    }
    lo
}

} // verus!
