//! Fixed-point arithmetic helpers.
//!
//! World-space lengths, heights and zoom scales are stored as `i64` counts of
//! millionths of a world unit ([`SCALE`] units make one world unit). Angles
//! are counted in millionths of a degree and time in microseconds, so every
//! derived quantity in the crate is exact integer arithmetic.

use vstd::prelude::*;

verus! {

/// Number of fixed-point units in one world unit.
pub const SCALE: i64 = 1_000_000;

/// Quotient of `a / b` rounded toward zero, for a positive divisor.
pub open spec fn div_trunc_pos(a: int, b: int) -> int
    recommends
        b > 0,
{
    if a >= 0 {
        a / b
    } else {
        -((-a) / b)
    }
}

/// Quotient of `a / b` rounded toward zero, for any nonzero divisor.
pub open spec fn div_trunc(a: int, b: int) -> int
    recommends
        b != 0,
{
    if b > 0 {
        div_trunc_pos(a, b)
    } else {
        -div_trunc_pos(a, -b)
    }
}

/// The magnitude of a truncating quotient never exceeds the magnitude of the
/// dividend scaled down by the divisor: from `|a| <= m * |b|` follows
/// `|div_trunc(a, b)| <= m`.
pub proof fn lemma_div_trunc_bound(a: int, b: int, m: int)
    requires
        b != 0,
        m >= 0,
        -m * (if b > 0 { b } else { -b }) <= a <= m * (if b > 0 { b } else { -b }),
    ensures
        -m <= div_trunc(a, b) <= m,
{
    let p = if b > 0 { b } else { -b };
    assert(p > 0);
    assert(-m * p == -(m * p)) by (nonlinear_arith);
    if a >= 0 {
        assert(a / p <= m) by (nonlinear_arith)
            requires
                p > 0,
                0 <= a <= m * p,
                m >= 0,
        ;
        assert(a / p >= 0) by (nonlinear_arith)
            requires
                p > 0,
                a >= 0,
        ;
    } else {
        assert((-a) / p <= m) by (nonlinear_arith)
            requires
                p > 0,
                0 <= -a <= m * p,
                m >= 0,
        ;
        assert((-a) / p >= 0) by (nonlinear_arith)
            requires
                p > 0,
                -a >= 0,
        ;
    }
}

/// Truncating division of `a` by `b`: the quotient rounded toward zero,
/// symmetric for positive and negative dividends.
pub fn div_trunc_i64(a: i64, b: i64) -> (r: i64)
    requires
        b != 0,
        a > i64::MIN,
        b > i64::MIN,
    ensures
        r == div_trunc(a as int, b as int),
        -(if a >= 0 { a as int } else { -(a as int) }) <= r
            <= (if a >= 0 { a as int } else { -(a as int) }),
{
    let an: i64 = if a >= 0 { a } else { -a };
    let bp: i64 = if b >= 0 { b } else { -b };
    proof {
        assert(an / bp <= an) by (nonlinear_arith)
            requires
                an >= 0,
                bp >= 1,
        ;
        assert(an / bp >= 0) by (nonlinear_arith)
            requires
                an >= 0,
                bp >= 1,
        ;
    }
    let q: i64 = an / bp;
    if (a >= 0) == (b >= 0) {
        q
    } else {
        -q
    }
}

/// `x` clamped into `[lo, hi]`.
pub fn clamp_i64(x: i64, lo: i64, hi: i64) -> (r: i64)
    requires
        lo <= hi,
    ensures
        r == if x < lo {
            lo
        } else if x > hi {
            hi
        } else {
            x
        },
        lo <= r <= hi,
{
    if x < lo {
        lo
    } else if x > hi {
        hi
    } else {
        x
    }
}

/// Integer square root: the greatest `r` with `r * r <= x`.
pub fn isqrt64(x: u64) -> (r: u64)
    ensures
        r * r <= x,
        x < (r + 1) * (r + 1),
{
    let mut lo: u64 = 0;
    let mut hi: u64 = 0x1_0000_0000;
    proof {
        assert(hi * hi > x) by (nonlinear_arith)
            requires
                hi == 0x1_0000_0000u64,
                x <= u64::MAX,
        ;
    }
    while lo + 1 < hi
        invariant
            lo < hi,
            hi <= 0x1_0000_0000,
            lo * lo <= x,
            x < hi * hi,
        decreases hi - lo,
    {
        let mid: u64 = lo + (hi - lo) / 2;
        proof {
            assert(mid * mid <= 0xffff_ffffu64 * 0xffff_ffffu64) by (nonlinear_arith)
                requires
                    mid <= 0xffff_ffffu64,
            ;
        }
        if mid * mid <= x {
            lo = mid;
        } else {
            hi = mid;
        }
    }
    lo
}

/// Two integer square roots are ordered as their arguments are.
pub proof fn lemma_isqrt_mono(r1: int, x1: int, r2: int, x2: int)
    requires
        r1 >= 0,
        r2 >= 0,
        r1 * r1 <= x1 < (r1 + 1) * (r1 + 1),
        r2 * r2 <= x2 < (r2 + 1) * (r2 + 1),
        x1 <= x2,
    ensures
        r1 <= r2,
{
    if r1 > r2 {
        assert((r2 + 1) * (r2 + 1) <= r1 * r1) by (nonlinear_arith)
            requires
                0 <= r2 < r1,
        ;
    }
}

} // verus!
