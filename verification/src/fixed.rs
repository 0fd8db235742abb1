use vstd::prelude::*;
use vstd::arithmetic::div_mod::{
    lemma_div_is_ordered, lemma_div_nonincreasing, lemma_div_pos_is_pos,
    lemma_fundamental_div_mod, lemma_mod_bound,
};
use vstd::arithmetic::mul::lemma_mul_inequality;

verus! {

/// One unit of the fixed-point scale: every scalar carries six decimal places.
pub const FX_ONE: i64 = 1_000_000;

/// Largest magnitude accepted for a screen coordinate, a pan delta, a scroll
/// delta or a stored offset (one million pixels).
pub const COORD_LIMIT: i64 = 1_000_000_000_000;

/// Division truncating toward zero, the rounding used by every fixed-point
/// quotient in the library.
pub open spec fn div_t(a: int, b: int) -> int
    recommends
        b > 0,
{
    if a >= 0 {
        a / b
    } else {
        -((-a) / b)
    }
}

/// Absolute value.
pub open spec fn abs_i(x: int) -> int {
    if x >= 0 {
        x
    } else {
        -x
    }
}

/// Clamp `x` into `[lo, hi]`.
pub open spec fn clamp_i(x: int, lo: int, hi: int) -> int {
    if x < lo {
        lo
    } else if x > hi {
        hi
    } else {
        x
    }
}

/// A truncating quotient keeps the sign of the dividend and never grows in
/// magnitude.
pub proof fn lemma_div_t_mag(a: int, b: int)
    requires
        b >= 1,
    ensures
        a >= 0 ==> 0 <= div_t(a, b) <= a,
        a < 0 ==> a <= div_t(a, b) <= 0,
        b > a >= 0 ==> div_t(a, b) == 0,
{
    if a >= 0 {
        lemma_div_pos_is_pos(a, b);
        lemma_div_nonincreasing(a, b);
        if b > a {
            vstd::arithmetic::div_mod::lemma_basic_div(a, b);
        }
    } else {
        lemma_div_pos_is_pos(-a, b);
        lemma_div_nonincreasing(-a, b);
    }
}

/// Scaling by a factor of at most one (in fixed-point) never grows the
/// magnitude: `|d * s / FX_ONE| <= |d|`, and the sign of `d` is kept.
pub proof fn lemma_scale_down(d: int, s: int)
    requires
        0 < s <= FX_ONE,
    ensures
        d >= 0 ==> 0 <= div_t(d * s, FX_ONE as int) <= d,
        d < 0 ==> d <= div_t(d * s, FX_ONE as int) <= 0,
{
    if d >= 0 {
        lemma_mul_inequality(s, FX_ONE as int, d);
        assert(d * s == s * d) by (nonlinear_arith);
        assert(d * FX_ONE == FX_ONE * d) by (nonlinear_arith);
        lemma_div_is_ordered(d * s, d * FX_ONE, FX_ONE as int);
        vstd::arithmetic::div_mod::lemma_div_multiples_vanish(d, FX_ONE as int);
        lemma_div_pos_is_pos(d * s, FX_ONE as int);
        assert(d * s >= 0) by (nonlinear_arith)
            requires d >= 0 && s > 0;
    } else {
        let n = -d;
        assert(-(d * s) == n * s) by (nonlinear_arith)
            requires n == -d;
        lemma_mul_inequality(s, FX_ONE as int, n);
        assert(n * s == s * n) by (nonlinear_arith);
        assert(n * FX_ONE == FX_ONE * n) by (nonlinear_arith);
        lemma_div_is_ordered(n * s, n * FX_ONE, FX_ONE as int);
        vstd::arithmetic::div_mod::lemma_div_multiples_vanish(n, FX_ONE as int);
        lemma_div_pos_is_pos(n * s, FX_ONE as int);
        assert(n * s >= 0) by (nonlinear_arith)
            requires n >= 0 && s > 0;
    }
}

/// A scaled step of a distance at least `eps` is at least one unit, provided
/// the factor `s` satisfies `s * eps >= FX_ONE`.
pub proof fn lemma_scale_step_nonzero(d: int, s: int, eps: int)
    requires
        0 < s <= FX_ONE,
        eps > 0,
        s * eps >= FX_ONE,
        d >= eps || d <= -eps,
    ensures
        d >= eps ==> div_t(d * s, FX_ONE as int) >= 1,
        d <= -eps ==> div_t(d * s, FX_ONE as int) <= -1,
{
    if d >= eps {
        assert(d * s >= eps * s) by (nonlinear_arith)
            requires d >= eps && s > 0;
        assert(eps * s == s * eps);
        lemma_div_is_ordered(FX_ONE as int, d * s, FX_ONE as int);
        assert(FX_ONE as int / FX_ONE as int == 1) by {
            vstd::arithmetic::div_mod::lemma_div_by_self(FX_ONE as int);
        }
    } else {
        let n = -d;
        assert(n * s >= eps * s) by (nonlinear_arith)
            requires n >= eps && s > 0;
        assert(eps * s == s * eps);
        lemma_div_is_ordered(FX_ONE as int, n * s, FX_ONE as int);
        assert(FX_ONE as int / FX_ONE as int == 1) by {
            vstd::arithmetic::div_mod::lemma_div_by_self(FX_ONE as int);
        }
        assert(-(d * s) == n * s) by (nonlinear_arith)
            requires n == -d;
    }
}

/// A dividend bounded by `k * b` has its truncating quotient bounded by `k`.
pub proof fn lemma_div_t_quotient_bound(a: int, b: int, k: int)
    requires
        b >= 1,
        k >= 0,
        -(k * b) <= a <= k * b,
    ensures
        -k <= div_t(a, b) <= k,
{
    assert(k * b == b * k) by (nonlinear_arith);
    vstd::arithmetic::div_mod::lemma_div_multiples_vanish(k, b);
    if a >= 0 {
        lemma_div_is_ordered(a, k * b, b);
        lemma_div_pos_is_pos(a, b);
    } else {
        lemma_div_is_ordered(-a, k * b, b);
        lemma_div_pos_is_pos(-a, b);
    }
}

/// A scalar at least `b` in magnitude has a square at least `b * b`.
pub proof fn lemma_sq_ge(a: int, b: int)
    requires
        b >= 0,
        a >= b || a <= -b,
    ensures
        a * a >= b * b,
{
    assert(a * a >= b * b) by (nonlinear_arith)
        requires b >= 0 && (a >= b || a <= -b);
}

/// A product of bounded factors is bounded by the product of the bounds.
pub proof fn lemma_mul_bounds(x: int, y: int, xb: int, yb: int)
    requires
        -xb <= x <= xb,
        -yb <= y <= yb,
        xb >= 0,
        yb >= 0,
    ensures
        -(xb * yb) <= x * y <= xb * yb,
{
    assert(-(xb * yb) <= x * y <= xb * yb) by (nonlinear_arith)
        requires -xb <= x <= xb && -yb <= y <= yb && xb >= 0 && yb >= 0;
}

/// Truncating division on wide integers; intermediates stay inside `i128`.
pub fn div_fx(a: i128, b: i128) -> (r: i128)
    requires
        b > 0,
        -0x4000_0000_0000_0000_0000_0000_0000_0000 < a
            < 0x4000_0000_0000_0000_0000_0000_0000_0000,
    ensures
        r == div_t(a as int, b as int),
        a >= 0 ==> 0 <= r <= a,
        a < 0 ==> a <= r <= 0,
{
    proof {
        lemma_div_t_mag(a as int, b as int);
    }
    if a >= 0 {
        ((a as u128) / (b as u128)) as i128
    } else {
        -((((-a) as u128) / (b as u128)) as i128)
    }
}

/// A lower bound for the integer part of `a / FX_ONE`: the result `f`
/// satisfies `f * FX_ONE <= a`, so every integer `p` with `p * FX_ONE >= a`
/// lies at or above `f`.
pub fn floor_lb(a: i64) -> (f: i64)
    requires
        -0x2000_0000_0000_0000 < a < 0x2000_0000_0000_0000,
    ensures
        f * FX_ONE <= a,
        a >= 0 ==> 0 <= f <= a,
{
    let one: i64 = FX_ONE;
    if a >= 0 {
        let q = ((a as u64) / (one as u64)) as i64;
        proof {
            lemma_fundamental_div_mod(a as int, one as int);
            lemma_mod_bound(a as int, one as int);
            lemma_div_pos_is_pos(a as int, one as int);
            lemma_div_nonincreasing(a as int, one as int);
        }
        q
    } else {
        let q = (((-a) as u64) / (one as u64)) as i64;
        proof {
            lemma_fundamental_div_mod(-a as int, one as int);
            lemma_mod_bound(-a as int, one as int);
            lemma_div_pos_is_pos(-a as int, one as int);
            lemma_div_nonincreasing(-a as int, one as int);
            assert((-q - 1) * FX_ONE == -(q * FX_ONE) - FX_ONE) by (nonlinear_arith);
        }
        -q - 1
    }
}

/// An upper bound for `a / FX_ONE`: the result `c` satisfies
/// `c * FX_ONE >= a`, so every integer `p` with `p * FX_ONE <= a` lies at or
/// below `c`.
pub fn ceil_ub(a: i64) -> (c: i64)
    requires
        -0x2000_0000_0000_0000 < a < 0x2000_0000_0000_0000,
    ensures
        c * FX_ONE >= a,
{
    let one: i64 = FX_ONE;
    if a >= 0 {
        let q = ((a as u64) / (one as u64)) as i64;
        proof {
            lemma_fundamental_div_mod(a as int, one as int);
            lemma_mod_bound(a as int, one as int);
            lemma_div_pos_is_pos(a as int, one as int);
            lemma_div_nonincreasing(a as int, one as int);
            assert((q + 1) * FX_ONE == q * FX_ONE + FX_ONE) by (nonlinear_arith);
        }
        q + 1
    } else {
        let q = (((-a) as u64) / (one as u64)) as i64;
        proof {
            lemma_fundamental_div_mod(-a as int, one as int);
            lemma_mod_bound(-a as int, one as int);
            lemma_div_pos_is_pos(-a as int, one as int);
            lemma_div_nonincreasing(-a as int, one as int);
            assert((-q) * FX_ONE == -(q * FX_ONE)) by (nonlinear_arith);
        }
        -q
    }
}

} // verus!
