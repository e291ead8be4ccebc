//! Fixed-point arithmetic with nine decimal places, over `i64` values.
//!
//! A value `v: i64` stands for the real number `v / SCALE`. Products are
//! rescaled with truncation toward zero, the same rounding every other
//! operation of this library uses.

use vstd::prelude::*;
use vstd::arithmetic::div_mod::{
    lemma_div_is_ordered, lemma_div_multiples_vanish, lemma_div_nonincreasing,
    lemma_div_pos_is_pos, lemma_fundamental_div_mod, lemma_mod_bound,
};
use vstd::arithmetic::mul::lemma_mul_is_commutative;

verus! {

/// Number of fixed-point units in 1.0: values carry nine decimal places.
pub const SCALE: i64 = 1_000_000_000;

/// Largest magnitude a compartment value may take (10.0 in real terms).
/// Intermediate Runge-Kutta states are clamped into this window, which keeps
/// every product representable; a simulation that stays near proportions in
/// [0, 1] never touches the clamp.
pub const STATE_LIMIT: i64 = 10_000_000_000;

/// Division truncating toward zero, for a positive divisor. This is the
/// rounding of the fixed-point operations; note that the plain `/` of
/// specifications is Euclidean, which differs on negative dividends.
pub open spec fn tdiv(a: int, d: int) -> int
    recommends
        1 <= d,
{
    if a >= 0 {
        a / d
    } else {
        -((-a) / d)
    }
}

/// What `tdiv` leaves behind: `a == tdiv(a, d) * d + tmod(a, d)`.
pub open spec fn tmod(a: int, d: int) -> int
    recommends
        1 <= d,
{
    a - tdiv(a, d) * d
}

/// Fixed-point product: the integer product, scaled back down with
/// truncation toward zero.
pub open spec fn scaled_mul(a: int, b: int) -> int {
    tdiv(a * b, SCALE as int)
}

/// A value forced into the representable compartment window.
pub open spec fn clamped(x: int) -> int {
    if x > STATE_LIMIT as int {
        STATE_LIMIT as int
    } else if x < -(STATE_LIMIT as int) {
        -(STATE_LIMIT as int)
    } else {
        x
    }
}

/// Truncation never grows a magnitude, and it shrinks in proportion to the
/// divisor: a dividend within `m` yields a quotient within `m / d`.
pub proof fn lemma_tdiv_bound(a: int, d: int, m: int)
    requires
        1 <= d,
        0 <= m,
        -m <= a <= m,
    ensures
        -(m / d) <= tdiv(a, d) <= m / d,
        -m <= tdiv(a, d) <= m,
{
    lemma_div_nonincreasing(m, d);
    if a >= 0 {
        lemma_div_pos_is_pos(a, d);
        lemma_div_is_ordered(a, m, d);
    } else {
        lemma_div_pos_is_pos(-a, d);
        lemma_div_is_ordered(-a, m, d);
    }
}

/// Truncating division of zero is zero.
pub proof fn lemma_tdiv_zero(d: int)
    requires
        1 <= d,
    ensures
        tdiv(0, d) == 0,
{
    lemma_tdiv_bound(0, d, 0);
}

/// Truncating division preserves order on non-negative dividends.
pub proof fn lemma_tdiv_ordered(a: int, b: int, d: int)
    requires
        1 <= d,
        0 <= a <= b,
    ensures
        tdiv(a, d) <= tdiv(b, d),
{
    lemma_div_is_ordered(a, b, d);
}

/// A non-negative dividend strictly below `n * d` has quotient below `n`.
pub proof fn lemma_tdiv_below(a: int, d: int, n: int)
    requires
        1 <= d,
        0 <= n,
        0 <= a,
        a < n * d,
    ensures
        tdiv(a, d) < n,
{
    lemma_fundamental_div_mod(a, d);
    lemma_mod_bound(a, d);
    assert(d * (a / d) <= a);
    assert(a / d < n) by (nonlinear_arith)
        requires
            1 <= d,
            d * (a / d) <= a,
            a < n * d,
    {
    }
}

/// The remainder of truncating division stays strictly within the divisor.
pub proof fn lemma_tmod_small(a: int, d: int)
    requires
        1 <= d,
    ensures
        -d < tmod(a, d) < d,
        a == tdiv(a, d) * d + tmod(a, d),
{
    if a >= 0 {
        lemma_fundamental_div_mod(a, d);
        lemma_mod_bound(a, d);
        lemma_mul_is_commutative(a / d, d);
        assert(tdiv(a, d) * d == d * (a / d));
    } else {
        lemma_fundamental_div_mod(-a, d);
        lemma_mod_bound(-a, d);
        lemma_mul_is_commutative((-a) / d, d);
        assert(tdiv(a, d) * d == -(d * ((-a) / d))) by (nonlinear_arith)
            requires
                tdiv(a, d) == -((-a) / d),
        {
        }
    }
}

/// Three truncating divisions by a shared divisor, whose dividends sum to
/// nearly zero, sum to nearly zero themselves: each truncation can lose less
/// than one unit.
pub proof fn lemma_tdiv_sum3_near(a: int, b: int, c: int, d: int, m: int)
    requires
        1 <= d,
        0 <= m < d,
        -m <= a + b + c <= m,
    ensures
        -3 <= tdiv(a, d) + tdiv(b, d) + tdiv(c, d) <= 3,
{
    lemma_tmod_small(a, d);
    lemma_tmod_small(b, d);
    lemma_tmod_small(c, d);
    let s = tdiv(a, d) + tdiv(b, d) + tdiv(c, d);
    assert(s * d == (a + b + c) - (tmod(a, d) + tmod(b, d) + tmod(c, d))) by (nonlinear_arith)
        requires
            a == tdiv(a, d) * d + tmod(a, d),
            b == tdiv(b, d) * d + tmod(b, d),
            c == tdiv(c, d) * d + tmod(c, d),
            s == tdiv(a, d) + tdiv(b, d) + tdiv(c, d),
    {
    }
    assert(-4 * d < s * d < 4 * d);
    assert(-3 <= s <= 3) by (nonlinear_arith)
        requires
            1 <= d,
            -4 * d < s * d < 4 * d,
    {
    }
}

/// A magnitude bound for the fixed-point product, from magnitude bounds on
/// the factors.
pub proof fn lemma_scaled_mul_bound(a: int, b: int, ma: int, mb: int)
    requires
        0 <= ma,
        0 <= mb,
        -ma <= a <= ma,
        -mb <= b <= mb,
    ensures
        -((ma * mb) / (SCALE as int)) <= scaled_mul(a, b) <= (ma * mb) / (SCALE as int),
        -(ma * mb) <= scaled_mul(a, b) <= ma * mb,
{
    assert(-(ma * mb) <= a * b <= ma * mb) by (nonlinear_arith)
        requires
            -ma <= a <= ma,
            -mb <= b <= mb,
            0 <= ma,
            0 <= mb,
    {
    }
    assert(0 <= ma * mb) by (nonlinear_arith)
        requires
            0 <= ma,
            0 <= mb,
    {
    }
    lemma_tdiv_bound(a * b, SCALE as int, ma * mb);
}

/// The fixed-point product of non-negative factors is non-negative.
pub proof fn lemma_scaled_mul_nonneg(a: int, b: int)
    requires
        0 <= a,
        0 <= b,
    ensures
        0 <= scaled_mul(a, b),
{
    assert(0 <= a * b) by (nonlinear_arith)
        requires
            0 <= a,
            0 <= b,
    {
    }
    lemma_div_pos_is_pos(a * b, SCALE as int);
}

/// Truncating division of a non-positive value is non-positive.
pub proof fn lemma_tdiv_nonpos(a: int, d: int)
    requires
        a <= 0,
        1 <= d,
    ensures
        tdiv(a, d) <= 0,
{
    if a < 0 {
        lemma_div_pos_is_pos(-a, d);
    } else {
        lemma_tdiv_zero(d);
    }
}

/// The fixed-point product of a non-negative and a non-positive factor is
/// non-positive.
pub proof fn lemma_scaled_mul_nonpos(a: int, b: int)
    requires
        0 <= a,
        b <= 0,
    ensures
        scaled_mul(a, b) <= 0,
{
    assert(a * b <= 0) by (nonlinear_arith)
        requires
            0 <= a,
            b <= 0,
    {
    }
    lemma_tdiv_nonpos(a * b, SCALE as int);
}

/// Scaling by a factor of at most 1.0 (in real terms) cannot grow a
/// magnitude: the product stays within the bound of the other factor.
pub proof fn lemma_scaled_mul_contract(a: int, b: int, m: int)
    requires
        0 <= a <= SCALE as int,
        0 <= m,
        -m <= b <= m,
    ensures
        -m <= scaled_mul(a, b) <= m,
{
    assert(-((SCALE as int) * m) <= a * b <= (SCALE as int) * m) by (nonlinear_arith)
        requires
            0 <= a <= SCALE as int,
            -m <= b <= m,
            0 <= m,
    {
    }
    assert(0 <= (SCALE as int) * m) by (nonlinear_arith)
        requires
            0 <= m,
    {
    }
    lemma_tdiv_bound(a * b, SCALE as int, (SCALE as int) * m);
    lemma_div_multiples_vanish(m, SCALE as int);
}

/// Scaling a value within `2 * m` by a factor of at most 0.5 (in real
/// terms) lands within `m`.
pub proof fn lemma_scaled_mul_half_contract(a: int, b: int, m: int)
    requires
        0 <= a,
        2 * a <= SCALE as int,
        0 <= m,
        -2 * m <= b <= 2 * m,
    ensures
        -m <= scaled_mul(a, b) <= m,
{
    assert(-((SCALE as int) * m) <= a * b <= (SCALE as int) * m) by (nonlinear_arith)
        requires
            0 <= a,
            2 * a <= SCALE as int,
            -2 * m <= b <= 2 * m,
            0 <= m,
    {
    }
    assert(0 <= (SCALE as int) * m) by (nonlinear_arith)
        requires
            0 <= m,
    {
    }
    lemma_tdiv_bound(a * b, SCALE as int, (SCALE as int) * m);
    lemma_div_multiples_vanish(m, SCALE as int);
}

/// Scaling a value within `m` by a factor of at most 2.0 (in real terms)
/// lands within `2 * m`.
pub proof fn lemma_scaled_mul_double(a: int, b: int, m: int)
    requires
        0 <= a <= 2 * SCALE as int,
        0 <= m,
        -m <= b <= m,
    ensures
        -2 * m <= scaled_mul(a, b) <= 2 * m,
{
    assert(-((SCALE as int) * (2 * m)) <= a * b <= (SCALE as int) * (2 * m)) by (nonlinear_arith)
        requires
            0 <= a <= 2 * SCALE as int,
            -m <= b <= m,
            0 <= m,
    {
    }
    assert(0 <= (SCALE as int) * (2 * m)) by (nonlinear_arith)
        requires
            0 <= m,
    {
    }
    lemma_tdiv_bound(a * b, SCALE as int, (SCALE as int) * (2 * m));
    lemma_div_multiples_vanish(2 * m, SCALE as int);
}

/// A zero factor makes the fixed-point product zero.
pub proof fn lemma_scaled_mul_zero(a: int, b: int)
    requires
        a == 0 || b == 0,
    ensures
        scaled_mul(a, b) == 0,
{
    assert(a * b == 0) by (nonlinear_arith)
        requires
            a == 0 || b == 0,
    {
    }
    lemma_tdiv_zero(SCALE as int);
}

/// Truncating division of a signed value by a positive divisor.
pub fn div_trunc(a: i64, d: i64) -> (r: i64)
    requires
        1 <= d,
        -0x7fff_ffff_ffff_ffff <= a,
    ensures
        r == tdiv(a as int, d as int),
{
    if a >= 0 {
        proof {
            lemma_div_pos_is_pos(a as int, d as int);
            lemma_div_nonincreasing(a as int, d as int);
        }
        ((a as u64) / (d as u64)) as i64
    } else {
        let n = -a;
        proof {
            lemma_div_pos_is_pos(n as int, d as int);
            lemma_div_nonincreasing(n as int, d as int);
        }
        -(((n as u64) / (d as u64)) as i64)
    }
}

/// Fixed-point multiplication. The caller supplies (through the requires)
/// that the rescaled product fits in `i64`; the product itself always fits
/// the wider intermediate.
pub fn mul_fixed(a: i64, b: i64) -> (r: i64)
    requires
        -0x7fff_ffff_ffff_ffff <= scaled_mul(a as int, b as int) <= 0x7fff_ffff_ffff_ffff,
    ensures
        r == scaled_mul(a as int, b as int),
{
    proof {
        assert(-0x4000_0000_0000_0000_0000_0000_0000_0000
            <= (a as int) * (b as int)
            <= 0x4000_0000_0000_0000_0000_0000_0000_0000) by (nonlinear_arith)
            requires
                -0x8000_0000_0000_0000 <= a as int <= 0x7fff_ffff_ffff_ffff,
                -0x8000_0000_0000_0000 <= b as int <= 0x7fff_ffff_ffff_ffff,
        {
        }
    }
    let p: i128 = (a as i128) * (b as i128);
    let q: i128 = if p >= 0 {
        proof {
            lemma_div_pos_is_pos(p as int, SCALE as int);
            lemma_div_nonincreasing(p as int, SCALE as int);
        }
        ((p as u128) / (SCALE as u128)) as i128
    } else {
        proof {
            lemma_div_pos_is_pos(-(p as int), SCALE as int);
            lemma_div_nonincreasing(-(p as int), SCALE as int);
        }
        -(((-p) as u128 / (SCALE as u128)) as i128)
    };
    q as i64
}

/// A value forced into the representable compartment window.
pub fn clamp_window(x: i64) -> (r: i64)
    ensures
        r == clamped(x as int),
{
    if x > STATE_LIMIT {
        STATE_LIMIT
    } else if x < -STATE_LIMIT {
        -STATE_LIMIT
    } else {
        x
    }
}

} // verus!
