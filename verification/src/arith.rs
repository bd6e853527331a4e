//! Integer arithmetic shared by the physics: rounding division and clamping.

use vstd::arithmetic::div_mod::lemma_fundamental_div_mod_converse;
use vstd::prelude::*;

verus! {

/// Absolute value of an integer.
pub open spec fn magnitude(v: int) -> int {
    if v < 0 {
        -v
    } else {
        v
    }
}

/// `v` confined to `[-limit, limit]`.
pub open spec fn clamp(v: int, limit: int) -> int {
    if v < -limit {
        -limit
    } else if v > limit {
        limit
    } else {
        v
    }
}

/// The integer nearest to `n / d`; a tie goes away from zero.
pub open spec fn round_div(n: int, d: int) -> int
    recommends
        d > 0,
{
    if n >= 0 {
        (2 * n + d) / (2 * d)
    } else {
        -((2 * (-n) + d) / (2 * d))
    }
}

/// Rounding commutes with negation.
pub proof fn lemma_round_div_odd(n: int, d: int)
    requires
        d > 0,
    ensures
        round_div(-n, d) == -round_div(n, d),
{
    if n == 0 {
        assert(round_div(0, d) == 0) by {
            lemma_fundamental_div_mod_converse(d, 2 * d, 0, d);
        }
    }
}

/// The rounded quotient is at most half a divisor away from the exact one.
pub proof fn lemma_round_div_error(n: int, d: int)
    requires
        d > 0,
    ensures
        2 * magnitude(round_div(n, d) * d - n) <= d,
{
    let m = magnitude(n);
    let q = (2 * m + d) / (2 * d);
    let r = (2 * m + d) % (2 * d);
    vstd::arithmetic::div_mod::lemma_fundamental_div_mod(2 * m + d, 2 * d);
    vstd::arithmetic::div_mod::lemma_mod_bound(2 * m + d, 2 * d);
    assert(2 * m + d == (2 * d) * q + r);
    assert((2 * d) * q == 2 * (q * d)) by (nonlinear_arith);
    assert(2 * (q * d - m) == d - r);
    if n >= 0 {
        assert(round_div(n, d) == q);
    } else {
        assert(round_div(n, d) == -q);
        assert((-q) * d == -(q * d)) by (nonlinear_arith);
    }
}

/// The rounded quotient is no larger in magnitude than the dividend.
pub proof fn lemma_round_div_bound(n: int, d: int)
    requires
        d > 0,
    ensures
        magnitude(round_div(n, d)) <= magnitude(n),
        n >= 0 ==> round_div(n, d) >= 0,
        n <= 0 ==> round_div(n, d) <= 0,
{
    let m = magnitude(n);
    let q = (2 * m + d) / (2 * d);
    let r = (2 * m + d) % (2 * d);
    vstd::arithmetic::div_mod::lemma_fundamental_div_mod(2 * m + d, 2 * d);
    vstd::arithmetic::div_mod::lemma_mod_bound(2 * m + d, 2 * d);
    assert(0 <= q <= m) by (nonlinear_arith)
        requires
            2 * m + d == (2 * d) * q + r,
            0 <= r < 2 * d,
            d > 0,
            m >= 0,
    ;
}

/// A dividend of at most `c` divisors in magnitude gives a rounded quotient
/// of at most `c` in magnitude.
pub proof fn lemma_round_div_within(n: int, d: int, c: int)
    requires
        d > 0,
        c >= 0,
        magnitude(n) <= c * d,
    ensures
        magnitude(round_div(n, d)) <= c,
{
    let m = magnitude(n);
    let q = (2 * m + d) / (2 * d);
    let r = (2 * m + d) % (2 * d);
    vstd::arithmetic::div_mod::lemma_fundamental_div_mod(2 * m + d, 2 * d);
    vstd::arithmetic::div_mod::lemma_mod_bound(2 * m + d, 2 * d);
    assert(q <= c) by (nonlinear_arith)
        requires
            2 * m + d == (2 * d) * q + r,
            0 <= r,
            d > 0,
            m <= c * d,
            c >= 0,
    ;
    lemma_round_div_bound(n, d);
}

/// The rounded quotient is zero exactly where the dividend is less than half
/// the divisor in magnitude.
pub proof fn lemma_round_div_zero(n: int, d: int)
    requires
        d > 0,
    ensures
        round_div(n, d) == 0 <==> 2 * magnitude(n) < d,
{
    let m = magnitude(n);
    let q = (2 * m + d) / (2 * d);
    let r = (2 * m + d) % (2 * d);
    vstd::arithmetic::div_mod::lemma_fundamental_div_mod(2 * m + d, 2 * d);
    vstd::arithmetic::div_mod::lemma_mod_bound(2 * m + d, 2 * d);
    assert(q == 0 <==> 2 * m < d) by (nonlinear_arith)
        requires
            2 * m + d == (2 * d) * q + r,
            0 <= r < 2 * d,
            d > 0,
            m >= 0,
    ;
}

/// Rounded quotient of `n` by a positive `d`.
pub fn div_round(n: i128, d: i128) -> (q: i128)
    requires
        d > 0,
        n > i128::MIN,
    ensures
        q == round_div(n as int, d as int),
{
    let negative = n < 0;
    let m: u128 = if negative {
        (-n) as u128
    } else {
        n as u128
    };
    let du: u128 = d as u128;
    let whole: u128 = m / du;
    let rest: u128 = m % du;
    let up = rest >= du - rest;
    let q: u128 = if up {
        whole + 1
    } else {
        whole
    };
    proof {
        let mi = m as int;
        let di = d as int;
        let wi = whole as int;
        let ri = rest as int;
        vstd::arithmetic::div_mod::lemma_fundamental_div_mod(mi, di);
        assert(mi == di * wi + ri);
        assert(di * wi == wi * di) by (nonlinear_arith);
        if up {
            assert(2 * mi + di == (wi + 1) * (2 * di) + (2 * ri - di)) by (nonlinear_arith)
                requires
                    mi == wi * di + ri,
            ;
            lemma_fundamental_div_mod_converse(2 * mi + di, 2 * di, wi + 1, 2 * ri - di);
        } else {
            assert(2 * mi + di == wi * (2 * di) + (2 * ri + di)) by (nonlinear_arith)
                requires
                    mi == wi * di + ri,
            ;
            lemma_fundamental_div_mod_converse(2 * mi + di, 2 * di, wi, 2 * ri + di);
        }
        assert(q as int == (2 * mi + di) / (2 * di));
        assert(q <= m) by (nonlinear_arith)
            requires
                mi == wi * di + ri,
                0 <= ri < di,
                wi >= 0,
                q == if up { wi + 1 } else { wi },
                up ==> 2 * ri >= di,
                m == mi,
        ;
    }
    if negative {
        -(q as i128)
    } else {
        q as i128
    }
}

/// `v` confined to `[-limit, limit]`.
pub fn clamp_to(v: i128, limit: i64) -> (r: i64)
    requires
        0 <= limit,
    ensures
        r == clamp(v as int, limit as int),
{
    if v < -(limit as i128) {
        -limit
    } else if v > limit as i128 {
        limit
    } else {
        v as i64
    }
}

} // verus!
