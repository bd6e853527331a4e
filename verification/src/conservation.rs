//! What an elastic collision keeps: the momentum and the kinetic energy of
//! the pair. Before the new velocities are rounded to stored units both are
//! kept exactly; after it, up to a bound that the rounding gives, which for
//! every pair of bodies is below a ten-thousandth of a unit of momentum and
//! of a unit of energy.

use crate::arith::{
    lemma_round_div_error, lemma_round_div_odd, lemma_round_div_within, magnitude, round_div,
};
use crate::ball::{lemma_overlap_symmetric, Ball};
use crate::resolver::{
    impulse_divisor, impulse_scale, lemma_positive_product, lemma_square_positive,
    velocity_after_collision, velocity_change,
};
use crate::units::{FREE_SPEED_LIMIT, RADIUS_LIMIT, SPEED_UNIT, VELOCITY_LIMIT};
use crate::vector::{lemma_product_bound, Vector};
use vstd::arithmetic::mul::{
    lemma_mul_is_associative, lemma_mul_is_commutative, lemma_mul_is_distributive_add,
    lemma_mul_is_distributive_add_other_way, lemma_mul_is_distributive_sub,
    lemma_mul_is_distributive_sub_other_way, lemma_mul_unary_negation,
};
use vstd::prelude::*;

verus! {

/// Total momentum of two bodies.
pub open spec fn momentum(m1: int, v1: Vector, m2: int, v2: Vector) -> Vector {
    v1.scaled(m1).plus(v2.scaled(m2))
}

/// Twice the total kinetic energy of two bodies: `m1*|v1|^2 + m2*|v2|^2`.
pub open spec fn energy(m1: int, v1: Vector, m2: int, v2: Vector) -> int {
    m1 * v1.norm_sq() + m2 * v2.norm_sq()
}

/// Seen from the second body the line of centers and the relative velocity
/// both point the other way, so the approach and the distance are the same.
proof fn lemma_mirror(ux: int, uy: int, dx: int, dy: int, wx: int, wy: int, ex: int, ey: int)
    requires
        wx == -ux,
        wy == -uy,
        ex == -dx,
        ey == -dy,
    ensures
        wx * ex + wy * ey == ux * dx + uy * dy,
        ex * ex + ey * ey == dx * dx + dy * dy,
{
    assert(wx * ex == ux * dx) by (nonlinear_arith)
        requires
            wx == -ux,
            ex == -dx,
    ;
    assert(wy * ey == uy * dy) by (nonlinear_arith)
        requires
            wy == -uy,
            ey == -dy,
    ;
    assert(ex * ex == dx * dx) by (nonlinear_arith)
        requires
            ex == -dx,
    ;
    assert(ey * ey == dy * dy) by (nonlinear_arith)
        requires
            ey == -dy,
    ;
}

/// The exact impulses on the two bodies are opposite: weighted by the masses,
/// the two unrounded velocity changes cancel.
proof fn lemma_impulses_cancel(m1: int, m2: int, s: int, c: int, e: int)
    requires
        e == -c,
    ensures
        m1 * ((2 * m2 * s) * c) + m2 * ((2 * m1 * s) * e) == 0,
{
    assert(m1 * ((2 * m2 * s) * c) + m2 * ((2 * m1 * s) * e) == 0) by (nonlinear_arith)
        requires
            e == -c,
    ;
}

/// Two quotients whose weighted dividends cancel still cancel after rounding,
/// up to half a unit for each unit of mass; exactly, where the weights are equal.
proof fn lemma_paired_rounding(m1: int, m2: int, n1: int, n2: int, d: int)
    requires
        m1 > 0,
        m2 > 0,
        d > 0,
        m1 * n1 + m2 * n2 == 0,
    ensures
        2 * magnitude(m1 * round_div(n1, d) + m2 * round_div(n2, d)) <= m1 + m2,
        m1 == m2 ==> m1 * round_div(n1, d) + m2 * round_div(n2, d) == 0,
{
    let q1 = round_div(n1, d);
    let q2 = round_div(n2, d);
    let e1 = q1 * d - n1;
    let e2 = q2 * d - n2;
    lemma_round_div_error(n1, d);
    lemma_round_div_error(n2, d);
    let t = m1 * q1 + m2 * q2;
    assert(t * d == m1 * e1 + m2 * e2) by {
        lemma_mul_is_distributive_add_other_way(d, m1 * q1, m2 * q2);
        lemma_mul_is_associative(m1, q1, d);
        lemma_mul_is_associative(m2, q2, d);
        lemma_mul_is_distributive_sub(m1, q1 * d, n1);
        lemma_mul_is_distributive_sub(m2, q2 * d, n2);
    }
    assert(2 * magnitude(m1 * e1 + m2 * e2) <= (m1 + m2) * d) by (nonlinear_arith)
        requires
            m1 > 0,
            m2 > 0,
            2 * magnitude(e1) <= d,
            2 * magnitude(e2) <= d,
    ;
    assert(2 * magnitude(t) <= m1 + m2) by (nonlinear_arith)
        requires
            d > 0,
            2 * magnitude(t * d) <= (m1 + m2) * d,
    ;
    if m1 == m2 {
        assert(n2 == -n1) by (nonlinear_arith)
            requires
                m1 > 0,
                m1 * n1 + m1 * n2 == 0,
        ;
        lemma_round_div_odd(n1, d);
        assert(m1 * q1 + m1 * (-q1) == 0) by (nonlinear_arith);
    }
}

/// An elastic collision keeps the total momentum of the pair. Each new
/// velocity is rounded to stored units, so each component of the total may
/// move by at most half a unit of velocity for each unit of mass; between
/// bodies of equal mass nothing moves at all.
pub proof fn lemma_momentum_conserved(
    v1: Vector,
    v2: Vector,
    m1: int,
    m2: int,
    p1: Vector,
    p2: Vector,
)
    requires
        m1 > 0,
        m2 > 0,
    ensures
        ({
            let w1 = velocity_after_collision(v1, v2, m1, m2, p1, p2);
            let w2 = velocity_after_collision(v2, v1, m2, m1, p2, p1);
            let before = momentum(m1, v1, m2, v2);
            let after = momentum(m1, w1, m2, w2);
            &&& 2 * magnitude(after.x - before.x) <= m1 + m2
            &&& 2 * magnitude(after.y - before.y) <= m1 + m2
            &&& m1 == m2 ==> after == before
        }),
{
    let c1 = velocity_change(v1, v2, m1, m2, p1, p2);
    let c2 = velocity_change(v2, v1, m2, m1, p2, p1);
    if p1 == p2 {
        assert(c1 == Vector::zero() && c2 == Vector::zero());
    } else {
        let dx = p1.x - p2.x;
        let dy = p1.y - p2.y;
        let ux = v1.x - v2.x;
        let uy = v1.y - v2.y;
        let s = ux * dx + uy * dy;
        lemma_mirror(ux, uy, dx, dy, v2.x - v1.x, v2.y - v1.y, p2.x - p1.x, p2.y - p1.y);
        let d = impulse_divisor(m1, m2, p1, p2);
        assert(impulse_divisor(m2, m1, p2, p1) == d);
        lemma_square_positive(dx, dy);
        lemma_positive_product(m1 + m2, dx * dx + dy * dy);
        assert(impulse_scale(v1, v2, m2, p1, p2) == 2 * m2 * s);
        assert(impulse_scale(v2, v1, m1, p2, p1) == 2 * m1 * s);
        lemma_impulses_cancel(m1, m2, s, dx, p2.x - p1.x);
        lemma_impulses_cancel(m1, m2, s, dy, p2.y - p1.y);
        lemma_paired_rounding(m1, m2, (2 * m2 * s) * dx, (2 * m1 * s) * (p2.x - p1.x), d);
        lemma_paired_rounding(m1, m2, (2 * m2 * s) * dy, (2 * m1 * s) * (p2.y - p1.y), d);
    }
    lemma_momentum_shift(m1, m2, v1.x, v2.x, c1.x, c2.x);
    lemma_momentum_shift(m1, m2, v1.y, v2.y, c1.y, c2.y);
}

/// How one component of the total momentum moves with the velocity changes.
proof fn lemma_momentum_shift(m1: int, m2: int, a: int, b: int, c1: int, c2: int)
    ensures
        (m1 * (a - c1) + m2 * (b - c2)) - (m1 * a + m2 * b) == -(m1 * c1 + m2 * c2),
{
    assert((m1 * (a - c1) + m2 * (b - c2)) - (m1 * a + m2 * b) == -(m1 * c1 + m2 * c2))
        by (nonlinear_arith);
}

/// The square of a difference.
proof fn lemma_binomial(p: int, q: int)
    ensures
        (p - q) * (p - q) == p * p - 2 * (p * q) + q * q,
{
    assert((p - q) * (p - q) == p * p - 2 * (p * q) + q * q) by (nonlinear_arith);
}

/// The square of `dd * v - k * c`, written out.
proof fn lemma_shifted_square(dd: int, v: int, k: int, c: int)
    ensures
        (dd * v - k * c) * (dd * v - k * c) == (dd * dd) * (v * v) - 2 * ((dd * k) * (v * c)) + (k
            * k) * (c * c),
{
    let p = dd * v;
    let q = k * c;
    lemma_binomial(p, q);
    assert(p * p == (dd * dd) * (v * v)) by (nonlinear_arith)
        requires
            p == dd * v,
    ;
    assert(p * q == (dd * k) * (v * c)) by (nonlinear_arith)
        requires
            p == dd * v,
            q == k * c,
    ;
    assert(q * q == (k * k) * (c * c)) by (nonlinear_arith)
        requires
            q == k * c,
    ;
}

/// The squared length of `dd * v - k * d` for plane vectors `v` and `d`.
proof fn lemma_shifted_norm(dd: int, k: int, vx: int, vy: int, dx: int, dy: int)
    ensures
        (dd * vx - k * dx) * (dd * vx - k * dx) + (dd * vy - k * dy) * (dd * vy - k * dy) == (dd
            * dd) * (vx * vx + vy * vy) - 2 * ((dd * k) * (vx * dx + vy * dy)) + (k * k) * (dx * dx
            + dy * dy),
{
    lemma_shifted_square(dd, vx, k, dx);
    lemma_shifted_square(dd, vy, k, dy);
    lemma_mul_is_distributive_add(dd * dd, vx * vx, vy * vy);
    lemma_mul_is_distributive_add(dd * k, vx * dx, vy * dy);
    lemma_mul_is_distributive_add(k * k, dx * dx, dy * dy);
}

/// `m * ((dd * k) * g)` with the factors `m` and `k` brought together.
proof fn lemma_gather(m: int, dd: int, k: int, g: int)
    ensures
        m * ((dd * k) * g) == (((m * k) * dd) * g),
        m * ((k * k) * g) == ((m * k) * k) * g,
{
    lemma_mul_is_associative(m, dd * k, g);
    lemma_mul_is_associative(m, dd, k);
    lemma_mul_is_commutative(m, dd);
    lemma_mul_is_associative(dd, m, k);
    lemma_mul_is_commutative(dd, m * k);
    lemma_mul_is_associative(m, k * k, g);
    lemma_mul_is_associative(m, k, k);
}

/// The cross terms of the energy balance cancel.
proof fn lemma_cross_terms_cancel(m1: int, m2: int, d2: int, g1: int, g2: int)
    ensures
        ({
            let t = 2 * (g1 - g2);
            let dd = (m1 + m2) * d2;
            let k1 = m2 * t;
            let k2 = -(m1 * t);
            m1 * ((k1 * k1) * d2) - 2 * (m1 * ((dd * k1) * g1)) + m2 * ((k2 * k2) * d2) - 2 * (m2
                * ((dd * k2) * g2)) == 0
        }),
{
    let s = g1 - g2;
    let t = 2 * s;
    let mm = m1 + m2;
    let dd = mm * d2;
    let k1 = m2 * t;
    let j = m1 * t;
    let k2 = -j;
    let q = (m1 * m2) * t;
    let p = q * dd;
    // what the two bodies carry, gathered
    lemma_mul_is_associative(m1, m2, t);
    assert(m1 * k1 == q);
    lemma_mul_is_commutative(m1, m2);
    lemma_mul_is_associative(m2, m1, t);
    assert(m2 * j == q);
    lemma_mul_unary_negation(m2, j);
    assert(m2 * k2 == -q);
    // the terms with the approach
    lemma_gather(m1, dd, k1, g1);
    assert(m1 * ((dd * k1) * g1) == p * g1);
    lemma_gather(m2, dd, k2, g2);
    lemma_mul_unary_negation(q, dd);
    lemma_mul_unary_negation(p, g2);
    assert(m2 * ((dd * k2) * g2) == -(p * g2));
    lemma_mul_is_distributive_sub(p, g1, g2);
    assert(p * g1 - p * g2 == p * s);
    // the terms with the squares
    lemma_gather(m1, dd, k1, d2);
    assert(m1 * ((k1 * k1) * d2) == (q * k1) * d2);
    lemma_gather(m2, dd, k2, d2);
    lemma_mul_unary_negation(q, k2);
    lemma_mul_unary_negation(q, j);
    assert((m2 * k2) * k2 == q * j);
    assert(m2 * ((k2 * k2) * d2) == (q * j) * d2);
    lemma_mul_is_distributive_add(q, k1, j);
    lemma_mul_is_distributive_add_other_way(t, m2, m1);
    assert(k1 + j == mm * t);
    lemma_mul_is_distributive_add_other_way(d2, q * k1, q * j);
    assert((q * k1) * d2 + (q * j) * d2 == (q * (mm * t)) * d2);
    lemma_mul_is_associative(q, mm * t, d2);
    lemma_mul_is_associative(mm, t, d2);
    lemma_mul_is_commutative(t, d2);
    lemma_mul_is_associative(mm, d2, t);
    assert((mm * t) * d2 == dd * t);
    lemma_mul_is_associative(q, dd, t);
    assert((q * (mm * t)) * d2 == p * t);
    lemma_mul_is_associative(p, 2, s);
    lemma_mul_is_commutative(p, 2);
    assert(p * t == 2 * (p * s)) by {
        lemma_mul_is_associative(2, p, s);
    }
}

/// The exact energy balance, cleared of its denominator: with `dd` the impulse
/// divisor, the unrounded new velocities times `dd` carry `dd * dd` times the
/// energy of the old ones.
proof fn lemma_energy_identity(
    m1: int,
    m2: int,
    v1x: int,
    v1y: int,
    v2x: int,
    v2y: int,
    dx: int,
    dy: int,
)
    ensures
        ({
            let s = (v1x - v2x) * dx + (v1y - v2y) * dy;
            let dd = (m1 + m2) * (dx * dx + dy * dy);
            let a1x = dd * v1x - (2 * m2 * s) * dx;
            let a1y = dd * v1y - (2 * m2 * s) * dy;
            let a2x = dd * v2x + (2 * m1 * s) * dx;
            let a2y = dd * v2y + (2 * m1 * s) * dy;
            m1 * (a1x * a1x + a1y * a1y) + m2 * (a2x * a2x + a2y * a2y) == (dd * dd) * (m1 * (v1x
                * v1x + v1y * v1y) + m2 * (v2x * v2x + v2y * v2y))
        }),
{
    let s = (v1x - v2x) * dx + (v1y - v2y) * dy;
    let d2 = dx * dx + dy * dy;
    let dd = (m1 + m2) * d2;
    let g1 = v1x * dx + v1y * dy;
    let g2 = v2x * dx + v2y * dy;
    let n1 = v1x * v1x + v1y * v1y;
    let n2 = v2x * v2x + v2y * v2y;
    let t = 2 * (g1 - g2);
    let k1 = m2 * t;
    let k2 = -(m1 * t);
    let sq = dd * dd;
    assert(s == g1 - g2) by (nonlinear_arith)
        requires
            s == (v1x - v2x) * dx + (v1y - v2y) * dy,
            g1 == v1x * dx + v1y * dy,
            g2 == v2x * dx + v2y * dy,
    ;
    assert(2 * m2 * s == k1) by (nonlinear_arith)
        requires
            k1 == m2 * t,
            t == 2 * s,
    ;
    assert(2 * m1 * s == -k2) by (nonlinear_arith)
        requires
            k2 == -(m1 * t),
            t == 2 * s,
    ;
    assert((-k2) * dx == -(k2 * dx)) by (nonlinear_arith);
    assert((-k2) * dy == -(k2 * dy)) by (nonlinear_arith);
    lemma_shifted_norm(dd, k1, v1x, v1y, dx, dy);
    lemma_shifted_norm(dd, k2, v2x, v2y, dx, dy);
    let e1 = sq * n1 - 2 * ((dd * k1) * g1) + (k1 * k1) * d2;
    let e2 = sq * n2 - 2 * ((dd * k2) * g2) + (k2 * k2) * d2;
    let z1 = (dd * k1) * g1;
    let y1 = (k1 * k1) * d2;
    let z2 = (dd * k2) * g2;
    let y2 = (k2 * k2) * d2;
    assert(m1 * e1 == sq * (m1 * n1) - 2 * (m1 * z1) + m1 * y1) by (nonlinear_arith)
        requires
            e1 == sq * n1 - 2 * z1 + y1,
    ;
    assert(m2 * e2 == sq * (m2 * n2) - 2 * (m2 * z2) + m2 * y2) by (nonlinear_arith)
        requires
            e2 == sq * n2 - 2 * z2 + y2,
    ;
    lemma_cross_terms_cancel(m1, m2, d2, g1, g2);
    lemma_mul_is_distributive_add(sq, m1 * n1, m2 * n2);
}

/// How far the square of one rounded component, scaled by the divisor, lies
/// from the square of the exact one.
proof fn lemma_square_drift(v: int, n: int, dd: int)
    requires
        dd > 0,
    ensures
        ({
            let w = v - round_div(n, dd);
            let a = dd * v - n;
            4 * magnitude((dd * dd) * (w * w) - a * a) <= (dd * dd) * (4 * magnitude(w) + 1)
        }),
{
    let q = round_div(n, dd);
    let w = v - q;
    let a = dd * v - n;
    let e = q * dd - n;
    lemma_round_div_error(n, dd);
    let r = dd * w;
    assert(a == r + e) by (nonlinear_arith)
        requires
            r == dd * w,
            w == v - q,
            a == dd * v - n,
            e == q * dd - n,
    ;
    assert((dd * dd) * (w * w) == r * r) by (nonlinear_arith)
        requires
            r == dd * w,
    ;
    assert(a * a == r * r + 2 * (r * e) + e * e) by (nonlinear_arith)
        requires
            a == r + e,
    ;
    assert(magnitude(r) == dd * magnitude(w)) by (nonlinear_arith)
        requires
            r == dd * w,
            dd > 0,
    ;
    let mr = magnitude(r);
    let me = magnitude(e);
    assert(magnitude(r * e) == mr * me) by (nonlinear_arith)
        requires
            mr == magnitude(r),
            me == magnitude(e),
    ;
    assert(e * e == me * me) by (nonlinear_arith)
        requires
            me == magnitude(e),
    ;
    assert(4 * (mr * me) <= 2 * (mr * dd)) by (nonlinear_arith)
        requires
            mr >= 0,
            0 <= 2 * me <= dd,
    ;
    assert(4 * (me * me) <= dd * dd) by (nonlinear_arith)
        requires
            0 <= 2 * me <= dd,
    ;
    assert(mr * dd == (dd * dd) * magnitude(w)) by (nonlinear_arith)
        requires
            mr == dd * magnitude(w),
    ;
    assert(me * me >= 0) by (nonlinear_arith);
    assert(mr * me >= 0) by (nonlinear_arith)
        requires
            mr >= 0,
            me >= 0,
    ;
    assert((dd * dd) * (4 * magnitude(w) + 1) == 4 * ((dd * dd) * magnitude(w)) + dd * dd)
        by (nonlinear_arith);
}

/// An elastic collision keeps the kinetic energy of the pair, up to the
/// rounding of the new velocities to stored units: each component of a new
/// velocity is at most half a unit from the exact one, which moves the energy
/// by at most the stated bound.
pub proof fn lemma_energy_conserved(
    v1: Vector,
    v2: Vector,
    m1: int,
    m2: int,
    p1: Vector,
    p2: Vector,
)
    requires
        m1 > 0,
        m2 > 0,
    ensures
        ({
            let w1 = velocity_after_collision(v1, v2, m1, m2, p1, p2);
            let w2 = velocity_after_collision(v2, v1, m2, m1, p2, p1);
            2 * magnitude(energy(m1, w1, m2, w2) - energy(m1, v1, m2, v2)) <= m1 * (2
                * w1.norm_one() + 1) + m2 * (2 * w2.norm_one() + 1)
        }),
{
    let w1 = velocity_after_collision(v1, v2, m1, m2, p1, p2);
    let w2 = velocity_after_collision(v2, v1, m2, m1, p2, p1);
    let b1 = 2 * w1.norm_one() + 1;
    let b2 = 2 * w2.norm_one() + 1;
    if p1 == p2 {
        assert(w1 == v1 && w2 == v2);
        assert(m1 * b1 + m2 * b2 >= 0) by (nonlinear_arith)
            requires
                m1 > 0,
                m2 > 0,
                b1 >= 0,
                b2 >= 0,
        ;
    } else {
        let dx = p1.x - p2.x;
        let dy = p1.y - p2.y;
        let s = (v1.x - v2.x) * dx + (v1.y - v2.y) * dy;
        let d2 = dx * dx + dy * dy;
        let dd = (m1 + m2) * d2;
        lemma_mirror(
            v1.x - v2.x,
            v1.y - v2.y,
            dx,
            dy,
            v2.x - v1.x,
            v2.y - v1.y,
            p2.x - p1.x,
            p2.y - p1.y,
        );
        lemma_square_positive(dx, dy);
        lemma_positive_product(m1 + m2, d2);
        assert(impulse_divisor(m1, m2, p1, p2) == dd);
        assert(impulse_divisor(m2, m1, p2, p1) == dd);
        assert(impulse_scale(v1, v2, m2, p1, p2) == 2 * m2 * s);
        assert(impulse_scale(v2, v1, m1, p2, p1) == 2 * m1 * s);
        let n1x = (2 * m2 * s) * dx;
        let n1y = (2 * m2 * s) * dy;
        let n2x = (2 * m1 * s) * (p2.x - p1.x);
        let n2y = (2 * m1 * s) * (p2.y - p1.y);
        assert(n2x == -((2 * m1 * s) * dx)) by (nonlinear_arith)
            requires
                n2x == (2 * m1 * s) * (p2.x - p1.x),
                dx == p1.x - p2.x,
        ;
        assert(n2y == -((2 * m1 * s) * dy)) by (nonlinear_arith)
            requires
                n2y == (2 * m1 * s) * (p2.y - p1.y),
                dy == p1.y - p2.y,
        ;
        assert(w1.x == v1.x - round_div(n1x, dd));
        assert(w1.y == v1.y - round_div(n1y, dd));
        assert(w2.x == v2.x - round_div(n2x, dd));
        assert(w2.y == v2.y - round_div(n2y, dd));
        lemma_energy_identity(m1, m2, v1.x, v1.y, v2.x, v2.y, dx, dy);
        lemma_square_drift(v1.x, n1x, dd);
        lemma_square_drift(v1.y, n1y, dd);
        lemma_square_drift(v2.x, n2x, dd);
        lemma_square_drift(v2.y, n2y, dd);
        let a1x = dd * v1.x - n1x;
        let a1y = dd * v1.y - n1y;
        let a2x = dd * v2.x - n2x;
        let a2y = dd * v2.y - n2y;
        let sq = dd * dd;
        assert(sq > 0) by (nonlinear_arith)
            requires
                sq == dd * dd,
                dd > 0,
        ;
        // the four drifts
        let x1x = w1.x * w1.x;
        let x1y = w1.y * w1.y;
        let x2x = w2.x * w2.x;
        let x2y = w2.y * w2.y;
        let t1x = sq * x1x - a1x * a1x;
        let t1y = sq * x1y - a1y * a1y;
        let t2x = sq * x2x - a2x * a2x;
        let t2y = sq * x2y - a2y * a2y;
        let after = energy(m1, w1, m2, w2);
        let before = energy(m1, v1, m2, v2);
        let f1 = a1x * a1x + a1y * a1y;
        let f2 = a2x * a2x + a2y * a2y;
        assert(m1 * f1 + m2 * f2 == sq * before);
        lemma_mul_is_distributive_add(sq, x1x, x1y);
        lemma_mul_is_distributive_add(sq, x2x, x2y);
        let u1 = t1x + t1y;
        let u2 = t2x + t2y;
        assert(sq * (x1x + x1y) == f1 + u1);
        assert(sq * (x2x + x2y) == f2 + u2);
        assert(sq * (m1 * (x1x + x1y)) == m1 * f1 + m1 * u1) by (nonlinear_arith)
            requires
                sq * (x1x + x1y) == f1 + u1,
        ;
        assert(sq * (m2 * (x2x + x2y)) == m2 * f2 + m2 * u2) by (nonlinear_arith)
            requires
                sq * (x2x + x2y) == f2 + u2,
        ;
        assert(after == m1 * (x1x + x1y) + m2 * (x2x + x2y));
        lemma_mul_is_distributive_add(sq, m1 * (x1x + x1y), m2 * (x2x + x2y));
        let delta = after - before;
        assert(sq * delta == sq * after - sq * before) by (nonlinear_arith)
            requires
                delta == after - before,
        ;
        assert(sq * delta == m1 * u1 + m2 * u2);
        let h1 = w1.norm_one();
        let h2 = w2.norm_one();
        lemma_mul_is_distributive_add(sq, 4 * magnitude(w1.x) + 1, 4 * magnitude(w1.y) + 1);
        lemma_mul_is_distributive_add(sq, 4 * magnitude(w2.x) + 1, 4 * magnitude(w2.y) + 1);
        assert(4 * magnitude(u1) <= sq * (2 * b1));
        assert(4 * magnitude(u2) <= sq * (2 * b2));
        lemma_scaled_bound(m1, u1, sq * (2 * b1));
        lemma_scaled_bound(m2, u2, sq * (2 * b2));
        assert(m1 * (sq * (2 * b1)) + m2 * (sq * (2 * b2)) == sq * (2 * (m1 * b1 + m2 * b2)))
            by (nonlinear_arith);
        assert(2 * magnitude(delta) <= m1 * b1 + m2 * b2) by (nonlinear_arith)
            requires
                sq > 0,
                4 * magnitude(sq * delta) <= sq * (2 * (m1 * b1 + m2 * b2)),
        ;
    }
}

/// A bound on four times a magnitude carries over to a positive multiple.
proof fn lemma_scaled_bound(m: int, t: int, bound: int)
    requires
        m > 0,
        4 * magnitude(t) <= bound,
    ensures
        4 * magnitude(m * t) <= m * bound,
{
    assert(4 * magnitude(m * t) <= m * bound) by (nonlinear_arith)
        requires
            m > 0,
            4 * magnitude(t) <= bound,
    ;
}

/// The encounter of two bodies keeps their total momentum: each component
/// moves by at most half a unit of velocity for each unit of mass, and by
/// nothing between bodies of equal radius. Bodies that do not overlap keep
/// their velocities. The law is stated where neither new velocity leaves the
/// range of stored velocities.
pub proof fn lemma_collide_conserves_momentum(a: Ball, b: Ball)
    requires
        a.wf(),
        b.wf(),
        a.overlaps(b) ==> a.rebound(b).within(VELOCITY_LIMIT as int) && b.rebound(a).within(
            VELOCITY_LIMIT as int,
        ),
    ensures
        ({
            let before = momentum(a.mass(), a.velocity@, b.mass(), b.velocity@);
            let after = momentum(
                a.mass(),
                a.after_collision(b).velocity@,
                b.mass(),
                b.after_collision(a).velocity@,
            );
            &&& 2 * magnitude(after.x - before.x) <= a.mass() + b.mass()
            &&& 2 * magnitude(after.y - before.y) <= a.mass() + b.mass()
            &&& a.radius == b.radius ==> after == before
        }),
{
    lemma_overlap_symmetric(a, b);
    lemma_positive_product(a.radius as int, a.radius as int);
    lemma_positive_product(b.radius as int, b.radius as int);
    if a.overlaps(b) {
        lemma_momentum_conserved(
            a.velocity@,
            b.velocity@,
            a.mass(),
            b.mass(),
            a.position@,
            b.position@,
        );
        assert(a.after_collision(b).velocity@ == a.rebound(b));
        assert(b.after_collision(a).velocity@ == b.rebound(a));
    }
}

/// The encounter of two bodies keeps their kinetic energy, up to the
/// rounding of the new velocities to stored units. Bodies that do not overlap
/// keep their velocities. The law is stated where neither new velocity
/// leaves the range of stored velocities.
pub proof fn lemma_collide_conserves_energy(a: Ball, b: Ball)
    requires
        a.wf(),
        b.wf(),
        a.overlaps(b) ==> a.rebound(b).within(VELOCITY_LIMIT as int) && b.rebound(a).within(
            VELOCITY_LIMIT as int,
        ),
    ensures
        ({
            let a2 = a.after_collision(b);
            let b2 = b.after_collision(a);
            let before = energy(a.mass(), a.velocity@, b.mass(), b.velocity@);
            let after = energy(a.mass(), a2.velocity@, b.mass(), b2.velocity@);
            &&& 2 * magnitude(after - before) <= a.mass() * (2 * a2.velocity@.norm_one() + 1)
                + b.mass() * (2 * b2.velocity@.norm_one() + 1)
            &&& !a.overlaps(b) ==> after == before
        }),
{
    lemma_overlap_symmetric(a, b);
    lemma_positive_product(a.radius as int, a.radius as int);
    lemma_positive_product(b.radius as int, b.radius as int);
    let a2 = a.after_collision(b);
    let b2 = b.after_collision(a);
    if a.overlaps(b) {
        lemma_energy_conserved(
            a.velocity@,
            b.velocity@,
            a.mass(),
            b.mass(),
            a.position@,
            b.position@,
        );
        assert(a2.velocity@ == a.rebound(b));
        assert(b2.velocity@ == b.rebound(a));
    } else {
        let ha = 2 * a2.velocity@.norm_one() + 1;
        let hb = 2 * b2.velocity@.norm_one() + 1;
        lemma_positive_product(a.mass(), ha);
        lemma_positive_product(b.mass(), hb);
    }
}

/// The first body's exact new velocity times the impulse divisor: what the
/// collision gives before the division and the rounding.
pub open spec fn exact_response(
    v1: Vector,
    v2: Vector,
    m1: int,
    m2: int,
    p1: Vector,
    p2: Vector,
) -> Vector {
    v1.scaled(impulse_divisor(m1, m2, p1, p2)).minus(
        p1.minus(p2).scaled(impulse_scale(v1, v2, m2, p1, p2)),
    )
}

/// `m * (d * v)` with the factor `d` in front.
proof fn lemma_pull_out(m: int, d: int, v: int)
    ensures
        m * (d * v) == d * (m * v),
{
    lemma_mul_is_associative(m, d, v);
    lemma_mul_is_commutative(m, d);
    lemma_mul_is_associative(d, m, v);
}

/// One component of the exact momentum balance.
proof fn lemma_exact_momentum_component(
    m1: int,
    m2: int,
    d: int,
    s: int,
    a: int,
    b: int,
    c: int,
    e: int,
)
    requires
        e == -c,
    ensures
        m1 * (d * a - (2 * m2 * s) * c) + m2 * (d * b - (2 * m1 * s) * e) == d * (m1 * a + m2 * b),
{
    lemma_mul_is_distributive_sub(m1, d * a, (2 * m2 * s) * c);
    lemma_mul_is_distributive_sub(m2, d * b, (2 * m1 * s) * e);
    lemma_impulses_cancel(m1, m2, s, c, e);
    lemma_pull_out(m1, d, a);
    lemma_pull_out(m2, d, b);
    lemma_mul_is_distributive_add(d, m1 * a, m2 * b);
}

/// Before it is rounded, the collision response keeps momentum and energy
/// exactly. With the divisor `d` cleared: the two exact new velocities times
/// `d` carry `d` times the old momentum and `d * d` times the old energy.
pub proof fn lemma_exact_response_conserves(
    v1: Vector,
    v2: Vector,
    m1: int,
    m2: int,
    p1: Vector,
    p2: Vector,
)
    ensures
        ({
            let d = impulse_divisor(m1, m2, p1, p2);
            let a1 = exact_response(v1, v2, m1, m2, p1, p2);
            let a2 = exact_response(v2, v1, m2, m1, p2, p1);
            &&& impulse_divisor(m2, m1, p2, p1) == d
            &&& momentum(m1, a1, m2, a2) == momentum(m1, v1, m2, v2).scaled(d)
            &&& energy(m1, a1, m2, a2) == (d * d) * energy(m1, v1, m2, v2)
        }),
{
    let dx = p1.x - p2.x;
    let dy = p1.y - p2.y;
    let ex = p2.x - p1.x;
    let ey = p2.y - p1.y;
    let s = (v1.x - v2.x) * dx + (v1.y - v2.y) * dy;
    let d = impulse_divisor(m1, m2, p1, p2);
    let a1 = exact_response(v1, v2, m1, m2, p1, p2);
    let a2 = exact_response(v2, v1, m2, m1, p2, p1);
    lemma_mirror(v1.x - v2.x, v1.y - v2.y, dx, dy, v2.x - v1.x, v2.y - v1.y, ex, ey);
    assert(impulse_divisor(m2, m1, p2, p1) == d);
    assert(impulse_scale(v1, v2, m2, p1, p2) == 2 * m2 * s);
    assert(impulse_scale(v2, v1, m1, p2, p1) == 2 * m1 * s);
    assert(a1.x == d * v1.x - (2 * m2 * s) * dx);
    assert(a1.y == d * v1.y - (2 * m2 * s) * dy);
    assert(a2.x == d * v2.x - (2 * m1 * s) * ex);
    assert(a2.y == d * v2.y - (2 * m1 * s) * ey);
    lemma_exact_momentum_component(m1, m2, d, s, v1.x, v2.x, dx, ex);
    lemma_exact_momentum_component(m1, m2, d, s, v1.y, v2.y, dy, ey);
    lemma_mul_unary_negation(2 * m1 * s, dx);
    lemma_mul_unary_negation(2 * m1 * s, dy);
    assert(a2.x == d * v2.x + (2 * m1 * s) * dx);
    assert(a2.y == d * v2.y + (2 * m1 * s) * dy);
    lemma_energy_identity(m1, m2, v1.x, v1.y, v2.x, v2.y, dx, dy);
}

/// The impulse acts along the line of centers. Before the rounding, the
/// velocity across that line stays as it was, and the velocity of the two
/// bodies relative to each other along that line is turned round.
pub proof fn lemma_exact_response_along_centers(
    v1: Vector,
    v2: Vector,
    m1: int,
    m2: int,
    p1: Vector,
    p2: Vector,
)
    ensures
        ({
            let d = impulse_divisor(m1, m2, p1, p2);
            let a1 = exact_response(v1, v2, m1, m2, p1, p2);
            let a2 = exact_response(v2, v1, m2, m1, p2, p1);
            let along = p1.minus(p2);
            let across = Vector { x: -along.y, y: along.x };
            &&& a1.dot(across) == d * v1.dot(across)
            &&& a1.minus(a2).dot(along) == -(d * v1.minus(v2).dot(along))
        }),
{
    let dx = p1.x - p2.x;
    let dy = p1.y - p2.y;
    let ex = p2.x - p1.x;
    let ey = p2.y - p1.y;
    let ux = v1.x - v2.x;
    let uy = v1.y - v2.y;
    let s = ux * dx + uy * dy;
    let d2 = dx * dx + dy * dy;
    let mm = m1 + m2;
    let d = impulse_divisor(m1, m2, p1, p2);
    let a1 = exact_response(v1, v2, m1, m2, p1, p2);
    let a2 = exact_response(v2, v1, m2, m1, p2, p1);
    let k1 = 2 * m2 * s;
    let k2 = 2 * m1 * s;
    lemma_mirror(ux, uy, dx, dy, v2.x - v1.x, v2.y - v1.y, ex, ey);
    assert(impulse_divisor(m2, m1, p2, p1) == d);
    assert(a1.x == d * v1.x - k1 * dx);
    assert(a1.y == d * v1.y - k1 * dy);
    assert(a2.x == d * v2.x - k2 * ex);
    assert(a2.y == d * v2.y - k2 * ey);
    // across the line of centers
    let ny = -dy;
    lemma_mul_is_distributive_sub_other_way(ny, d * v1.x, k1 * dx);
    lemma_mul_is_distributive_sub_other_way(dx, d * v1.y, k1 * dy);
    lemma_mul_is_associative(d, v1.x, ny);
    lemma_mul_is_associative(d, v1.y, dx);
    lemma_mul_is_distributive_add(d, v1.x * ny, v1.y * dx);
    lemma_mul_is_associative(k1, dx, ny);
    lemma_mul_is_associative(k1, dy, dx);
    lemma_mul_unary_negation(dx, dy);
    lemma_mul_is_commutative(dx, dy);
    assert(dx * ny == -(dy * dx));
    lemma_mul_unary_negation(k1, dy * dx);
    assert((k1 * dx) * ny + (k1 * dy) * dx == 0);
    // along the line of centers
    let kk = k1 + k2;
    lemma_mul_unary_negation(k2, dx);
    lemma_mul_unary_negation(k2, dy);
    lemma_mul_is_distributive_add_other_way(dx, k1, k2);
    lemma_mul_is_distributive_add_other_way(dy, k1, k2);
    lemma_mul_is_distributive_sub(d, v1.x, v2.x);
    lemma_mul_is_distributive_sub(d, v1.y, v2.y);
    assert(a1.x - a2.x == d * ux - kk * dx);
    assert(a1.y - a2.y == d * uy - kk * dy);
    lemma_mul_is_distributive_sub_other_way(dx, d * ux, kk * dx);
    lemma_mul_is_distributive_sub_other_way(dy, d * uy, kk * dy);
    lemma_mul_is_associative(d, ux, dx);
    lemma_mul_is_associative(d, uy, dy);
    lemma_mul_is_distributive_add(d, ux * dx, uy * dy);
    lemma_mul_is_associative(kk, dx, dx);
    lemma_mul_is_associative(kk, dy, dy);
    lemma_mul_is_distributive_add(kk, dx * dx, dy * dy);
    assert(a1.minus(a2).dot(p1.minus(p2)) == d * s - kk * d2);
    lemma_mul_is_distributive_add_other_way(2 * s, m2, m1);
    lemma_mul_is_associative(2, m2, s);
    lemma_mul_is_associative(2, m1, s);
    lemma_mul_is_commutative(m2, s);
    lemma_mul_is_commutative(m1, s);
    lemma_mul_is_associative(2, s, m2);
    lemma_mul_is_associative(2, s, m1);
    assert(kk == (2 * s) * mm);
    lemma_mul_is_associative(2 * s, mm, d2);
    assert(kk * d2 == (2 * s) * d);
    lemma_mul_is_associative(2, s, d);
    lemma_mul_is_commutative(s, d);
}

/// The rounded response is the stored vector nearest to the exact one: each
/// component of a new velocity lies at most half a stored unit from the
/// exact new velocity.
pub proof fn lemma_response_is_nearest(
    v1: Vector,
    v2: Vector,
    m1: int,
    m2: int,
    p1: Vector,
    p2: Vector,
)
    requires
        m1 + m2 > 0,
        p1 != p2,
    ensures
        ({
            let d = impulse_divisor(m1, m2, p1, p2);
            let exact = exact_response(v1, v2, m1, m2, p1, p2);
            let rounded = velocity_after_collision(v1, v2, m1, m2, p1, p2);
            &&& d > 0
            &&& 2 * magnitude(d * rounded.x - exact.x) <= d
            &&& 2 * magnitude(d * rounded.y - exact.y) <= d
        }),
{
    let dx = p1.x - p2.x;
    let dy = p1.y - p2.y;
    let d = impulse_divisor(m1, m2, p1, p2);
    let k = impulse_scale(v1, v2, m2, p1, p2);
    lemma_square_positive(dx, dy);
    lemma_positive_product(m1 + m2, dx * dx + dy * dy);
    lemma_round_div_error(k * dx, d);
    lemma_round_div_error(k * dy, d);
    let qx = round_div(k * dx, d);
    let qy = round_div(k * dy, d);
    lemma_mul_is_distributive_sub(d, v1.x, qx);
    lemma_mul_is_distributive_sub(d, v1.y, qy);
    lemma_mul_is_commutative(d, qx);
    lemma_mul_is_commutative(d, qy);
}

/// The pair `a1`, `b1` carries the momentum and the energy of the pair `a0`,
/// `b0` to less than a ten-thousandth of a unit: of mass times velocity in
/// each component of the momentum, of mass times velocity squared in the
/// energy.
pub open spec fn conserved(a0: Ball, b0: Ball, a1: Ball, b1: Ball) -> bool {
    let p_before = momentum(a0.mass(), a0.velocity@, b0.mass(), b0.velocity@);
    let p_after = momentum(a1.mass(), a1.velocity@, b1.mass(), b1.velocity@);
    let e_before = energy(a0.mass(), a0.velocity@, b0.mass(), b0.velocity@);
    let e_after = energy(a1.mass(), a1.velocity@, b1.mass(), b1.velocity@);
    let unit = SPEED_UNIT as int;
    &&& 10_000 * magnitude(p_after.x - p_before.x) <= unit
    &&& 10_000 * magnitude(p_after.y - p_before.y) <= unit
    &&& 10_000 * magnitude(e_after - e_before) <= unit * unit
}

/// The tolerance of a collision. With momentum in units of mass times
/// velocity and energy in units of mass times velocity squared, the encounter
/// of two bodies moves each component of their total momentum, and their
/// total energy, by less than a ten-thousandth of a unit; so by less than one
/// part in ten thousand of any total of a unit or more. The law is stated
/// where neither new velocity leaves the range of stored velocities.
pub proof fn lemma_collide_within_tolerance(a: Ball, b: Ball)
    requires
        a.wf(),
        b.wf(),
        a.overlaps(b) ==> a.rebound(b).within(VELOCITY_LIMIT as int) && b.rebound(a).within(
            VELOCITY_LIMIT as int,
        ),
    ensures
        ({
            let a2 = a.after_collision(b);
            let b2 = b.after_collision(a);
            let p_before = momentum(a.mass(), a.velocity@, b.mass(), b.velocity@);
            let p_after = momentum(a.mass(), a2.velocity@, b.mass(), b2.velocity@);
            let e_before = energy(a.mass(), a.velocity@, b.mass(), b.velocity@);
            let e_after = energy(a.mass(), a2.velocity@, b.mass(), b2.velocity@);
            let unit = SPEED_UNIT as int;
            &&& 10_000 * magnitude(p_after.x - p_before.x) <= unit
            &&& 10_000 * magnitude(p_after.y - p_before.y) <= unit
            &&& 10_000 * magnitude(e_after - e_before) <= unit * unit
            &&& e_after >= unit * unit ==> 10_000 * magnitude(e_after - e_before) <= e_after
        }),
{
    let a2 = a.after_collision(b);
    let b2 = b.after_collision(a);
    lemma_collide_conserves_momentum(a, b);
    lemma_collide_conserves_energy(a, b);
    lemma_product_bound(a.radius as int, RADIUS_LIMIT as int, a.radius as int, RADIUS_LIMIT as int);
    lemma_product_bound(b.radius as int, RADIUS_LIMIT as int, b.radius as int, RADIUS_LIMIT as int);
    lemma_positive_product(a.radius as int, a.radius as int);
    lemma_positive_product(b.radius as int, b.radius as int);
    assert(RADIUS_LIMIT * RADIUS_LIMIT == 4096) by (nonlinear_arith);
    let ma = a.mass();
    let mb = b.mass();
    let na = a2.velocity@.norm_one();
    let nb = b2.velocity@.norm_one();
    let top: int = 0x8_0000_0000_0000;
    assert(2 * VELOCITY_LIMIT == top);
    assert(0 <= na <= top && 0 <= nb <= top);
    assert(ma * (2 * na + 1) <= 4096 * (2 * top + 1)) by (nonlinear_arith)
        requires
            0 < ma <= 4096,
            0 <= na <= top,
    ;
    assert(mb * (2 * nb + 1) <= 4096 * (2 * top + 1)) by (nonlinear_arith)
        requires
            0 < mb <= 4096,
            0 <= nb <= top,
    ;
    assert(SPEED_UNIT * SPEED_UNIT == 0x1_0000_0000_0000_0000_0000) by (nonlinear_arith);
}

/// The approach of two bodies along their line of centers, times one
/// component of that line, is at most the relative velocity times the
/// squared distance.
proof fn lemma_approach_bound(ux: int, uy: int, dx: int, dy: int)
    ensures
        magnitude((ux * dx + uy * dy) * dx) <= (magnitude(ux) + magnitude(uy)) * (dx * dx + dy
            * dy),
        magnitude((ux * dx + uy * dy) * dy) <= (magnitude(ux) + magnitude(uy)) * (dx * dx + dy
            * dy),
{
    let a = magnitude(ux);
    let b = magnitude(uy);
    let x = magnitude(dx);
    let y = magnitude(dy);
    let s = ux * dx + uy * dy;
    assert(magnitude(ux * dx) == a * x) by (nonlinear_arith)
        requires
            a == magnitude(ux),
            x == magnitude(dx),
    ;
    assert(magnitude(uy * dy) == b * y) by (nonlinear_arith)
        requires
            b == magnitude(uy),
            y == magnitude(dy),
    ;
    let t = a * x + b * y;
    assert(magnitude(s) <= t);
    assert(dx * dx == x * x) by (nonlinear_arith)
        requires
            x == magnitude(dx),
    ;
    assert(dy * dy == y * y) by (nonlinear_arith)
        requires
            y == magnitude(dy),
    ;
    let xx = x * x;
    let yy = y * y;
    let xy = x * y;
    assert(xy <= xx + yy && xy >= 0 && xx >= 0 && yy >= 0) by (nonlinear_arith)
        requires
            xx == x * x,
            yy == y * y,
            xy == x * y,
            x >= 0,
            y >= 0,
    ;
    let ms = magnitude(s);
    assert(magnitude(s * dx) == ms * x) by (nonlinear_arith)
        requires
            ms == magnitude(s),
            x == magnitude(dx),
    ;
    assert(magnitude(s * dy) == ms * y) by (nonlinear_arith)
        requires
            ms == magnitude(s),
            y == magnitude(dy),
    ;
    assert(ms * x <= t * x) by (nonlinear_arith)
        requires
            0 <= ms <= t,
            x >= 0,
    ;
    assert(ms * y <= t * y) by (nonlinear_arith)
        requires
            0 <= ms <= t,
            y >= 0,
    ;
    lemma_mul_is_distributive_add_other_way(x, a * x, b * y);
    lemma_mul_is_distributive_add_other_way(y, a * x, b * y);
    lemma_mul_is_associative(a, x, x);
    lemma_mul_is_associative(b, y, x);
    lemma_mul_is_associative(a, x, y);
    lemma_mul_is_associative(b, y, y);
    lemma_mul_is_commutative(y, x);
    assert(t * x == a * xx + b * xy);
    assert(t * y == a * xy + b * yy);
    lemma_mul_is_distributive_add(a, xx, yy);
    lemma_mul_is_distributive_add(b, xx, yy);
    lemma_mul_is_distributive_add_other_way(xx + yy, a, b);
    assert(a * xy <= a * (xx + yy)) by (nonlinear_arith)
        requires
            a >= 0,
            xy <= xx + yy,
    ;
    assert(b * xy <= b * (xx + yy)) by (nonlinear_arith)
        requires
            b >= 0,
            xy <= xx + yy,
    ;
    assert(a * xx >= 0 && a * yy >= 0 && b * xx >= 0 && b * yy >= 0) by (nonlinear_arith)
        requires
            a >= 0,
            b >= 0,
            xx >= 0,
            yy >= 0,
    ;
}

/// A collision changes each component of a velocity by at most twice the
/// relative velocity of the two bodies, taken as the sum of the magnitudes
/// of its components.
pub proof fn lemma_change_is_bounded(
    v1: Vector,
    v2: Vector,
    m1: int,
    m2: int,
    p1: Vector,
    p2: Vector,
)
    requires
        m1 > 0,
        m2 > 0,
    ensures
        ({
            let change = velocity_change(v1, v2, m1, m2, p1, p2);
            let relative = v1.minus(v2).norm_one();
            &&& magnitude(change.x) <= 2 * relative
            &&& magnitude(change.y) <= 2 * relative
        }),
{
    if p1 != p2 {
        let dx = p1.x - p2.x;
        let dy = p1.y - p2.y;
        let ux = v1.x - v2.x;
        let uy = v1.y - v2.y;
        let s = ux * dx + uy * dy;
        let d2 = dx * dx + dy * dy;
        let n = magnitude(ux) + magnitude(uy);
        let k = impulse_scale(v1, v2, m2, p1, p2);
        let d = impulse_divisor(m1, m2, p1, p2);
        lemma_square_positive(dx, dy);
        lemma_positive_product(m1 + m2, d2);
        lemma_approach_bound(ux, uy, dx, dy);
        assert(k == (2 * m2) * s) by {
            lemma_mul_is_associative(2, m2, s);
        }
        lemma_scale_bound(m1, m2, s * dx, n, d2);
        lemma_scale_bound(m1, m2, s * dy, n, d2);
        lemma_mul_is_associative(2 * m2, s, dx);
        lemma_mul_is_associative(2 * m2, s, dy);
        lemma_round_div_within(k * dx, d, 2 * n);
        lemma_round_div_within(k * dy, d, 2 * n);
    }
}

/// A term of at most `n * d2` in magnitude, times twice one of two positive
/// masses, is at most `2 * n` times the total mass times `d2`.
proof fn lemma_scale_bound(m1: int, m2: int, w: int, n: int, d2: int)
    requires
        m1 > 0,
        m2 > 0,
        n >= 0,
        d2 >= 0,
        magnitude(w) <= n * d2,
    ensures
        magnitude((2 * m2) * w) <= (2 * n) * ((m1 + m2) * d2),
{
    let mw = magnitude(w);
    let nd = n * d2;
    assert(magnitude((2 * m2) * w) == (2 * m2) * mw) by (nonlinear_arith)
        requires
            m2 > 0,
            mw == magnitude(w),
    ;
    assert((2 * m2) * mw <= (2 * m2) * nd) by (nonlinear_arith)
        requires
            m2 > 0,
            0 <= mw <= nd,
    ;
    assert(nd >= 0) by (nonlinear_arith)
        requires
            nd == n * d2,
            n >= 0,
            d2 >= 0,
    ;
    assert((2 * m2) * nd <= (2 * (m1 + m2)) * nd) by (nonlinear_arith)
        requires
            m1 > 0,
            m2 > 0,
            nd >= 0,
    ;
    lemma_mul_is_associative(2 * (m1 + m2), n, d2);
    lemma_mul_is_associative(2, m1 + m2, n);
    lemma_mul_is_commutative(m1 + m2, n);
    lemma_mul_is_associative(2, n, m1 + m2);
    lemma_mul_is_associative(2 * n, m1 + m2, d2);
}

/// Bodies that meet at up to 64 units of length per second in each component
/// leave with velocities that lie in the range of stored velocities: nothing
/// is confined, and the encounter keeps momentum and energy within the
/// tolerance of `lemma_collide_within_tolerance`.
pub proof fn lemma_free_collision(a: Ball, b: Ball)
    requires
        a.wf(),
        b.wf(),
        a.velocity@.within(FREE_SPEED_LIMIT as int),
        b.velocity@.within(FREE_SPEED_LIMIT as int),
    ensures
        a.rebound(b).within(VELOCITY_LIMIT as int),
        b.rebound(a).within(VELOCITY_LIMIT as int),
        a.after_collision(b).velocity@ == if a.overlaps(b) {
            a.rebound(b)
        } else {
            a.velocity@
        },
        conserved(a, b, a.after_collision(b), b.after_collision(a)),
{
    lemma_positive_product(a.radius as int, a.radius as int);
    lemma_positive_product(b.radius as int, b.radius as int);
    lemma_change_is_bounded(a.velocity@, b.velocity@, a.mass(), b.mass(), a.position@, b.position@);
    lemma_change_is_bounded(b.velocity@, a.velocity@, b.mass(), a.mass(), b.position@, a.position@);
    assert(16 * FREE_SPEED_LIMIT == VELOCITY_LIMIT);
    lemma_collide_within_tolerance(a, b);
}

/// A combination of two rounding errors, each at most half a divisor.
proof fn lemma_error_combination(d: int, e: int, f: int, x: int, y: int, total: int)
    requires
        d > 0,
        2 * magnitude(e) <= d,
        2 * magnitude(f) <= d,
        total == e * x + f * y,
    ensures
        2 * magnitude(total) <= d * (magnitude(x) + magnitude(y)),
{
    let me = magnitude(e);
    let mf = magnitude(f);
    let mx = magnitude(x);
    let my = magnitude(y);
    assert(magnitude(e * x) == me * mx) by (nonlinear_arith)
        requires
            me == magnitude(e),
            mx == magnitude(x),
    ;
    assert(magnitude(f * y) == mf * my) by (nonlinear_arith)
        requires
            mf == magnitude(f),
            my == magnitude(y),
    ;
    assert(2 * (me * mx) <= d * mx) by (nonlinear_arith)
        requires
            0 <= 2 * me <= d,
            mx >= 0,
    ;
    assert(2 * (mf * my) <= d * my) by (nonlinear_arith)
        requires
            0 <= 2 * mf <= d,
            my >= 0,
    ;
    lemma_mul_is_distributive_add(d, mx, my);
}

/// After the rounding the impulse still acts along the line of centers, to
/// half a stored unit of velocity: the velocity across that line changes by
/// at most half a stored unit for each stored unit of distance between the
/// centers.
pub proof fn lemma_response_along_centers(
    v1: Vector,
    v2: Vector,
    m1: int,
    m2: int,
    p1: Vector,
    p2: Vector,
)
    requires
        m1 + m2 > 0,
    ensures
        ({
            let along = p1.minus(p2);
            let across = Vector { x: -along.y, y: along.x };
            let change = velocity_change(v1, v2, m1, m2, p1, p2);
            2 * magnitude(change.dot(across)) <= along.norm_one()
        }),
{
    if p1 != p2 {
        let dx = p1.x - p2.x;
        let dy = p1.y - p2.y;
        let ny = -dy;
        let d = impulse_divisor(m1, m2, p1, p2);
        let k = impulse_scale(v1, v2, m2, p1, p2);
        lemma_square_positive(dx, dy);
        lemma_positive_product(m1 + m2, dx * dx + dy * dy);
        let qx = round_div(k * dx, d);
        let qy = round_div(k * dy, d);
        lemma_round_div_error(k * dx, d);
        lemma_round_div_error(k * dy, d);
        let ex = qx * d - k * dx;
        let ey = qy * d - k * dy;
        let t = qx * ny + qy * dx;
        // d * t == ex * ny + ey * dx: the exact parts cancel
        lemma_mul_is_distributive_add(d, qx * ny, qy * dx);
        lemma_mul_is_associative(d, qx, ny);
        lemma_mul_is_associative(d, qy, dx);
        lemma_mul_is_commutative(d, qx);
        lemma_mul_is_commutative(d, qy);
        lemma_mul_is_distributive_sub_other_way(ny, qx * d, k * dx);
        lemma_mul_is_distributive_sub_other_way(dx, qy * d, k * dy);
        lemma_mul_is_associative(k, dx, ny);
        lemma_mul_is_associative(k, dy, dx);
        lemma_mul_unary_negation(dx, dy);
        lemma_mul_is_commutative(dx, dy);
        lemma_mul_unary_negation(k, dy * dx);
        assert((k * dx) * ny + (k * dy) * dx == 0);
        assert(d * t == ex * ny + ey * dx);
        lemma_error_combination(d, ex, ey, ny, dx, d * t);
        let n = magnitude(ny) + magnitude(dx);
        assert(2 * magnitude(t) <= n) by (nonlinear_arith)
            requires
                d > 0,
                2 * magnitude(d * t) <= d * n,
        ;
    }
}

/// The rounded change of a velocity, taken along a vector `(dx, dy)`, split
/// into its rounding errors and its exact part.
proof fn lemma_change_along(d: int, k: int, qx: int, qy: int, dx: int, dy: int)
    ensures
        d * (qx * dx + qy * dy) == ((qx * d - k * dx) * dx + (qy * d - k * dy) * dy) + k * (dx * dx
            + dy * dy),
{
    lemma_mul_is_distributive_add(d, qx * dx, qy * dy);
    lemma_mul_is_associative(d, qx, dx);
    lemma_mul_is_associative(d, qy, dy);
    lemma_mul_is_commutative(d, qx);
    lemma_mul_is_commutative(d, qy);
    lemma_mul_is_distributive_sub_other_way(dx, qx * d, k * dx);
    lemma_mul_is_distributive_sub_other_way(dy, qy * d, k * dy);
    lemma_mul_is_associative(k, dx, dx);
    lemma_mul_is_associative(k, dy, dy);
    lemma_mul_is_distributive_add(k, dx * dx, dy * dy);
}

/// After the rounding the collision still turns round the velocity of the
/// two bodies relative to each other along their line of centers, to one
/// stored unit of velocity for each stored unit of distance between the
/// centers.
pub proof fn lemma_response_turns_round(
    v1: Vector,
    v2: Vector,
    m1: int,
    m2: int,
    p1: Vector,
    p2: Vector,
)
    requires
        m1 + m2 > 0,
    ensures
        ({
            let along = p1.minus(p2);
            let w1 = velocity_after_collision(v1, v2, m1, m2, p1, p2);
            let w2 = velocity_after_collision(v2, v1, m2, m1, p2, p1);
            p1 != p2 ==> magnitude(w1.minus(w2).dot(along) + v1.minus(v2).dot(along))
                <= along.norm_one()
        }),
{
    if p1 != p2 {
        let dx = p1.x - p2.x;
        let dy = p1.y - p2.y;
        let ex = p2.x - p1.x;
        let ey = p2.y - p1.y;
        let ux = v1.x - v2.x;
        let uy = v1.y - v2.y;
        let s = ux * dx + uy * dy;
        let d2 = dx * dx + dy * dy;
        let mm = m1 + m2;
        let d = impulse_divisor(m1, m2, p1, p2);
        let k1 = 2 * m2 * s;
        let k2 = 2 * m1 * s;
        let kn = -k2;
        lemma_mirror(ux, uy, dx, dy, v2.x - v1.x, v2.y - v1.y, ex, ey);
        assert(impulse_divisor(m2, m1, p2, p1) == d);
        assert(impulse_scale(v1, v2, m2, p1, p2) == k1);
        assert(impulse_scale(v2, v1, m1, p2, p1) == k2);
        lemma_square_positive(dx, dy);
        lemma_positive_product(mm, d2);
        let q1x = round_div(k1 * dx, d);
        let q1y = round_div(k1 * dy, d);
        let q2x = round_div(k2 * ex, d);
        let q2y = round_div(k2 * ey, d);
        lemma_round_div_error(k1 * dx, d);
        lemma_round_div_error(k1 * dy, d);
        lemma_round_div_error(k2 * ex, d);
        lemma_round_div_error(k2 * ey, d);
        lemma_mul_unary_negation(k2, dx);
        lemma_mul_unary_negation(k2, dy);
        assert(k2 * ex == kn * dx);
        assert(k2 * ey == kn * dy);
        let f1 = (q1x * d - k1 * dx) * dx + (q1y * d - k1 * dy) * dy;
        let f2 = (q2x * d - kn * dx) * dx + (q2y * d - kn * dy) * dy;
        let t1 = q1x * dx + q1y * dy;
        let t2 = q2x * dx + q2y * dy;
        lemma_change_along(d, k1, q1x, q1y, dx, dy);
        lemma_change_along(d, kn, q2x, q2y, dx, dy);
        lemma_error_combination(d, q1x * d - k1 * dx, q1y * d - k1 * dy, dx, dy, f1);
        lemma_error_combination(d, q2x * d - kn * dx, q2y * d - kn * dy, dx, dy, f2);
        // (k1 + k2) * d2 == (2 * s) * d
        lemma_mul_is_distributive_add_other_way(2 * s, m2, m1);
        lemma_mul_is_associative(2, m2, s);
        lemma_mul_is_associative(2, m1, s);
        lemma_mul_is_commutative(m2, s);
        lemma_mul_is_commutative(m1, s);
        lemma_mul_is_associative(2, s, m2);
        lemma_mul_is_associative(2, s, m1);
        assert(k1 + k2 == (2 * s) * mm);
        lemma_mul_is_associative(2 * s, mm, d2);
        lemma_mul_unary_negation(k2, d2);
        lemma_mul_is_distributive_add_other_way(d2, k1, k2);
        assert(k1 * d2 - kn * d2 == (2 * s) * d);
        lemma_mul_is_distributive_sub(d, t1, t2);
        assert(d * (t1 - t2) == f1 - f2 + (2 * s) * d);
        let w1 = velocity_after_collision(v1, v2, m1, m2, p1, p2);
        let w2 = velocity_after_collision(v2, v1, m2, m1, p2, p1);
        assert(w1.x - w2.x == ux - q1x + q2x);
        assert(w1.y - w2.y == uy - q1y + q2y);
        let x = w1.minus(w2).dot(p1.minus(p2)) + s;
        lemma_mul_is_distributive_add_other_way(dx, ux, q2x - q1x);
        lemma_mul_is_distributive_add_other_way(dy, uy, q2y - q1y);
        lemma_mul_is_distributive_sub_other_way(dx, q2x, q1x);
        lemma_mul_is_distributive_sub_other_way(dy, q2y, q1y);
        assert(x == 2 * s - (t1 - t2));
        lemma_mul_is_distributive_sub(d, 2 * s, t1 - t2);
        lemma_mul_is_commutative(d, 2 * s);
        assert(d * x == f2 - f1);
        let n = magnitude(dx) + magnitude(dy);
        assert(magnitude(x) <= n) by (nonlinear_arith)
            requires
                d > 0,
                2 * magnitude(d * x) <= 2 * (d * n),
        ;
    }
}

} // verus!
