//! Elastic collision response of two disks along their line of centers.

use crate::arith::{div_round, lemma_round_div_bound, round_div};
use crate::units::{MASS_LIMIT, VELOCITY_LIMIT};
use crate::vector::{lemma_product_bound, Vec2, Vector};
use vstd::prelude::*;

verus! {

/// Twice the other body's mass times the approach of the two bodies along the
/// line of centers: the numerator of the impulse coefficient.
pub open spec fn impulse_scale(v1: Vector, v2: Vector, m2: int, p1: Vector, p2: Vector) -> int {
    2 * m2 * v1.minus(v2).dot(p1.minus(p2))
}

/// Total mass times the squared distance of the centers: the denominator of
/// the impulse coefficient.
pub open spec fn impulse_divisor(m1: int, m2: int, p1: Vector, p2: Vector) -> int {
    (m1 + m2) * p1.minus(p2).norm_sq()
}

/// What the collision takes from the first body's velocity, each component
/// rounded to the nearest integer. Bodies at one and the same position have no
/// line of centers and exchange nothing.
pub open spec fn velocity_change(
    v1: Vector,
    v2: Vector,
    m1: int,
    m2: int,
    p1: Vector,
    p2: Vector,
) -> Vector {
    if p1 == p2 {
        Vector::zero()
    } else {
        let k = impulse_scale(v1, v2, m2, p1, p2);
        let d = impulse_divisor(m1, m2, p1, p2);
        let dpos = p1.minus(p2);
        Vector { x: round_div(k * dpos.x, d), y: round_div(k * dpos.y, d) }
    }
}

/// The first body's velocity after an elastic collision with the second:
/// `v1 - (2*m2/(m1+m2)) * dot(v1 - v2, p1 - p2) / |p1 - p2|^2 * (p1 - p2)`,
/// rounded.
pub open spec fn velocity_after_collision(
    v1: Vector,
    v2: Vector,
    m1: int,
    m2: int,
    p1: Vector,
    p2: Vector,
) -> Vector {
    v1.minus(velocity_change(v1, v2, m1, m2, p1, p2))
}

/// The first body's velocity after an elastic collision with the second,
/// confined to the range of stored velocities.
pub fn compute_velocity_after_collision(
    v1: Vec2,
    v2: Vec2,
    m1: i64,
    m2: i64,
    p1: Vec2,
    p2: Vec2,
) -> (r: Vec2)
    requires
        v1.is_velocity(),
        v2.is_velocity(),
        p1.is_position(),
        p2.is_position(),
        0 < m1 <= MASS_LIMIT,
        0 < m2 <= MASS_LIMIT,
    ensures
        r@ == velocity_after_collision(v1@, v2@, m1 as int, m2 as int, p1@, p2@).clamped(
            VELOCITY_LIMIT as int,
        ),
        r.is_velocity(),
{
    let dpos = p1.minus(p2);
    if dpos.x == 0 && dpos.y == 0 {
        assert(p1@ == p2@);
        return v1;
    }
    assert(p1@ != p2@);
    // Differences of positions stay below 2^27 and of velocities below 2^51,
    // masses below 2^12: the impulse numerator stays below 2^119.
    let dv = v1.minus(v2);
    let approach = dv.dot(dpos);
    let dist_sq = dpos.length_squared();
    proof {
        lemma_product_bound(dv.x as int, 0x8_0000_0000_0000, dpos.x as int, 0x800_0000);
        lemma_product_bound(dv.y as int, 0x8_0000_0000_0000, dpos.y as int, 0x800_0000);
        lemma_product_bound(dpos.x as int, 0x800_0000, dpos.x as int, 0x800_0000);
        lemma_product_bound(dpos.y as int, 0x800_0000, dpos.y as int, 0x800_0000);
        lemma_square_positive(dpos.x as int, dpos.y as int);
        assert(0x8_0000_0000_0000 * 0x800_0000 == 0x4000_0000_0000_0000_0000) by (nonlinear_arith);
        assert(0x800_0000 * 0x800_0000 == 0x40_0000_0000_0000) by (nonlinear_arith);
    }
    let double_mass: i128 = 2 * (m2 as i128);
    proof {
        lemma_product_bound(
            double_mass as int,
            0x2000,
            approach as int,
            0x8000_0000_0000_0000_0000,
        );
        assert(0x2000 * 0x8000_0000_0000_0000_0000 == 0x1000_0000_0000_0000_0000_0000)
            by (nonlinear_arith);
    }
    let k: i128 = double_mass * approach;
    let total_mass: i128 = (m1 as i128) + (m2 as i128);
    proof {
        lemma_product_bound(total_mass as int, 0x2000, dist_sq as int, 0x80_0000_0000_0000);
        lemma_positive_product(total_mass as int, dist_sq as int);
        lemma_product_bound(k as int, 0x1000_0000_0000_0000_0000_0000, dpos.x as int, 0x800_0000);
        lemma_product_bound(k as int, 0x1000_0000_0000_0000_0000_0000, dpos.y as int, 0x800_0000);
        assert(0x1000_0000_0000_0000_0000_0000 * 0x800_0000
            == 0x80_0000_0000_0000_0000_0000_0000_0000) by (nonlinear_arith);
        assert(0x2000 * 0x80_0000_0000_0000 == 0x10_0000_0000_0000_0000) by (nonlinear_arith);
    }
    let d: i128 = total_mass * dist_sq;
    let nx: i128 = k * (dpos.x as i128);
    let ny: i128 = k * (dpos.y as i128);
    let cx = div_round(nx, d);
    let cy = div_round(ny, d);
    proof {
        lemma_round_div_bound(nx as int, d as int);
        lemma_round_div_bound(ny as int, d as int);
        assert(k == impulse_scale(v1@, v2@, m2 as int, p1@, p2@));
        assert(d == impulse_divisor(m1 as int, m2 as int, p1@, p2@));
    }
    Vec2::saturated(v1.x as i128 - cx, v1.y as i128 - cy, VELOCITY_LIMIT)
}

/// A vector other than zero has a positive squared length.
pub proof fn lemma_square_positive(x: int, y: int)
    requires
        x != 0 || y != 0,
    ensures
        x * x + y * y > 0,
{
    assert(x * x + y * y > 0) by (nonlinear_arith)
        requires
            x != 0 || y != 0,
    ;
}

/// A product of two positive factors is positive.
pub proof fn lemma_positive_product(a: int, b: int)
    requires
        a > 0,
        b > 0,
    ensures
        a * b > 0,
{
    assert(a * b > 0) by (nonlinear_arith)
        requires
            a > 0,
            b > 0,
    ;
}

} // verus!
