//! Two-dimensional vectors: the mathematical plane over the integers, and the
//! stored vectors whose components are machine integers.

use crate::arith::{clamp, clamp_to, magnitude};
use crate::units::{EXACT_LIMIT, LENGTH_UNIT, POSITION_LIMIT, SPEED_UNIT, VELOCITY_LIMIT};
use vstd::prelude::*;

verus! {

/// Largest magnitude of an entry of a matrix.
pub const MATRIX_LIMIT: i64 = 1024;

/// A vector of the integer plane.
pub struct Vector {
    pub x: int,
    pub y: int,
}

impl Vector {
    pub open spec fn zero() -> Vector {
        Vector { x: 0, y: 0 }
    }

    pub open spec fn plus(self, other: Vector) -> Vector {
        Vector { x: self.x + other.x, y: self.y + other.y }
    }

    pub open spec fn minus(self, other: Vector) -> Vector {
        Vector { x: self.x - other.x, y: self.y - other.y }
    }

    /// Mirror image across the vertical axis.
    pub open spec fn mirrored_x(self) -> Vector {
        Vector { x: -self.x, y: self.y }
    }

    /// Mirror image across the horizontal axis.
    pub open spec fn mirrored_y(self) -> Vector {
        Vector { x: self.x, y: -self.y }
    }

    pub open spec fn scaled(self, k: int) -> Vector {
        Vector { x: k * self.x, y: k * self.y }
    }

    pub open spec fn dot(self, other: Vector) -> int {
        self.x * other.x + self.y * other.y
    }

    /// Squared Euclidean length.
    pub open spec fn norm_sq(self) -> int {
        self.x * self.x + self.y * self.y
    }

    /// Sum of the magnitudes of the components.
    pub open spec fn norm_one(self) -> int {
        magnitude(self.x) + magnitude(self.y)
    }

    /// Both components have magnitude at most `limit`.
    pub open spec fn within(self, limit: int) -> bool {
        &&& -limit <= self.x <= limit
        &&& -limit <= self.y <= limit
    }

    /// Each component confined to `[-limit, limit]`.
    pub open spec fn clamped(self, limit: int) -> Vector {
        Vector { x: clamp(self.x, limit), y: clamp(self.y, limit) }
    }
}

/// A stored vector.
#[derive(Clone, Copy, Debug, PartialEq, Eq, Structural)]
pub struct Vec2 {
    pub x: i64,
    pub y: i64,
}

impl View for Vec2 {
    type V = Vector;

    open spec fn view(&self) -> Vector {
        Vector { x: self.x as int, y: self.y as int }
    }
}

impl Vec2 {
    /// The components fit the range of a stored position.
    pub open spec fn is_position(self) -> bool {
        self@.within(POSITION_LIMIT as int)
    }

    /// The components fit the range of a stored velocity.
    pub open spec fn is_velocity(self) -> bool {
        self@.within(VELOCITY_LIMIT as int)
    }

    /// The components are so small that the vector operations are exact.
    pub open spec fn is_exact(self) -> bool {
        self@.within(EXACT_LIMIT as int)
    }

    pub fn new(x: i64, y: i64) -> (v: Vec2)
        ensures
            v.x == x,
            v.y == y,
    {
        Vec2 { x, y }
    }

    /// The stored position of a point given in whole units of length.
    pub fn from_lengths(x: i64, y: i64) -> (v: Vec2)
        requires
            -16384 <= x <= 16384,
            -16384 <= y <= 16384,
        ensures
            v.x == x * LENGTH_UNIT,
            v.y == y * LENGTH_UNIT,
            v.is_position(),
    {
        Vec2 { x: x * LENGTH_UNIT, y: y * LENGTH_UNIT }
    }

    /// The stored velocity of a velocity given in whole units of length per
    /// second.
    pub fn from_speeds(x: i64, y: i64) -> (v: Vec2)
        requires
            -1024 <= x <= 1024,
            -1024 <= y <= 1024,
        ensures
            v.x == x * SPEED_UNIT,
            v.y == y * SPEED_UNIT,
            v.is_velocity(),
    {
        Vec2 { x: x * SPEED_UNIT, y: y * SPEED_UNIT }
    }

    /// Tells whether both components have magnitude at most `limit`.
    pub fn is_within(self, limit: i64) -> (b: bool)
        requires
            0 <= limit,
        ensures
            b == self@.within(limit as int),
    {
        -limit <= self.x && self.x <= limit && -limit <= self.y && self.y <= limit
    }

    /// Componentwise difference.
    pub fn minus(self, other: Vec2) -> (d: Vec2)
        requires
            self.is_exact(),
            other.is_exact(),
        ensures
            d@ == self@.minus(other@),
    {
        Vec2 { x: self.x - other.x, y: self.y - other.y }
    }

    /// Dot product.
    pub fn dot(self, other: Vec2) -> (p: i128)
        requires
            self.is_exact(),
            other.is_exact(),
        ensures
            p == self@.dot(other@),
    {
        proof {
            lemma_product_bound(
                self.x as int,
                EXACT_LIMIT as int,
                other.x as int,
                EXACT_LIMIT as int,
            );
            lemma_product_bound(
                self.y as int,
                EXACT_LIMIT as int,
                other.y as int,
                EXACT_LIMIT as int,
            );
            assert(EXACT_LIMIT * EXACT_LIMIT == 0x400_0000_0000_0000_0000_0000_0000_0000)
                by (nonlinear_arith);
        }
        (self.x as i128) * (other.x as i128) + (self.y as i128) * (other.y as i128)
    }

    /// Squared Euclidean length.
    pub fn length_squared(self) -> (p: i128)
        requires
            self.is_exact(),
        ensures
            p == self@.norm_sq(),
            0 <= p,
    {
        proof {
            lemma_square_nonnegative(self.x as int);
            lemma_square_nonnegative(self.y as int);
        }
        self.dot(self)
    }

    /// Squared Euclidean distance to `other`.
    pub fn distance_squared(self, other: Vec2) -> (p: i128)
        requires
            self.is_position(),
            other.is_position(),
        ensures
            p == self@.minus(other@).norm_sq(),
            0 <= p,
    {
        self.minus(other).length_squared()
    }

    /// The vector with each component confined to `[-limit, limit]`.
    pub fn saturated(x: i128, y: i128, limit: i64) -> (v: Vec2)
        requires
            0 <= limit,
        ensures
            v@ == (Vector { x: x as int, y: y as int }).clamped(limit as int),
            v@.within(limit as int),
    {
        Vec2 { x: clamp_to(x, limit), y: clamp_to(y, limit) }
    }
}

/// A product of two bounded factors is bounded by the product of the bounds.
pub proof fn lemma_product_bound(a: int, la: int, b: int, lb: int)
    requires
        -la <= a <= la,
        -lb <= b <= lb,
    ensures
        -(la * lb) <= a * b <= la * lb,
{
    assert(-(la * lb) <= a * b <= la * lb) by (nonlinear_arith)
        requires
            -la <= a <= la,
            -lb <= b <= lb,
    ;
}

/// A square is never negative.
pub proof fn lemma_square_nonnegative(a: int)
    ensures
        a * a >= 0,
{
    assert(a * a >= 0) by (nonlinear_arith);
}

/// A 2x2 integer matrix, held by its columns.
#[derive(Clone, Copy, Debug, PartialEq, Eq, Structural)]
pub struct Mat2 {
    pub x_axis: Vec2,
    pub y_axis: Vec2,
}

impl Mat2 {
    /// The image of `v` under the matrix.
    pub open spec fn apply(self, v: Vector) -> Vector {
        Vector {
            x: self.x_axis.x * v.x + self.y_axis.x * v.y,
            y: self.x_axis.y * v.x + self.y_axis.y * v.y,
        }
    }

    /// No entry exceeds the limit for matrices.
    pub open spec fn wf(self) -> bool {
        &&& self.x_axis@.within(MATRIX_LIMIT as int)
        &&& self.y_axis@.within(MATRIX_LIMIT as int)
    }

    /// The matrix with the given columns.
    pub fn from_cols(x_axis: Vec2, y_axis: Vec2) -> (m: Mat2)
        ensures
            m.x_axis == x_axis,
            m.y_axis == y_axis,
    {
        Mat2 { x_axis, y_axis }
    }

    /// Mirror image across the vertical axis: the horizontal component changes sign.
    pub fn flip_x() -> (m: Mat2)
        ensures
            m.x_axis == (Vec2 { x: -1i64, y: 0 }),
            m.y_axis == (Vec2 { x: 0, y: 1 }),
            m.wf(),
            forall|v: Vector| #[trigger] m.apply(v) == v.mirrored_x(),
    {
        let m = Mat2 { x_axis: Vec2 { x: -1, y: 0 }, y_axis: Vec2 { x: 0, y: 1 } };
        assert forall|v: Vector| #[trigger] m.apply(v) == v.mirrored_x() by {
            assert((-1) * v.x + 0 * v.y == -v.x && 0 * v.x + 1 * v.y == v.y) by (nonlinear_arith);
        }
        m
    }

    /// Mirror image across the horizontal axis: the vertical component changes sign.
    pub fn flip_y() -> (m: Mat2)
        ensures
            m.x_axis == (Vec2 { x: 1, y: 0 }),
            m.y_axis == (Vec2 { x: 0, y: -1i64 }),
            m.wf(),
            forall|v: Vector| #[trigger] m.apply(v) == v.mirrored_y(),
    {
        let m = Mat2 { x_axis: Vec2 { x: 1, y: 0 }, y_axis: Vec2 { x: 0, y: -1 } };
        assert forall|v: Vector| #[trigger] m.apply(v) == v.mirrored_y() by {
            assert(1 * v.x + 0 * v.y == v.x && 0 * v.x + (-1) * v.y == -v.y) by (nonlinear_arith);
        }
        m
    }

    /// Matrix times vector.
    pub fn mul_vec2(self, v: Vec2) -> (r: Vec2)
        requires
            self.wf(),
            v.is_velocity(),
        ensures
            r@ == self.apply(v@),
    {
        proof {
            lemma_product_bound(
                self.x_axis.x as int,
                MATRIX_LIMIT as int,
                v.x as int,
                VELOCITY_LIMIT as int,
            );
            lemma_product_bound(
                self.y_axis.x as int,
                MATRIX_LIMIT as int,
                v.y as int,
                VELOCITY_LIMIT as int,
            );
            lemma_product_bound(
                self.x_axis.y as int,
                MATRIX_LIMIT as int,
                v.x as int,
                VELOCITY_LIMIT as int,
            );
            lemma_product_bound(
                self.y_axis.y as int,
                MATRIX_LIMIT as int,
                v.y as int,
                VELOCITY_LIMIT as int,
            );
            assert(MATRIX_LIMIT * VELOCITY_LIMIT == 0x1000_0000_0000_0000) by (nonlinear_arith);
        }
        Vec2 {
            x: self.x_axis.x * v.x + self.y_axis.x * v.y,
            y: self.x_axis.y * v.x + self.y_axis.y * v.y,
        }
    }
}

} // verus!
