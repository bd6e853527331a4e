//! A single disk: its wall reflection, its overlap test, its collision with
//! another disk and its motion over one time step.

use crate::arith::{
    div_round, lemma_round_div_bound, lemma_round_div_error, lemma_round_div_zero, magnitude,
    round_div,
};
use crate::config::Config;
use crate::conservation::{conserved, lemma_free_collision};
use crate::random::draw_between;
use crate::resolver::{
    compute_velocity_after_collision, lemma_positive_product, velocity_after_collision,
};
use crate::units::{
    FREE_SPEED_LIMIT, LENGTH_UNIT, MASS_LIMIT, POSITION_LIMIT, RADIUS_LIMIT, SPEED_UNIT,
    STEP_DIVISOR, VELOCITY_LIMIT,
};
use crate::vector::{lemma_product_bound, Mat2, Vec2, Vector};
use macroquad::rand::RandGenerator;
use vstd::prelude::*;

verus! {

/// A colour, of no physical meaning.
#[derive(Clone, Copy, Debug, PartialEq, Eq, Structural)]
pub struct Color {
    pub r: u8,
    pub g: u8,
    pub b: u8,
    pub a: u8,
}

/// A disk of fixed radius that moves in the plane. The radius is in whole
/// units of length; position and velocity are in their stored units.
#[derive(Clone, Copy, Debug, PartialEq, Eq, Structural)]
pub struct Ball {
    pub radius: i64,
    pub position: Vec2,
    pub velocity: Vec2,
    pub color: Color,
}

/// How far a body moves in `dt` nanoseconds at `velocity`, in stored units
/// of position, each component rounded to the nearest unit.
pub open spec fn displacement(velocity: Vector, dt: int) -> Vector {
    Vector {
        x: round_div(velocity.x * dt, STEP_DIVISOR as int),
        y: round_div(velocity.y * dt, STEP_DIVISOR as int),
    }
}

/// The disk reaches beyond both walls of its axis at once.
pub open spec fn straddles(position: int, extent: int, lower: int, upper: int) -> bool {
    position - extent < lower && position + extent > upper
}

/// The disk reaches beyond a wall of its axis and moves further out.
pub open spec fn leaves(position: int, extent: int, velocity: int, lower: int, upper: int) -> bool {
    (position - extent < lower && velocity < 0) || (position + extent > upper && velocity > 0)
}

/// A velocity component after the test against the two walls of its axis:
/// it changes sign where the disk reaches beyond a wall and still moves
/// further out, and stays as it is otherwise.
pub open spec fn reflected_component(
    position: int,
    extent: int,
    velocity: int,
    lower: int,
    upper: int,
) -> int {
    if leaves(position, extent, velocity, lower, upper) {
        -velocity
    } else {
        velocity
    }
}

/// The body `after` stands where the Euler step `position + velocity * dt`
/// takes the body `before`, to half a stored unit of position in each
/// component: less than a thousandth of a unit of length.
pub open spec fn euler_step(before: Ball, after: Ball, dt: int) -> bool {
    let whole = STEP_DIVISOR as int;
    &&& 2 * magnitude((after.position.x - before.position.x) * whole - before.velocity.x * dt)
        <= whole
    &&& 2 * magnitude((after.position.y - before.position.y) * whole - before.velocity.y * dt)
        <= whole
}

impl Ball {
    /// The radius is positive and bounded, position and velocity lie in
    /// their ranges.
    pub open spec fn wf(self) -> bool {
        &&& 1 <= self.radius <= RADIUS_LIMIT
        &&& self.position.is_position()
        &&& self.velocity.is_velocity()
    }

    /// The mass, proportional to the disk's area.
    pub open spec fn mass(self) -> int {
        self.radius * self.radius
    }

    /// The radius in stored units of position.
    pub open spec fn extent(self) -> int {
        self.radius * LENGTH_UNIT
    }

    /// The two disks overlap: their centers are closer than the sum of the
    /// radii. Disks that only touch do not overlap.
    pub open spec fn overlaps(self, other: Ball) -> bool {
        self.position@.minus(other.position@).norm_sq() < (self.extent() + other.extent()) * (
        self.extent() + other.extent())
    }

    /// The body after the wall reflection in the arena of `config`.
    pub open spec fn reflected(self, config: Config) -> Ball {
        Ball {
            velocity: Vec2 {
                x: reflected_component(
                    self.position.x as int,
                    self.extent(),
                    self.velocity.x as int,
                    config.margin as int,
                    config.right(),
                ) as i64,
                y: reflected_component(
                    self.position.y as int,
                    self.extent(),
                    self.velocity.y as int,
                    config.margin as int,
                    config.bottom(),
                ) as i64,
            },
            ..self
        }
    }

    /// The velocity with which the body leaves a collision with `other`,
    /// before it is confined to the range of stored velocities.
    pub open spec fn rebound(self, other: Ball) -> Vector {
        velocity_after_collision(
            self.velocity@,
            other.velocity@,
            self.mass(),
            other.mass(),
            self.position@,
            other.position@,
        )
    }

    /// The body after its encounter with `other`: unchanged where the disks
    /// do not overlap, with the rebound velocity where they do.
    pub open spec fn after_collision(self, other: Ball) -> Ball {
        if self.overlaps(other) {
            let v = self.rebound(other).clamped(VELOCITY_LIMIT as int);
            Ball { velocity: Vec2 { x: v.x as i64, y: v.y as i64 }, ..self }
        } else {
            self
        }
    }

    /// The body after `dt` nanoseconds of motion at its velocity.
    pub open spec fn advanced(self, dt: int) -> Ball {
        let p = self.position@.plus(displacement(self.velocity@, dt)).clamped(
            POSITION_LIMIT as int,
        );
        Ball { position: Vec2 { x: p.x as i64, y: p.y as i64 }, ..self }
    }

    /// The body could have been drawn for `config`: its radius and its
    /// velocity lie in the ranges, and the whole disk lies in the arena.
    pub open spec fn spawned_in(self, config: Config) -> bool {
        &&& config.radius_min <= self.radius <= config.radius_max
        &&& config.margin + self.extent() <= self.position.x <= config.right() - self.extent()
        &&& config.margin + self.extent() <= self.position.y <= config.bottom() - self.extent()
        &&& config.velocity_min <= self.velocity.x <= config.velocity_max
        &&& config.velocity_min <= self.velocity.y <= config.velocity_max
        &&& self.color.a == 255
    }

    /// A body of the given state.
    pub fn new(position: Vec2, velocity: Vec2, radius: i64, color: Color) -> (ball: Ball)
        ensures
            ball == (Ball { radius, position, velocity, color }),
    {
        Ball { radius, position, velocity, color }
    }

    /// A body whose position and velocity are given in whole units of length
    /// and of length per second.
    pub fn from_units(x: i64, y: i64, vx: i64, vy: i64, radius: i64, color: Color) -> (ball: Ball)
        requires
            -16384 <= x <= 16384,
            -16384 <= y <= 16384,
            -1024 <= vx <= 1024,
            -1024 <= vy <= 1024,
        ensures
            ball == (Ball {
                radius,
                position: Vec2 { x: (x * LENGTH_UNIT) as i64, y: (y * LENGTH_UNIT) as i64 },
                velocity: Vec2 { x: (vx * SPEED_UNIT) as i64, y: (vy * SPEED_UNIT) as i64 },
                color,
            }),
            1 <= radius <= RADIUS_LIMIT ==> ball.wf(),
    {
        Ball::new(Vec2::from_lengths(x, y), Vec2::from_speeds(vx, vy), radius, color)
    }

    /// The bounds between which the center of a disk of the given radius
    /// lies when the whole disk lies in the arena: lower and upper bound
    /// along x, then along y.
    pub fn position_bounds(config: &Config, radius: i64) -> (b: (i64, i64, i64, i64))
        requires
            config.wf(),
            config.radius_min <= radius <= config.radius_max,
        ensures
            b.0 == config.margin + radius * LENGTH_UNIT,
            b.1 == config.margin + config.width - radius * LENGTH_UNIT,
            b.2 == config.margin + radius * LENGTH_UNIT,
            b.3 == config.margin + config.height - radius * LENGTH_UNIT,
            -POSITION_LIMIT <= b.0 <= b.1 <= POSITION_LIMIT,
            -POSITION_LIMIT <= b.2 <= b.3 <= POSITION_LIMIT,
    {
        let extent = radius * LENGTH_UNIT;
        (
            config.margin + extent,
            config.margin + config.width - extent,
            config.margin + extent,
            config.margin + config.height - extent,
        )
    }

    /// The body that eight draws give: the radius, the two coordinates of
    /// the center, the two components of the velocity and the three
    /// channels of an opaque colour.
    pub fn from_draws(
        radius: i64,
        x: i64,
        y: i64,
        vx: i64,
        vy: i64,
        red: i64,
        green: i64,
        blue: i64,
    ) -> (ball: Ball)
        requires
            0 <= red <= 255,
            0 <= green <= 255,
            0 <= blue <= 255,
        ensures
            ball == (Ball {
                radius,
                position: Vec2 { x, y },
                velocity: Vec2 { x: vx, y: vy },
                color: Color { r: red as u8, g: green as u8, b: blue as u8, a: 255 },
            }),
    {
        let color = Color { r: red as u8, g: green as u8, b: blue as u8, a: 255 };
        Ball::new(Vec2::new(x, y), Vec2::new(vx, vy), radius, color)
    }

    /// A body drawn from `rng`, by eight draws in this order: the radius
    /// between the two radii of `config`; the two coordinates of the center
    /// between their `position_bounds`; the two components of the velocity
    /// between the two velocities of `config`; the three channels of the
    /// colour between 0 and 255. The body is what `from_draws` makes of them.
    pub fn random(rng: &RandGenerator, config: &Config) -> (ball: Ball)
        requires
            config.wf(),
        ensures
            ball.wf(),
            ball.spawned_in(*config),
    {
        let radius = draw_between(rng, config.radius_min, config.radius_max);
        let bounds = Ball::position_bounds(config, radius);
        let x = draw_between(rng, bounds.0, bounds.1);
        let y = draw_between(rng, bounds.2, bounds.3);
        let vx = draw_between(rng, config.velocity_min, config.velocity_max);
        let vy = draw_between(rng, config.velocity_min, config.velocity_max);
        let red = draw_between(rng, 0, 255);
        let green = draw_between(rng, 0, 255);
        let blue = draw_between(rng, 0, 255);
        Ball::from_draws(radius, x, y, vx, vy, red, green, blue)
    }

    /// Tells whether the body is well formed.
    pub fn is_valid(&self) -> (b: bool)
        ensures
            b == self.wf(),
    {
        1 <= self.radius && self.radius <= RADIUS_LIMIT && self.position.is_within(POSITION_LIMIT)
            && self.velocity.is_within(VELOCITY_LIMIT)
    }

    /// The mass of the body.
    pub fn mass_of(&self) -> (m: i64)
        requires
            self.wf(),
        ensures
            m == self.mass(),
            0 < m <= MASS_LIMIT,
    {
        proof {
            lemma_product_bound(
                self.radius as int,
                RADIUS_LIMIT as int,
                self.radius as int,
                RADIUS_LIMIT as int,
            );
            lemma_positive_product(self.radius as int, self.radius as int);
        }
        self.radius * self.radius
    }

    /// Narrow phase: tells whether the two disks overlap.
    pub fn collides_with(&self, b: &Ball) -> (hit: bool)
        requires
            self.wf(),
            b.wf(),
        ensures
            hit == self.overlaps(*b),
    {
        let reach: i128 = ((self.radius + b.radius) * LENGTH_UNIT) as i128;
        proof {
            lemma_product_bound(reach as int, 0x80000, reach as int, 0x80000);
        }
        self.position.distance_squared(b.position) < reach * reach
    }

    /// Resolves the encounter of two bodies. Disks that do not overlap are
    /// left as they are. Disks that overlap exchange momentum along their
    /// line of centers; both new velocities come from the velocities that
    /// the bodies had before. Bodies that meet at up to 64 units of length
    /// per second keep their momentum and their energy to a ten-thousandth
    /// of a unit.
    pub fn collide(&mut self, b: &mut Ball)
        requires
            old(self).wf(),
            old(b).wf(),
        ensures
            *final(self) == old(self).after_collision(*old(b)),
            *final(b) == old(b).after_collision(*old(self)),
            !old(self).overlaps(*old(b)) ==> *final(self) == *old(self) && *final(b) == *old(b),
            old(self).velocity@.within(FREE_SPEED_LIMIT as int) && old(b).velocity@.within(
                FREE_SPEED_LIMIT as int,
            ) ==> conserved(*old(self), *old(b), *final(self), *final(b)),
            final(self).wf(),
            final(b).wf(),
    {
        proof {
            lemma_overlap_symmetric(*self, *b);
            if self.velocity@.within(FREE_SPEED_LIMIT as int) && b.velocity@.within(
                FREE_SPEED_LIMIT as int,
            ) {
                lemma_free_collision(*self, *b);
            }
        }
        if !self.collides_with(b) {
            return ;
        }
        let m1 = self.mass_of();
        let m2 = b.mass_of();
        let v1 = self.velocity;
        let v2 = b.velocity;
        let p1 = self.position;
        let p2 = b.position;
        self.velocity = compute_velocity_after_collision(v1, v2, m1, m2, p1, p2);
        b.velocity = compute_velocity_after_collision(v2, v1, m2, m1, p2, p1);
    }

    /// Moves the body by `dt` nanoseconds of its velocity: the Euler step
    /// `position + velocity * dt`, each component rounded to the nearest
    /// stored unit of position and confined to the range of positions.
    pub fn update(&mut self, dt: u64)
        requires
            old(self).wf(),
        ensures
            *final(self) == old(self).advanced(dt as int),
            final(self).velocity == old(self).velocity,
            final(self).radius == old(self).radius,
            final(self).color == old(self).color,
            old(self).position@.plus(displacement(old(self).velocity@, dt as int)).within(
                POSITION_LIMIT as int,
            ) ==> euler_step(*old(self), *final(self), dt as int),
            final(self).wf(),
    {
        proof {
            if self.position@.plus(displacement(self.velocity@, dt as int)).within(
                POSITION_LIMIT as int,
            ) {
                lemma_advance_is_nearest(*self, dt as int);
            }
            lemma_product_bound(
                self.velocity.x as int,
                VELOCITY_LIMIT as int,
                dt as int,
                0x1_0000_0000_0000_0000,
            );
            lemma_product_bound(
                self.velocity.y as int,
                VELOCITY_LIMIT as int,
                dt as int,
                0x1_0000_0000_0000_0000,
            );
            assert(VELOCITY_LIMIT * 0x1_0000_0000_0000_0000
                == 0x4_0000_0000_0000_0000_0000_0000_0000) by (nonlinear_arith);
        }
        let nx: i128 = (self.velocity.x as i128) * (dt as i128);
        let ny: i128 = (self.velocity.y as i128) * (dt as i128);
        let sx = div_round(nx, STEP_DIVISOR as i128);
        let sy = div_round(ny, STEP_DIVISOR as i128);
        proof {
            lemma_round_div_bound(nx as int, STEP_DIVISOR as int);
            lemma_round_div_bound(ny as int, STEP_DIVISOR as int);
        }
        self.position = Vec2::saturated(
            self.position.x as i128 + sx,
            self.position.y as i128 + sy,
            POSITION_LIMIT,
        );
    }

    /// Wall reflection. On each axis, a disk that reaches beyond a wall of
    /// the arena and moves further out has that velocity component negated;
    /// one that already moves inward is left alone. The position stays.
    pub fn compute_collision(&mut self, config: &Config)
        requires
            old(self).wf(),
            config.wf(),
        ensures
            *final(self) == old(self).reflected(*config),
            final(self).wf(),
    {
        let right = config.margin + config.width;
        let bottom = config.margin + config.height;
        let extent = self.radius * LENGTH_UNIT;
        if (self.position.x - extent < config.margin && self.velocity.x < 0) || (self.position.x
            + extent > right && self.velocity.x > 0) {
            self.velocity = Mat2::flip_x().mul_vec2(self.velocity);
        }
        if (self.position.y - extent < config.margin && self.velocity.y < 0) || (self.position.y
            + extent > bottom && self.velocity.y > 0) {
            self.velocity = Mat2::flip_y().mul_vec2(self.velocity);
        }
    }
}

/// Overlap does not depend on which disk is asked.
pub proof fn lemma_overlap_symmetric(a: Ball, b: Ball)
    ensures
        a.overlaps(b) == b.overlaps(a),
{
    let dx = a.position.x - b.position.x;
    let dy = a.position.y - b.position.y;
    assert((-dx) * (-dx) == dx * dx) by (nonlinear_arith);
    assert((-dy) * (-dy) == dy * dy) by (nonlinear_arith);
    assert(b.position.x - a.position.x == -dx);
    assert(b.position.y - a.position.y == -dy);
    assert(a.extent() + b.extent() == b.extent() + a.extent());
}

/// Wall reflection settles at once. After it the body leaves through no
/// wall, so a second reflection finds nothing to do: a body that moves inward
/// is not turned again, and a body that moved outward was turned exactly
/// once, its speed kept. This holds on each axis unless the disk reaches
/// beyond both walls of that axis while it moves along it.
pub proof fn lemma_reflection_settles(ball: Ball, config: Config)
    requires
        ball.wf(),
        !(straddles(ball.position.x as int, ball.extent(), config.margin as int, config.right())
            && ball.velocity.x != 0),
        !(straddles(ball.position.y as int, ball.extent(), config.margin as int, config.bottom())
            && ball.velocity.y != 0),
    ensures
        ({
            let once = ball.reflected(config);
            &&& once.reflected(config) == once
            &&& !leaves(
                once.position.x as int,
                once.extent(),
                once.velocity.x as int,
                config.margin as int,
                config.right(),
            )
            &&& !leaves(
                once.position.y as int,
                once.extent(),
                once.velocity.y as int,
                config.margin as int,
                config.bottom(),
            )
            &&& once.velocity.x == ball.velocity.x || once.velocity.x == -ball.velocity.x
            &&& once.velocity.y == ball.velocity.y || once.velocity.y == -ball.velocity.y
            &&& once.position == ball.position
            &&& once.radius == ball.radius
        }),
{
}

/// A disk that fits into the arena never reaches beyond both walls of an
/// axis, so wall reflection settles at once for every body drawn for the
/// arena, wherever it has moved.
pub proof fn lemma_fitting_disk_settles(ball: Ball, config: Config)
    requires
        ball.wf(),
        config.wf(),
        ball.radius <= config.radius_max,
    ensures
        ball.reflected(config).reflected(config) == ball.reflected(config),
{
    assert(2 * ball.extent() <= 2 * config.radius_max * LENGTH_UNIT) by (nonlinear_arith)
        requires
            ball.extent() == ball.radius * LENGTH_UNIT,
            ball.radius <= config.radius_max,
            LENGTH_UNIT > 0,
    ;
    lemma_reflection_settles(ball, config);
}

/// A body that leaves through no wall is not reflected.
pub proof fn lemma_inward_untouched(ball: Ball, config: Config)
    requires
        ball.wf(),
        !leaves(
            ball.position.x as int,
            ball.extent(),
            ball.velocity.x as int,
            config.margin as int,
            config.right(),
        ),
        !leaves(
            ball.position.y as int,
            ball.extent(),
            ball.velocity.y as int,
            config.margin as int,
            config.bottom(),
        ),
    ensures
        ball.reflected(config) == ball,
{
}

/// The step of one tick is the vector of stored positions nearest to
/// velocity times time: each component lies at most half a stored unit, an
/// 8192th of a unit of length, from the exact one. A component is zero
/// exactly where the exact one is below half a stored unit.
pub proof fn lemma_step_is_nearest(velocity: Vector, dt: int)
    ensures
        ({
            let step = displacement(velocity, dt);
            let whole = STEP_DIVISOR as int;
            &&& 2 * magnitude(step.x * whole - velocity.x * dt) <= whole
            &&& 2 * magnitude(step.y * whole - velocity.y * dt) <= whole
            &&& step.x == 0 <==> 2 * magnitude(velocity.x * dt) < whole
            &&& step.y == 0 <==> 2 * magnitude(velocity.y * dt) < whole
        }),
{
    let whole = STEP_DIVISOR as int;
    lemma_round_div_error(velocity.x * dt, whole);
    lemma_round_div_error(velocity.y * dt, whole);
    lemma_round_div_zero(velocity.x * dt, whole);
    lemma_round_div_zero(velocity.y * dt, whole);
}

/// Motion over one step is the Euler step `position + velocity * dt`, to
/// half a stored unit of position in each component, which is less than a
/// thousandth of a unit of length; nothing else changes. This holds where
/// the new position stays in the range of positions.
pub proof fn lemma_advance_is_nearest(ball: Ball, dt: int)
    requires
        ball.wf(),
        ball.position@.plus(displacement(ball.velocity@, dt)).within(POSITION_LIMIT as int),
    ensures
        ({
            let after = ball.advanced(dt);
            let whole = STEP_DIVISOR as int;
            &&& after.position@ == ball.position@.plus(displacement(ball.velocity@, dt))
            &&& euler_step(ball, after, dt)
            &&& 1000 < 2 * LENGTH_UNIT
            &&& after.velocity == ball.velocity
            &&& after.radius == ball.radius
            &&& after.color == ball.color
        }),
{
    lemma_step_is_nearest(ball.velocity@, dt);
}

} // verus!
