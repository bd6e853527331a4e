use collider::ball::{Ball, Color};
use collider::config::Config;
use collider::resolver::compute_velocity_after_collision;
use collider::units::{
    FREE_SPEED_LIMIT, LENGTH_UNIT, POSITION_LIMIT, RADIUS_LIMIT, SPEED_UNIT, VELOCITY_LIMIT,
};
use collider::vector::Vec2;

const WHITE: Color = Color { r: 255, g: 255, b: 255, a: 255 };

const MARGIN: i64 = 50;

const FRAME: u64 = 16_666_667;

fn arena() -> Config {
    Config {
        margin: MARGIN * LENGTH_UNIT,
        width: 1800 * LENGTH_UNIT,
        height: 950 * LENGTH_UNIT,
        radius_min: 6,
        radius_max: 12,
        velocity_min: -20 * SPEED_UNIT,
        velocity_max: 20 * SPEED_UNIT,
        frame_time: FRAME,
        ball_count: 10,
        placement_attempts: 100,
    }
}

/// A body given in whole units of length and of velocity.
fn ball(x: i64, y: i64, vx: i64, vy: i64, radius: i64) -> Ball {
    Ball::from_units(x, y, vx, vy, radius, WHITE)
}

fn speeds(vx: i64, vy: i64) -> Vec2 {
    Vec2::from_speeds(vx, vy)
}

fn momentum(a: &Ball, b: &Ball) -> (i128, i128) {
    let ma = (a.radius * a.radius) as i128;
    let mb = (b.radius * b.radius) as i128;
    (
        ma * a.velocity.x as i128 + mb * b.velocity.x as i128,
        ma * a.velocity.y as i128 + mb * b.velocity.y as i128,
    )
}

fn energy(a: &Ball, b: &Ball) -> i128 {
    let ma = (a.radius * a.radius) as i128;
    let mb = (b.radius * b.radius) as i128;
    ma * a.velocity.length_squared() + mb * b.velocity.length_squared()
}

/// Momentum and energy of the pair are kept within a ten-thousandth of a unit.
fn assert_conserved(a0: &Ball, b0: &Ball, a1: &Ball, b1: &Ball) {
    let unit = SPEED_UNIT as i128;
    let (p0, p1) = (momentum(a0, b0), momentum(a1, b1));
    assert!(10_000 * (p1.0 - p0.0).abs() <= unit);
    assert!(10_000 * (p1.1 - p0.1).abs() <= unit);
    let (e0, e1) = (energy(a0, b0), energy(a1, b1));
    assert!(10_000 * (e1 - e0).abs() <= unit * unit);
    if e1 >= unit * unit {
        assert!(10_000 * (e1 - e0).abs() <= e1);
    }
}

#[test]
fn equal_masses_head_on_swap_velocities() {
    let mut a = ball(100, 100, 5, 0, 10);
    let mut b = ball(119, 100, -5, 0, 10);
    assert!(a.collides_with(&b));
    a.collide(&mut b);
    assert_eq!(a.velocity, speeds(-5, 0));
    assert_eq!(b.velocity, speeds(5, 0));
    assert_eq!(a.position, Vec2::from_lengths(100, 100));
    assert_eq!(b.position, Vec2::from_lengths(119, 100));
    assert_eq!(a.radius, 10);
    assert_eq!(b.radius, 10);
}

#[test]
fn oblique_collision_of_equal_masses() {
    let mut a = ball(100, 100, 5, 0, 10);
    let mut b = ball(110, 110, 0, 0, 10);
    a.collide(&mut b);
    // 2.5 units of velocity each way
    assert_eq!(a.velocity, Vec2::new(5 * SPEED_UNIT / 2, -5 * SPEED_UNIT / 2));
    assert_eq!(b.velocity, Vec2::new(5 * SPEED_UNIT / 2, 5 * SPEED_UNIT / 2));
    let unit = SPEED_UNIT as i128;
    assert_eq!(energy(&a, &b), 2500 * unit * unit);
}

#[test]
fn wall_reflection_flips_outward_component() {
    let mut a = ball(MARGIN + 5, 300, -3, 0, 10);
    a.compute_collision(&arena());
    assert_eq!(a.velocity, speeds(3, 0));
    assert_eq!(a.position, Vec2::from_lengths(MARGIN + 5, 300));
}

#[test]
fn wall_reflection_on_each_wall() {
    let c = arena();
    let mut left = ball(MARGIN + 5, 300, -3, 4, 10);
    left.compute_collision(&c);
    assert_eq!(left.velocity, speeds(3, 4));
    let mut right = ball(MARGIN + 1800 - 5, 300, 3, 4, 10);
    right.compute_collision(&c);
    assert_eq!(right.velocity, speeds(-3, 4));
    let mut top = ball(300, MARGIN + 5, 3, -4, 10);
    top.compute_collision(&c);
    assert_eq!(top.velocity, speeds(3, 4));
    let mut bottom = ball(300, MARGIN + 950 - 5, 3, 4, 10);
    bottom.compute_collision(&c);
    assert_eq!(bottom.velocity, speeds(3, -4));
    let mut corner = ball(MARGIN, MARGIN, -3, -4, 10);
    corner.compute_collision(&c);
    assert_eq!(corner.velocity, speeds(3, 4));
}

#[test]
fn wall_reflection_leaves_inward_motion_alone() {
    let c = arena();
    let mut a = ball(MARGIN + 5, 300, 3, 0, 10);
    a.compute_collision(&c);
    assert_eq!(a.velocity, speeds(3, 0));
    let mut still = ball(MARGIN - 40, 300, 0, 0, 10);
    still.compute_collision(&c);
    assert_eq!(still.velocity, speeds(0, 0));
    let mut inside = ball(500, 500, -7, 9, 10);
    inside.compute_collision(&c);
    assert_eq!(inside.velocity, speeds(-7, 9));
}

#[test]
fn wall_reflection_is_not_repeated() {
    let c = arena();
    let mut a = ball(MARGIN + 5, MARGIN + 950 - 2, -3, 8, 10);
    a.compute_collision(&c);
    let once = a;
    a.compute_collision(&c);
    assert_eq!(a, once);
    assert_eq!(a.velocity, speeds(3, -8));
}

#[test]
fn touching_wall_exactly_is_not_crossing() {
    let c = arena();
    let mut a = ball(MARGIN + 10, 300, -3, 0, 10);
    a.compute_collision(&c);
    assert_eq!(a.velocity, speeds(-3, 0));
    a.position.x -= 1;
    a.compute_collision(&c);
    assert_eq!(a.velocity, speeds(3, 0));
    let mut b = ball(MARGIN + 1800 - 10, 300, 3, 0, 10);
    b.compute_collision(&c);
    assert_eq!(b.velocity, speeds(3, 0));
}

#[test]
fn tangent_disks_do_not_collide() {
    let a = ball(100, 100, 5, 0, 10);
    let mut b = ball(120, 100, -5, 0, 10);
    assert!(!a.collides_with(&b));
    b.position.x -= 1;
    assert!(a.collides_with(&b));
    let c = ball(100, 100, 0, 0, 5);
    let d = ball(103, 104, 0, 0, 1);
    assert!(c.collides_with(&d));
    let e = ball(106, 108, 0, 0, 5);
    assert!(!c.collides_with(&e));
    assert!(!e.collides_with(&c));
}

#[test]
fn collide_is_noop_without_overlap() {
    let mut a = ball(100, 100, 5, 1, 10);
    let mut b = ball(120, 100, -5, 2, 10);
    let (a0, b0) = (a, b);
    a.collide(&mut b);
    assert_eq!(a, a0);
    assert_eq!(b, b0);
    let mut far = ball(900, 900, -5, 2, 12);
    a.collide(&mut far);
    assert_eq!(a, a0);
    assert_eq!(far, ball(900, 900, -5, 2, 12));
}

#[test]
fn collide_is_symmetric_in_its_bodies() {
    let mut a = ball(0, 0, 101, 0, 7);
    let mut b = ball(3, 4, 0, 0, 9);
    let mut a2 = a;
    let mut b2 = b;
    a.collide(&mut b);
    b2.collide(&mut a2);
    assert_eq!(a, a2);
    assert_eq!(b, b2);
}

#[test]
fn unequal_masses_exact_quotients() {
    let mut a = ball(0, 0, 300, 100, 6);
    let mut b = ball(10, 10, -200, 50, 12);
    let p0 = momentum(&a, &b);
    let e0 = energy(&a, &b);
    a.collide(&mut b);
    assert_eq!(a.velocity, speeds(-140, -340));
    assert_eq!(b.velocity, speeds(-90, 160));
    assert_eq!(momentum(&a, &b), p0);
    assert_eq!(energy(&a, &b), e0);
}

#[test]
fn unequal_masses_rounded_quotients() {
    let mut a = ball(0, 0, 101, 0, 7);
    let mut b = ball(3, 4, 0, 0, 9);
    let (a0, b0) = (a, b);
    a.collide(&mut b);
    assert_eq!(a.velocity, Vec2::new(61_231_633_395_210, -66_425_388_013_554));
    assert_eq!(b.velocity, Vec2::new(30_137_444_561_705, 40_183_259_415_607));
    let p0 = momentum(&a0, &b0);
    let p1 = momentum(&a, &b);
    let total_mass: i128 = 49 + 81;
    assert!(2 * (p1.0 - p0.0).abs() <= total_mass);
    assert!(2 * (p1.1 - p0.1).abs() <= total_mass);
    assert_conserved(&a0, &b0, &a, &b);
}

#[test]
fn slow_pairs_keep_momentum_and_energy() {
    // Radii 10 and 6; velocities of a tenth to half a unit of length per
    // second, given in 1024ths of a unit.
    let per_1024 = SPEED_UNIT / 1024;
    let mut a = Ball::new(
        Vec2::new(154_382 * 4, 154_073 * 4),
        Vec2::new(-126 * per_1024, 415 * per_1024),
        10,
        WHITE,
    );
    let mut b = Ball::new(
        Vec2::new(142_869 * 4, 146_546 * 4),
        Vec2::new(301 * per_1024, -236 * per_1024),
        6,
        WHITE,
    );
    let (a0, b0) = (a, b);
    assert!(a.collides_with(&b));
    a.collide(&mut b);
    assert_ne!(a.velocity, a0.velocity);
    assert_conserved(&a0, &b0, &a, &b);
    // within one part in ten thousand of the momenta carried
    let carried = 100 * (a0.velocity.x.abs() as i128) + 36 * (b0.velocity.x.abs() as i128);
    let moved = (momentum(&a, &b).0 - momentum(&a0, &b0).0).abs();
    assert!(10_000 * moved <= carried);
    let mut c = Ball::new(
        Vec2::new(194_934 * 4, 125_202 * 4),
        Vec2::new(-800 * per_1024, -1287 * per_1024),
        7,
        WHITE,
    );
    let mut d = Ball::new(
        Vec2::new(187_027 * 4, 120_873 * 4),
        Vec2::new(-352 * per_1024, -618 * per_1024),
        8,
        WHITE,
    );
    let (c0, d0) = (c, d);
    assert!(c.collides_with(&d));
    c.collide(&mut d);
    assert_conserved(&c0, &d0, &c, &d);
    let e0 = energy(&c0, &d0);
    assert!(10_000 * (energy(&c, &d) - e0).abs() <= e0);
}

#[test]
fn momentum_and_energy_over_many_pairs() {
    let mut seed: u64 = 0x2545_F491_4F6C_DD1D;
    let mut next = |span: i64| -> i64 {
        seed ^= seed << 13;
        seed ^= seed >> 7;
        seed ^= seed << 17;
        (seed % (2 * span as u64 + 1)) as i64 - span
    };
    let mut collisions = 0;
    for round in 0..4000 {
        let ra = 6 + next(3).abs();
        let rb = 6 + next(3).abs();
        // speeds from ten-thousandths of a unit up to the free speed limit
        let span = match round % 4 {
            0 => SPEED_UNIT / 10_000,
            1 => SPEED_UNIT,
            2 => 20 * SPEED_UNIT,
            _ => FREE_SPEED_LIMIT,
        };
        let mut a = Ball::new(
            Vec2::new(500 * LENGTH_UNIT + next(8 * LENGTH_UNIT), 500 * LENGTH_UNIT + next(8 * LENGTH_UNIT)),
            Vec2::new(next(span), next(span)),
            ra,
            WHITE,
        );
        let mut b = Ball::new(
            Vec2::new(500 * LENGTH_UNIT + next(8 * LENGTH_UNIT), 500 * LENGTH_UNIT + next(8 * LENGTH_UNIT)),
            Vec2::new(next(span), next(span)),
            rb,
            WHITE,
        );
        let hit = a.collides_with(&b);
        let (a0, b0) = (a, b);
        a.collide(&mut b);
        if !hit || a0.position == b0.position {
            assert_eq!(a, a0);
            assert_eq!(b, b0);
            continue;
        }
        collisions += 1;
        assert!(a.velocity.is_within(VELOCITY_LIMIT - 1));
        assert!(b.velocity.is_within(VELOCITY_LIMIT - 1));
        assert_conserved(&a0, &b0, &a, &b);
        if ra == rb {
            assert_eq!(momentum(&a, &b), momentum(&a0, &b0));
        }
        assert_eq!(a.position, a0.position);
        assert_eq!(b.position, b0.position);
        // the velocity across the line of centers stays, to a stored unit
        // for each unit of distance
        let d = a0.position.minus(b0.position);
        let across = Vec2::new(-d.y, d.x);
        let shift = (a.velocity.dot(across) - a0.velocity.dot(across)).abs();
        assert!(2 * shift <= (d.x.abs() + d.y.abs()) as i128);
        // the relative velocity along the line of centers is turned round
        let before = a0.velocity.minus(b0.velocity).dot(d);
        let after = a.velocity.minus(b.velocity).dot(d);
        assert!((after + before).abs() <= (d.x.abs() + d.y.abs()) as i128);
    }
    assert!(collisions > 1000);
}

#[test]
fn resolver_formula_values() {
    let at = |x: i64, y: i64| Vec2::from_lengths(x, y);
    let v = compute_velocity_after_collision(speeds(300, 100), speeds(-200, 50), 36, 144, at(0, 0), at(10, 10));
    assert_eq!(v, speeds(-140, -340));
    let w = compute_velocity_after_collision(speeds(-200, 50), speeds(300, 100), 144, 36, at(10, 10), at(0, 0));
    assert_eq!(w, speeds(-90, 160));
    let r = compute_velocity_after_collision(speeds(101, 0), speeds(0, 0), 49, 81, at(0, 0), at(3, 4));
    assert_eq!(r, Vec2::new(61_231_633_395_210, -66_425_388_013_554));
}

#[test]
fn resolver_keeps_tangential_velocity() {
    let v = compute_velocity_after_collision(
        speeds(0, 7),
        speeds(0, -3),
        100,
        100,
        Vec2::from_lengths(0, 0),
        Vec2::from_lengths(15, 0),
    );
    assert_eq!(v, speeds(0, 7));
}

#[test]
fn resolver_with_coincident_positions_keeps_velocity() {
    let v = compute_velocity_after_collision(
        speeds(13, -7),
        speeds(-4, 9),
        36,
        144,
        Vec2::from_lengths(200, 300),
        Vec2::from_lengths(200, 300),
    );
    assert_eq!(v, speeds(13, -7));
    let mut a = ball(200, 300, 13, -7, 6);
    let mut b = ball(200, 300, -4, 9, 12);
    assert!(a.collides_with(&b));
    a.collide(&mut b);
    assert_eq!(a.velocity, speeds(13, -7));
    assert_eq!(b.velocity, speeds(-4, 9));
}

#[test]
fn resolver_saturates_at_the_velocity_limit() {
    let v = compute_velocity_after_collision(
        Vec2::new(-VELOCITY_LIMIT, 0),
        Vec2::new(VELOCITY_LIMIT, 0),
        1,
        RADIUS_LIMIT * RADIUS_LIMIT,
        Vec2::new(1, 0),
        Vec2::new(0, 0),
    );
    assert_eq!(v, Vec2::new(VELOCITY_LIMIT, 0));
}

#[test]
fn update_is_the_euler_step() {
    // (500, 500) at (6, -12) for a sixtieth of a second: (500.1, 499.8)
    let mut a = ball(500, 500, 6, -12, 10);
    a.update(FRAME);
    assert_eq!(a.position, Vec2::new(2_048_410, 2_047_181));
    assert_eq!(a.velocity, speeds(6, -12));
    assert!((10 * a.position.x - 5001 * LENGTH_UNIT).abs() <= 5);
    assert!((10 * a.position.y - 4998 * LENGTH_UNIT).abs() <= 5);
    let mut b = ball(100, 200, 60, -120, 10);
    b.update(FRAME);
    assert_eq!(b.position, Vec2::new(101 * LENGTH_UNIT, 198 * LENGTH_UNIT));
    let mut d = ball(7, 8, 5, -5, 10);
    d.update(1_000_000_000);
    assert_eq!(d.position, Vec2::from_lengths(12, 3));
    d.update(0);
    assert_eq!(d.position, Vec2::from_lengths(12, 3));
}

#[test]
fn update_is_nearest_to_velocity_times_time() {
    let whole = collider::units::STEP_DIVISOR as i128;
    let slow = SPEED_UNIT / LENGTH_UNIT;
    for v in [-20 * SPEED_UNIT, -SPEED_UNIT / 3, -31 * slow, -29 * slow, -1, 0, 1, 29 * slow, 30 * slow, 777 * slow, 6 * SPEED_UNIT, VELOCITY_LIMIT] {
        for dt in [0u64, 1, FRAME, 2 * FRAME, 1_000_000_000, 3_999_999_999] {
            let mut b = Ball::new(Vec2::new(0, 0), Vec2::new(v, 0), 10, WHITE);
            b.update(dt);
            let exact = v as i128 * dt as i128;
            assert!(2 * (b.position.x as i128 * whole - exact).abs() <= whole);
            assert_eq!(b.position.x == 0, 2 * exact.abs() < whole);
            assert_eq!(b.position.y, 0);
        }
    }
}

#[test]
fn update_saturates_at_the_position_limit() {
    let mut a = Ball::new(
        Vec2::new(POSITION_LIMIT - 1, -POSITION_LIMIT + 1),
        Vec2::new(VELOCITY_LIMIT, -VELOCITY_LIMIT),
        10,
        WHITE,
    );
    a.update(u64::MAX);
    assert_eq!(a.position, Vec2::new(POSITION_LIMIT, -POSITION_LIMIT));
    assert!(a.is_valid());
}

#[test]
fn body_from_whole_units() {
    assert_eq!(
        Ball::from_units(500, -3, 6, -12, 10, WHITE),
        Ball::new(
            Vec2::new(500 * LENGTH_UNIT, -3 * LENGTH_UNIT),
            Vec2::new(6 * SPEED_UNIT, -12 * SPEED_UNIT),
            10,
            WHITE
        )
    );
}

#[test]
fn ball_validity() {
    assert!(ball(0, 0, 0, 0, 1).is_valid());
    assert!(ball(16_384, -16_384, 1024, -1024, RADIUS_LIMIT).is_valid());
    assert!(!ball(0, 0, 0, 0, 0).is_valid());
    assert!(!ball(0, 0, 0, 0, RADIUS_LIMIT + 1).is_valid());
    let mut b = ball(16_384, 0, 0, 0, 5);
    b.position.x += 1;
    assert!(!b.is_valid());
    let mut c = ball(0, 0, 0, -1024, 5);
    c.velocity.y -= 1;
    assert!(!c.is_valid());
    assert_eq!(ball(0, 0, 0, 0, 12).mass_of(), 144);
}

#[test]
fn position_bounds_keep_the_disk_in_the_arena() {
    let c = arena();
    assert_eq!(
        Ball::position_bounds(&c, 10),
        (
            60 * LENGTH_UNIT,
            1840 * LENGTH_UNIT,
            60 * LENGTH_UNIT,
            990 * LENGTH_UNIT
        )
    );
    let mut tight = c;
    tight.width = 24 * LENGTH_UNIT;
    assert_eq!(Ball::position_bounds(&tight, 12).0, Ball::position_bounds(&tight, 12).1);
}

#[test]
fn from_draws_builds_the_body() {
    let b = Ball::from_draws(7, 11, -12, 13, -14, 0, 128, 255);
    assert_eq!(
        b,
        Ball::new(
            Vec2::new(11, -12),
            Vec2::new(13, -14),
            7,
            Color { r: 0, g: 128, b: 255, a: 255 }
        )
    );
}

#[test]
fn config_validity() {
    assert!(arena().is_valid());
    let mut c = arena();
    c.width = 24 * LENGTH_UNIT - 1;
    assert!(!c.is_valid());
    let mut c = arena();
    c.radius_min = 0;
    assert!(!c.is_valid());
    let mut c = arena();
    c.radius_min = 13;
    assert!(!c.is_valid());
    let mut c = arena();
    c.radius_max = RADIUS_LIMIT + 1;
    assert!(!c.is_valid());
    let mut c = arena();
    c.velocity_min = 21 * SPEED_UNIT;
    assert!(!c.is_valid());
    let mut c = arena();
    c.velocity_max = VELOCITY_LIMIT + 1;
    assert!(!c.is_valid());
    let mut c = arena();
    c.frame_time = 0;
    assert!(!c.is_valid());
    let mut c = arena();
    c.margin = POSITION_LIMIT;
    assert!(!c.is_valid());
    let mut c = arena();
    c.height = i64::MAX;
    assert!(!c.is_valid());
}
