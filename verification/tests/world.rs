use collider::ball::{Ball, Color};
use collider::clock::Accumulator;
use collider::config::Config;
use collider::units::{LENGTH_UNIT, SPEED_UNIT, STEP_DIVISOR};
use collider::vector::Vec2;
use collider::world::{PlacementError, World};
use macroquad::rand::RandGenerator;

const BLUE: Color = Color { r: 0, g: 0, b: 255, a: 255 };

const FRAME: u64 = 16_666_667;

fn arena() -> Config {
    Config {
        margin: 50 * LENGTH_UNIT,
        width: 1800 * LENGTH_UNIT,
        height: 950 * LENGTH_UNIT,
        radius_min: 6,
        radius_max: 12,
        velocity_min: -20 * SPEED_UNIT,
        velocity_max: 20 * SPEED_UNIT,
        frame_time: FRAME,
        ball_count: 100,
        placement_attempts: 1000,
    }
}

/// A body given in whole units of length and of velocity.
fn ball(x: i64, y: i64, vx: i64, vy: i64, radius: i64) -> Ball {
    Ball::new(Vec2::from_lengths(x, y), Vec2::from_speeds(vx, vy), radius, BLUE)
}

fn step(velocity: i64, dt: u64) -> i64 {
    collider::arith::div_round(velocity as i128 * dt as i128, STEP_DIVISOR as i128) as i64
}

#[test]
fn tick_of_an_empty_world() {
    let mut world = World::new(arena());
    assert_eq!(world.len(), 0);
    world.tick();
    world.tick();
    assert_eq!(world.len(), 0);
    assert_eq!(world.config, arena());
}

#[test]
fn tick_of_a_single_body() {
    let mut world = World::new(arena());
    world.add_ball(ball(500, 500, 120, -60, 10));
    world.tick();
    assert_eq!(world.len(), 1);
    assert_eq!(world.balls[0], ball(502, 499, 120, -60, 10));
}

#[test]
fn tick_reflects_before_it_moves() {
    let mut world = World::new(arena());
    world.add_ball(ball(55, 500, -120, 0, 10));
    world.tick();
    assert_eq!(world.balls[0], ball(57, 500, 120, 0, 10));
    world.tick();
    assert_eq!(world.balls[0], ball(59, 500, 120, 0, 10));
}

#[test]
fn tick_resolves_a_collision_then_moves() {
    let mut world = World::new(arena());
    world.add_ball(ball(119, 100, -300, 0, 10));
    world.add_ball(ball(100, 100, 300, 0, 10));
    world.add_ball(ball(900, 900, 60, 60, 12));
    world.tick();
    assert_eq!(world.balls[0], ball(124, 100, 300, 0, 10));
    assert_eq!(world.balls[1], ball(95, 100, -300, 0, 10));
    assert_eq!(world.balls[2], ball(901, 901, 60, 60, 12));
}

#[test]
fn tick_resolves_pairs_in_sweep_order() {
    // Three disks in a row, stored right to left: the sweep meets the two on
    // the left first, so the one in the middle carries its new velocity into
    // the encounter with the one on the right.
    let mut world = World::new(arena());
    world.add_ball(ball(236, 500, 0, 0, 10));
    world.add_ball(ball(218, 500, 0, 0, 10));
    world.add_ball(ball(200, 500, 600, 0, 10));
    world.tick();
    assert_eq!(world.balls[2].velocity, Vec2::from_speeds(0, 0));
    assert_eq!(world.balls[1].velocity, Vec2::from_speeds(0, 0));
    assert_eq!(world.balls[0].velocity, Vec2::from_speeds(600, 0));
    assert_eq!(world.balls[0].position, Vec2::from_lengths(246, 500));
}

#[test]
fn tick_keeps_radius_and_colour() {
    let mut world = World::new(arena());
    let green = Color { r: 0, g: 200, b: 0, a: 255 };
    world.add_ball(Ball::new(Vec2::from_lengths(100, 100), Vec2::from_speeds(300, 0), 7, green));
    world.add_ball(ball(110, 100, -300, 0, 9));
    for _ in 0..10 {
        world.tick();
    }
    assert_eq!(world.balls[0].radius, 7);
    assert_eq!(world.balls[0].color, green);
    assert_eq!(world.balls[1].radius, 9);
    assert_eq!(world.balls[1].color, BLUE);
}

#[test]
fn resolve_collisions_takes_pairs_in_turn() {
    let mut world = World::new(arena());
    world.add_ball(ball(200, 500, 600, 0, 10));
    world.add_ball(ball(218, 500, 0, 0, 10));
    world.add_ball(ball(236, 500, 0, 0, 10));
    world.resolve_collisions(&vec![(1, 2), (0, 1), (0, 2)]);
    assert_eq!(world.balls[0].velocity, Vec2::from_speeds(0, 0));
    assert_eq!(world.balls[1].velocity, Vec2::from_speeds(600, 0));
    assert_eq!(world.balls[2].velocity, Vec2::from_speeds(0, 0));
    world.resolve_collisions(&Vec::new());
    assert_eq!(world.balls[1].velocity, Vec2::from_speeds(600, 0));
}

#[test]
fn phases_of_a_tick_one_by_one() {
    let mut world = World::new(arena());
    world.add_ball(ball(55, 500, -120, 60, 10));
    world.add_ball(ball(1845, 995, 120, 60, 10));
    world.reflect_walls();
    assert_eq!(world.balls[0], ball(55, 500, 120, 60, 10));
    assert_eq!(world.balls[1], ball(1845, 995, -120, -60, 10));
    world.integrate();
    assert_eq!(world.balls[0], ball(57, 501, 120, 60, 10));
    assert_eq!(world.balls[1], ball(1843, 994, -120, -60, 10));
}

#[test]
fn place_rejects_an_overlapping_body() {
    let mut world = World::new(arena());
    assert!(world.place(ball(100, 100, 0, 0, 10)));
    assert!(!world.place(ball(110, 110, 0, 0, 10)));
    assert_eq!(world.len(), 1);
    assert!(world.place(ball(120, 100, 0, 0, 10)));
    assert_eq!(world.len(), 2);
    assert_eq!(world.balls[1], ball(120, 100, 0, 0, 10));
}

#[test]
fn random_ball_lies_in_the_arena() {
    let rng = RandGenerator::new();
    rng.srand(42);
    let c = arena();
    for _ in 0..500 {
        let b = Ball::random(&rng, &c);
        assert!(b.is_valid());
        assert!(c.radius_min <= b.radius && b.radius <= c.radius_max);
        let extent = b.radius * LENGTH_UNIT;
        assert!(c.margin + extent <= b.position.x);
        assert!(b.position.x <= c.margin + c.width - extent);
        assert!(c.margin + extent <= b.position.y);
        assert!(b.position.y <= c.margin + c.height - extent);
        assert!(c.velocity_min <= b.velocity.x && b.velocity.x <= c.velocity_max);
        assert!(c.velocity_min <= b.velocity.y && b.velocity.y <= c.velocity_max);
        assert_eq!(b.color.a, 255);
    }
}

#[test]
fn random_balls_differ() {
    let rng = RandGenerator::new();
    rng.srand(7);
    let c = arena();
    let balls: Vec<Ball> = (0..200).map(|_| Ball::random(&rng, &c)).collect();
    assert!(balls.iter().any(|b| b.radius != c.radius_min));
    assert!(balls.iter().any(|b| b.position.x != c.margin + b.radius * LENGTH_UNIT));
    assert!(balls.iter().any(|b| b.position.y != c.margin + b.radius * LENGTH_UNIT));
    assert!(balls.iter().any(|b| b.velocity.x != c.velocity_min));
    assert!(balls.iter().any(|b| b.velocity.y != c.velocity_min));
    assert!(balls.iter().any(|b| b.color.r != 0));
    assert!(balls.iter().any(|b| b.position != balls[0].position));
}

#[test]
fn populate_places_separate_bodies() {
    let rng = RandGenerator::new();
    rng.srand(1);
    let mut world = World::new(arena());
    assert_eq!(world.populate(&rng), Ok(()));
    assert_eq!(world.len(), 100);
    for i in 0..world.len() {
        for j in (i + 1)..world.len() {
            assert!(!world.balls[i].collides_with(&world.balls[j]));
        }
    }
    let before = world.balls.clone();
    for _ in 0..50 {
        world.tick();
    }
    assert_eq!(world.len(), 100);
    assert!(world.balls.iter().all(|b| b.is_valid()));
    let moved = before
        .iter()
        .zip(world.balls.iter())
        .filter(|(old, new)| old.position != new.position)
        .count();
    assert!(moved >= 95);
}

#[test]
fn populate_keeps_the_bodies_already_there() {
    let rng = RandGenerator::new();
    let mut world = World::new(arena());
    world.add_ball(ball(500, 500, 1, 2, 12));
    assert_eq!(world.populate(&rng), Ok(()));
    assert_eq!(world.len(), 101);
    assert_eq!(world.balls[0], ball(500, 500, 1, 2, 12));
    for j in 1..world.len() {
        assert!(!world.balls[0].collides_with(&world.balls[j]));
    }
}

#[test]
fn populate_fails_when_the_arena_is_too_small() {
    let rng = RandGenerator::new();
    let mut c = arena();
    c.width = 30 * LENGTH_UNIT;
    c.height = 30 * LENGTH_UNIT;
    c.ball_count = 50;
    c.placement_attempts = 20;
    assert!(c.is_valid());
    let mut world = World::new(c);
    assert_eq!(world.populate(&rng), Err(PlacementError::ArenaTooSmall));
    assert!(world.len() < 50);
    for i in 0..world.len() {
        for j in (i + 1)..world.len() {
            assert!(!world.balls[i].collides_with(&world.balls[j]));
        }
    }
    assert_eq!(
        PlacementError::ArenaTooSmall.message(),
        "arena too small for body count"
    );
}

#[test]
fn populate_without_attempts_or_bodies() {
    let rng = RandGenerator::new();
    let mut c = arena();
    c.placement_attempts = 0;
    let mut world = World::new(c);
    assert_eq!(world.populate(&rng), Err(PlacementError::ArenaTooSmall));
    assert_eq!(world.len(), 0);
    c.ball_count = 0;
    let mut empty = World::new(c);
    assert_eq!(empty.populate(&rng), Ok(()));
    assert_eq!(empty.len(), 0);
}

#[test]
fn accumulator_spends_whole_steps() {
    let mut acc = Accumulator::new();
    assert_eq!(acc.pending, 0);
    assert!(!acc.take_tick(FRAME));
    acc.accumulate(40_000_000);
    assert!(acc.take_tick(FRAME));
    assert!(acc.take_tick(FRAME));
    assert!(!acc.take_tick(FRAME));
    assert_eq!(acc.pending, 40_000_000 - 2 * FRAME);
    acc.accumulate(FRAME);
    assert!(acc.take_tick(FRAME));
    assert_eq!(acc.pending, 40_000_000 - 2 * FRAME);
}

#[test]
fn accumulator_drains_all_due_ticks() {
    let mut acc = Accumulator::new();
    acc.accumulate(100_000_000);
    assert_eq!(acc.drain(FRAME), 5);
    assert_eq!(acc.pending, 100_000_000 - 5 * FRAME);
    assert_eq!(acc.drain(FRAME), 0);
    acc.accumulate(FRAME - acc.pending);
    assert_eq!(acc.drain(FRAME), 1);
    assert_eq!(acc.pending, 0);
}

#[test]
fn accumulator_stops_at_its_largest_value() {
    let mut acc = Accumulator::new();
    acc.accumulate(u64::MAX - 1);
    acc.accumulate(5);
    assert_eq!(acc.pending, u64::MAX);
    assert!(acc.take_tick(u64::MAX));
    assert_eq!(acc.pending, 0);
}

#[test]
fn tick_of_a_single_body_is_the_euler_step() {
    // (500, 500) at (6, -12): (500.1, 499.8) after a sixtieth of a second
    let mut world = World::new(arena());
    world.add_ball(ball(500, 500, 6, -12, 10));
    world.tick();
    let b = world.balls[0];
    assert_eq!(world.len(), 1);
    assert_eq!(b.position, Vec2::new(2_048_410, 2_047_181));
    assert_eq!(b.velocity, Vec2::from_speeds(6, -12));
    assert!((10 * b.position.x - 5001 * LENGTH_UNIT).abs() <= 5);
    assert!((10 * b.position.y - 4998 * LENGTH_UNIT).abs() <= 5);
}

#[test]
fn tick_of_a_head_on_pair_moves_them_apart() {
    let mut world = World::new(arena());
    world.add_ball(ball(100, 100, 5, 0, 10));
    world.add_ball(ball(119, 100, -5, 0, 10));
    world.tick();
    assert_eq!(world.balls[0].velocity, Vec2::from_speeds(-5, 0));
    assert_eq!(world.balls[1].velocity, Vec2::from_speeds(5, 0));
    assert_eq!(world.balls[0].position, Vec2::new(409_259, 100 * LENGTH_UNIT));
    assert_eq!(world.balls[1].position, Vec2::new(487_765, 100 * LENGTH_UNIT));
    assert!(world.balls[0].position.x < 100 * LENGTH_UNIT);
    assert!(world.balls[1].position.x > 119 * LENGTH_UNIT);
}

#[test]
fn reflection_over_two_ticks() {
    let mut world = World::new(arena());
    world.add_ball(ball(55, 500, -3, 0, 10));
    world.tick();
    assert_eq!(world.balls[0].velocity, Vec2::from_speeds(3, 0));
    assert_eq!(world.balls[0].position, Vec2::new(225_485, 500 * LENGTH_UNIT));
    // 55.05 units of length, to half a stored unit
    assert!((20 * world.balls[0].position.x - 1101 * LENGTH_UNIT).abs() <= 10);
    world.tick();
    assert_eq!(world.balls[0].velocity, Vec2::from_speeds(3, 0));
    assert_eq!(world.balls[0].position, Vec2::new(225_690, 500 * LENGTH_UNIT));
    assert!((10 * world.balls[0].position.x - 551 * LENGTH_UNIT).abs() <= 10);
}

#[test]
fn tick_keeps_the_velocity_of_a_body_that_overlaps_none() {
    // The projections of the two disks overlap, the disks do not.
    let mut world = World::new(arena());
    world.add_ball(ball(500, 500, 6, -12, 10));
    world.add_ball(ball(505, 800, -7, 3, 10));
    world.tick();
    assert_eq!(world.balls[0].velocity, Vec2::from_speeds(6, -12));
    assert_eq!(world.balls[1].velocity, Vec2::from_speeds(-7, 3));
    assert_eq!(world.balls[0].position, Vec2::new(2_048_410, 2_047_181));
}

#[test]
fn populated_bodies_move() {
    let rng = RandGenerator::new();
    rng.srand(2024);
    let mut c = arena();
    c.ball_count = 300;
    let mut world = World::new(c);
    assert_eq!(world.populate(&rng), Ok(()));
    let before: Vec<Ball> = world.balls.clone();
    world.tick();
    let mut moved = 0;
    for (old, new) in before.iter().zip(world.balls.iter()) {
        assert_eq!(new.position.x - old.position.x, step(new.velocity.x, FRAME));
        assert_eq!(new.position.y - old.position.y, step(new.velocity.y, FRAME));
        if new.position != old.position {
            moved += 1;
        }
    }
    assert!(moved >= 299);
}

#[test]
fn energy_over_many_ticks() {
    let rng = RandGenerator::new();
    rng.srand(11);
    let mut c = arena();
    c.ball_count = 200;
    c.width = 400 * LENGTH_UNIT;
    c.height = 400 * LENGTH_UNIT;
    let mut world = World::new(c);
    assert_eq!(world.populate(&rng), Ok(()));
    let energy = |w: &World| -> i128 {
        w.balls
            .iter()
            .map(|b| (b.radius * b.radius) as i128 * b.velocity.length_squared())
            .sum()
    };
    let unit = SPEED_UNIT as i128;
    let start = energy(&world);
    let mut changed = 0;
    for _ in 0..600 {
        let before = energy(&world);
        let velocities: Vec<Vec2> = world.balls.iter().map(|b| b.velocity).collect();
        world.tick();
        let after = energy(&world);
        let hits = world
            .balls
            .iter()
            .zip(velocities.iter())
            .filter(|(b, v)| b.velocity != **v)
            .count() as i128;
        changed += hits;
        // each body whose velocity changed adds at most a ten-thousandth of a unit
        assert!(10_000 * (after - before).abs() <= (hits + 1) * unit * unit);
    }
    assert!(changed > 100);
    assert!(10_000 * (energy(&world) - start).abs() <= start);
}

#[test]
fn radii_are_whole_units() {
    let rng = RandGenerator::new();
    rng.srand(5);
    let c = arena();
    let mut seen = [false; 13];
    for _ in 0..2000 {
        let b = Ball::random(&rng, &c);
        assert!(6 <= b.radius && b.radius <= 12);
        seen[b.radius as usize] = true;
    }
    for r in 6..12 {
        assert!(seen[r]);
    }
}

#[test]
fn spawn_on_an_empty_store_places_the_first_draw() {
    let rng = RandGenerator::new();
    let mut c = arena();
    c.ball_count = 1;
    c.placement_attempts = 1;
    let mut world = World::new(c);
    assert!(world.spawn(&rng));
    assert_eq!(world.len(), 1);
    assert!(world.balls[0].is_valid());
    let mut single = World::new(c);
    assert_eq!(single.populate(&rng), Ok(()));
    assert_eq!(single.len(), 1);
}

#[test]
fn spawn_without_attempts_places_nothing() {
    let rng = RandGenerator::new();
    let mut c = arena();
    c.placement_attempts = 0;
    let mut world = World::new(c);
    assert!(!world.spawn(&rng));
    assert_eq!(world.len(), 0);
}

#[test]
fn spawn_in_a_full_arena_leaves_the_store() {
    let rng = RandGenerator::new();
    let mut c = arena();
    c.width = 24 * LENGTH_UNIT;
    c.height = 24 * LENGTH_UNIT;
    c.placement_attempts = 50;
    assert!(c.is_valid());
    let mut world = World::new(c);
    let blocker = ball(62, 62, 0, 0, 12);
    world.add_ball(blocker);
    assert!(!world.spawn(&rng));
    assert_eq!(world.len(), 1);
    assert_eq!(world.balls[0], blocker);
}
