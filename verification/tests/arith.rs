use collider::arith::{clamp_to, div_round};
use collider::units::{
    EXACT_LIMIT, LENGTH_UNIT, NANOS_PER_SECOND, POSITION_LIMIT, SPEED_UNIT, STEP_DIVISOR,
    VELOCITY_LIMIT,
};
use collider::vector::{Mat2, Vec2};

#[test]
fn div_round_rounds_to_nearest() {
    assert_eq!(div_round(5, 3), 2);
    assert_eq!(div_round(1, 3), 0);
    assert_eq!(div_round(-5, 3), -2);
    assert_eq!(div_round(-1, 3), 0);
    assert_eq!(div_round(722_000, 72_200), 10);
    assert_eq!(div_round(0, 7), 0);
}

#[test]
fn div_round_ties_go_away_from_zero() {
    assert_eq!(div_round(7, 2), 4);
    assert_eq!(div_round(-7, 2), -4);
    assert_eq!(div_round(1, 2), 1);
    assert_eq!(div_round(-1, 2), -1);
    assert_eq!(div_round(3, 2), 2);
}

#[test]
fn div_round_by_one_is_identity() {
    assert_eq!(div_round(i128::MAX, 1), i128::MAX);
    assert_eq!(div_round(-i128::MAX, 1), -i128::MAX);
    assert_eq!(div_round(i128::MAX, i128::MAX), 1);
}

#[test]
fn clamp_to_confines() {
    assert_eq!(clamp_to(0, 10), 0);
    assert_eq!(clamp_to(10, 10), 10);
    assert_eq!(clamp_to(11, 10), 10);
    assert_eq!(clamp_to(-15, 10), -10);
    assert_eq!(clamp_to(i128::MIN, POSITION_LIMIT), -POSITION_LIMIT);
    assert_eq!(clamp_to(i128::MAX, VELOCITY_LIMIT), VELOCITY_LIMIT);
    assert_eq!(clamp_to(-17, 0), 0);
}

#[test]
fn units_fit_together() {
    assert_eq!(LENGTH_UNIT, 1 << 12);
    assert_eq!(SPEED_UNIT, 1 << 40);
    assert_eq!(POSITION_LIMIT, 16_384 * LENGTH_UNIT);
    assert_eq!(VELOCITY_LIMIT, 1024 * SPEED_UNIT);
    assert_eq!(
        STEP_DIVISOR as i128,
        NANOS_PER_SECOND as i128 * (SPEED_UNIT / LENGTH_UNIT) as i128
    );
}

#[test]
fn vec2_from_whole_units() {
    assert_eq!(Vec2::from_lengths(500, -3), Vec2::new(2_048_000, -12_288));
    assert_eq!(
        Vec2::from_lengths(16_384, -16_384),
        Vec2::new(POSITION_LIMIT, -POSITION_LIMIT)
    );
    assert_eq!(Vec2::from_speeds(6, -12), Vec2::new(6 * SPEED_UNIT, -12 * SPEED_UNIT));
    assert_eq!(
        Vec2::from_speeds(1024, -1024),
        Vec2::new(VELOCITY_LIMIT, -VELOCITY_LIMIT)
    );
}

#[test]
fn vec2_difference_and_products() {
    let a = Vec2::new(3, -4);
    let b = Vec2::new(-1, 2);
    let d = a.minus(b);
    assert_eq!(d, Vec2::new(4, -6));
    assert_eq!(a.dot(b), -11);
    assert_eq!(a.length_squared(), 25);
    assert_eq!(a.distance_squared(b), 52);
    assert_eq!(b.distance_squared(a), 52);
}

#[test]
fn vec2_products_at_the_limits() {
    let a = Vec2::new(EXACT_LIMIT, -EXACT_LIMIT);
    let b = Vec2::new(-EXACT_LIMIT, EXACT_LIMIT);
    assert_eq!(a.minus(b), Vec2::new(2 * EXACT_LIMIT, -2 * EXACT_LIMIT));
    let side = EXACT_LIMIT as i128;
    assert_eq!(a.length_squared(), 2 * side * side);
    assert_eq!(a.dot(b), -2 * side * side);
    let p = Vec2::new(POSITION_LIMIT, -POSITION_LIMIT);
    let q = Vec2::new(-POSITION_LIMIT, POSITION_LIMIT);
    let span = 2 * POSITION_LIMIT as i128;
    assert_eq!(p.distance_squared(q), 2 * span * span);
}

#[test]
fn vec2_range_test() {
    assert!(Vec2::new(POSITION_LIMIT, -POSITION_LIMIT).is_within(POSITION_LIMIT));
    assert!(!Vec2::new(POSITION_LIMIT + 1, 0).is_within(POSITION_LIMIT));
    assert!(!Vec2::new(0, -VELOCITY_LIMIT - 1).is_within(VELOCITY_LIMIT));
    assert!(Vec2::new(0, 0).is_within(0));
}

#[test]
fn vec2_saturated_confines_each_component() {
    assert_eq!(Vec2::saturated(5, -6, 10), Vec2::new(5, -6));
    assert_eq!(Vec2::saturated(50, -60, 10), Vec2::new(10, -10));
    assert_eq!(
        Vec2::saturated(i128::MAX, i128::MIN, VELOCITY_LIMIT),
        Vec2::new(VELOCITY_LIMIT, -VELOCITY_LIMIT)
    );
}

#[test]
fn flip_matrices_mirror_one_component() {
    let v = Vec2::new(-3, 7);
    assert_eq!(Mat2::flip_x().mul_vec2(v), Vec2::new(3, 7));
    assert_eq!(Mat2::flip_y().mul_vec2(v), Vec2::new(-3, -7));
    assert_eq!(Mat2::flip_x().mul_vec2(Mat2::flip_x().mul_vec2(v)), v);
    let fast = Vec2::new(VELOCITY_LIMIT, -VELOCITY_LIMIT);
    assert_eq!(Mat2::flip_x().mul_vec2(fast), Vec2::new(-VELOCITY_LIMIT, -VELOCITY_LIMIT));
}

#[test]
fn matrix_times_vector() {
    let m = Mat2::from_cols(Vec2::new(1, 3), Vec2::new(2, 4));
    assert_eq!(m.mul_vec2(Vec2::new(5, 6)), Vec2::new(17, 39));
    let big = Mat2::from_cols(Vec2::new(1024, 0), Vec2::new(1024, -1024));
    assert_eq!(
        big.mul_vec2(Vec2::new(VELOCITY_LIMIT, VELOCITY_LIMIT)),
        Vec2::new(2048 * VELOCITY_LIMIT, -1024 * VELOCITY_LIMIT)
    );
}
