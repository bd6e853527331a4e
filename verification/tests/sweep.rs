use collider::ball::{Ball, Color};
use collider::sweep::{candidate_pairs, precedes, project, sort_intervals, Interval};
use collider::units::LENGTH_UNIT;
use collider::vector::Vec2;

const GREY: Color = Color { r: 128, g: 128, b: 128, a: 255 };

fn disk(x: i64, y: i64, radius: i64) -> Ball {
    Ball::new(Vec2::from_lengths(x, y), Vec2::new(0, 0), radius, GREY)
}

fn interval(index: usize, lo: i64, hi: i64) -> Interval {
    Interval { index, lo, hi }
}

fn brute_force(balls: &Vec<Ball>) -> Vec<(usize, usize)> {
    let mut pairs = Vec::new();
    for i in 0..balls.len() {
        for j in (i + 1)..balls.len() {
            if balls[i].collides_with(&balls[j]) {
                pairs.push((i, j));
            }
        }
    }
    pairs
}

fn swept(balls: &Vec<Ball>) -> Vec<(usize, usize)> {
    let order = sort_intervals(&project(balls));
    let mut pairs: Vec<(usize, usize)> = candidate_pairs(&order)
        .into_iter()
        .filter(|p| balls[p.0].collides_with(&balls[p.1]))
        .collect();
    pairs.sort();
    pairs
}

#[test]
fn projection_of_each_disk() {
    let balls = vec![disk(100, 5, 10), disk(-3, 900, 7)];
    assert_eq!(
        project(&balls),
        vec![
            interval(0, 90 * LENGTH_UNIT, 110 * LENGTH_UNIT),
            interval(1, -10 * LENGTH_UNIT, 4 * LENGTH_UNIT)
        ]
    );
    assert_eq!(project(&Vec::new()), Vec::new());
}

#[test]
fn intervals_are_ordered_by_lower_bound_then_index() {
    let v = vec![
        interval(0, 50, 60),
        interval(1, 10, 90),
        interval(2, 50, 55),
        interval(3, -4, 0),
        interval(4, 10, 11),
    ];
    assert_eq!(
        sort_intervals(&v),
        vec![
            interval(3, -4, 0),
            interval(1, 10, 90),
            interval(4, 10, 11),
            interval(0, 50, 60),
            interval(2, 50, 55),
        ]
    );
    assert_eq!(sort_intervals(&Vec::new()), Vec::new());
    assert_eq!(sort_intervals(&vec![interval(0, 1, 2)]), vec![interval(0, 1, 2)]);
}

#[test]
fn sorting_many_intervals() {
    let mut seed: u64 = 88172645463325252;
    let mut v = Vec::new();
    for index in 0..500 {
        seed ^= seed << 13;
        seed ^= seed >> 7;
        seed ^= seed << 17;
        let lo = (seed % 200) as i64 - 100;
        v.push(interval(index, lo, lo + 12));
    }
    let sorted = sort_intervals(&v);
    let mut expected = v.clone();
    expected.sort_by_key(|e| (e.lo, e.index));
    assert_eq!(sorted, expected);
}

#[test]
fn order_of_the_sweep() {
    assert!(precedes(&interval(5, 1, 9), &interval(0, 2, 3)));
    assert!(!precedes(&interval(0, 2, 3), &interval(5, 1, 9)));
    assert!(precedes(&interval(1, 2, 9), &interval(2, 2, 3)));
    assert!(!precedes(&interval(2, 2, 3), &interval(1, 2, 9)));
    assert!(precedes(&interval(1, 2, 3), &interval(1, 2, 3)));
    assert!(precedes(&interval(1, 2, 3), &interval(1, 2, 4)));
    assert!(!precedes(&interval(1, 2, 4), &interval(1, 2, 3)));
}

#[test]
fn candidates_stop_at_the_first_gap() {
    let order = vec![
        interval(2, 0, 10),
        interval(0, 5, 8),
        interval(3, 10, 20),
        interval(1, 11, 12),
        interval(4, 30, 40),
    ];
    assert_eq!(
        candidate_pairs(&order),
        vec![(0, 2), (2, 3), (1, 3)]
    );
}

#[test]
fn no_candidates_below_two_intervals() {
    assert_eq!(candidate_pairs(&Vec::new()), Vec::new());
    assert_eq!(candidate_pairs(&vec![interval(0, 1, 5)]), Vec::new());
}

#[test]
fn candidate_with_overlapping_projection_may_fail_narrow_phase() {
    let balls = vec![disk(100, 100, 10), disk(105, 500, 10)];
    let order = sort_intervals(&project(&balls));
    assert_eq!(candidate_pairs(&order), vec![(0, 1)]);
    assert!(!balls[0].collides_with(&balls[1]));
    assert_eq!(swept(&balls), Vec::new());
}

#[test]
fn sweep_finds_what_brute_force_finds() {
    let balls = vec![
        disk(300, 300, 10),
        disk(100, 100, 10),
        disk(115, 105, 10),
        disk(310, 310, 6),
        disk(120, 120, 12),
        disk(100, 700, 12),
        disk(305, 295, 8),
    ];
    let expected = brute_force(&balls);
    assert_eq!(expected, vec![(0, 3), (0, 6), (1, 2), (2, 4)]);
    assert_eq!(swept(&balls), expected);
}

#[test]
fn sweep_is_complete_on_crowded_stores() {
    let mut seed: u64 = 0x9E37_79B9_7F4A_7C15;
    for round in 0..40 {
        let mut balls = Vec::new();
        for _ in 0..(round * 3) {
            seed ^= seed << 13;
            seed ^= seed >> 7;
            seed ^= seed << 17;
            let x = (seed % 400) as i64;
            let y = ((seed >> 16) % 300) as i64;
            let radius = 6 + ((seed >> 32) % 7) as i64;
            balls.push(disk(x, y, radius));
        }
        let order = sort_intervals(&project(&balls));
        let candidates = candidate_pairs(&order);
        let mut seen = candidates.clone();
        seen.sort();
        seen.dedup();
        assert_eq!(seen.len(), candidates.len());
        for p in &candidates {
            assert!(p.0 < p.1 && p.1 < balls.len());
        }
        assert_eq!(swept(&balls), brute_force(&balls));
    }
}
