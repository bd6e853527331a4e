//! The kinetic energy of a whole store over a tick: wall reflection and
//! motion keep it exactly, and each encounter moves it by less than a
//! ten-thousandth of a unit.

use crate::arith::magnitude;
use crate::ball::Ball;
use crate::completeness::{lemma_candidates_ordered, lemma_resolve_keeps_places};
use crate::config::Config;
use crate::conservation::{conserved, lemma_free_collision};
use crate::sweep::{candidates, sweep_order};
use crate::units::{FREE_SPEED_LIMIT, SPEED_UNIT};
use crate::world::{advance_all, all_wf, collide_pair, reflect_all, resolve, tick_outcome};
use vstd::arithmetic::mul::lemma_mul_is_distributive_add_other_way;
use vstd::prelude::*;

verus! {

/// Twice the kinetic energy of a body: its mass times its squared speed.
pub open spec fn body_energy(ball: Ball) -> int {
    ball.mass() * ball.velocity@.norm_sq()
}

/// Twice the kinetic energy of all bodies of a store.
pub open spec fn world_energy(balls: Seq<Ball>) -> int
    decreases balls.len(),
{
    if balls.len() == 0 {
        0
    } else {
        world_energy(balls.drop_last()) + body_energy(balls.last())
    }
}

/// Each encounter of `pairs` starts from two bodies that move at no more
/// than 64 units of length per second in each component.
pub open spec fn calm_throughout(balls: Seq<Ball>, pairs: Seq<(usize, usize)>) -> bool
    decreases pairs.len(),
{
    if pairs.len() == 0 {
        true
    } else {
        let state = resolve(balls, pairs.drop_last());
        let p = pairs.last();
        &&& calm_throughout(balls, pairs.drop_last())
        &&& state[p.0 as int].velocity@.within(FREE_SPEED_LIMIT as int)
        &&& state[p.1 as int].velocity@.within(FREE_SPEED_LIMIT as int)
    }
}

/// The energy of a store in which one body was replaced.
proof fn lemma_energy_of_update(balls: Seq<Ball>, i: int, ball: Ball)
    requires
        0 <= i < balls.len(),
    ensures
        world_energy(balls.update(i, ball)) == world_energy(balls) - body_energy(balls[i])
            + body_energy(ball),
    decreases balls.len(),
{
    let changed = balls.update(i, ball);
    if i == balls.len() - 1 {
        assert(changed.drop_last() =~= balls.drop_last());
    } else {
        assert(changed.drop_last() =~= balls.drop_last().update(i, ball));
        lemma_energy_of_update(balls.drop_last(), i, ball);
    }
}

/// Stores whose bodies carry the same energies place by place carry the
/// same energy.
proof fn lemma_energy_place_by_place(a: Seq<Ball>, b: Seq<Ball>)
    requires
        a.len() == b.len(),
        forall|k: int| 0 <= k < a.len() ==> body_energy(#[trigger] a[k]) == body_energy(b[k]),
    ensures
        world_energy(a) == world_energy(b),
    decreases a.len(),
{
    if a.len() > 0 {
        assert forall|k: int| 0 <= k < a.drop_last().len() implies body_energy(
            #[trigger] a.drop_last()[k],
        ) == body_energy(b.drop_last()[k]) by {
            assert(a.drop_last()[k] == a[k]);
            assert(b.drop_last()[k] == b[k]);
        }
        lemma_energy_place_by_place(a.drop_last(), b.drop_last());
        assert(body_energy(a[a.len() - 1]) == body_energy(b[a.len() - 1]));
    }
}

/// Wall reflection keeps the energy of a body.
pub proof fn lemma_reflection_keeps_energy(ball: Ball, config: Config)
    requires
        ball.wf(),
    ensures
        body_energy(ball.reflected(config)) == body_energy(ball),
{
    let v = ball.velocity@;
    let w = ball.reflected(config).velocity@;
    assert(w.x == v.x || w.x == -v.x);
    assert(w.y == v.y || w.y == -v.y);
    assert((-v.x) * (-v.x) == v.x * v.x) by (nonlinear_arith);
    assert((-v.y) * (-v.y) == v.y * v.y) by (nonlinear_arith);
}

/// One encounter of two bodies that move at no more than 64 units of length
/// per second moves the energy of the store by less than a ten-thousandth
/// of a unit.
pub proof fn lemma_encounter_energy(balls: Seq<Ball>, a: int, b: int)
    requires
        all_wf(balls),
        0 <= a < balls.len(),
        0 <= b < balls.len(),
        a != b,
        balls[a].velocity@.within(FREE_SPEED_LIMIT as int),
        balls[b].velocity@.within(FREE_SPEED_LIMIT as int),
    ensures
        10_000 * magnitude(world_energy(collide_pair(balls, a, b)) - world_energy(balls))
            <= SPEED_UNIT * SPEED_UNIT,
        all_wf(collide_pair(balls, a, b)),
{
    let first = balls[a].after_collision(balls[b]);
    let second = balls[b].after_collision(balls[a]);
    let mid = balls.update(a, first);
    assert(balls[a].wf() && balls[b].wf());
    lemma_free_collision(balls[a], balls[b]);
    lemma_energy_of_update(balls, a, first);
    lemma_energy_of_update(mid, b, second);
    assert(mid[b] == balls[b]);
    assert(conserved(balls[a], balls[b], first, second));
    assert(first.radius == balls[a].radius && second.radius == balls[b].radius);
    assert(first.wf() && second.wf());
    let after = collide_pair(balls, a, b);
    assert forall|k: int| 0 <= k < after.len() implies (#[trigger] after[k]).wf() by {
        if k != a && k != b {
            assert(after[k] == balls[k]);
        }
    }
}

/// The encounters of `pairs` move the energy of the store by less than a
/// ten-thousandth of a unit each, where each starts from two bodies that
/// move at no more than 64 units of length per second.
pub proof fn lemma_resolve_energy(balls: Seq<Ball>, pairs: Seq<(usize, usize)>)
    requires
        all_wf(balls),
        forall|t: int|
            0 <= t < pairs.len() ==> (#[trigger] pairs[t]).0 < balls.len() && pairs[t].1
                < balls.len() && pairs[t].0 != pairs[t].1,
        calm_throughout(balls, pairs),
    ensures
        10_000 * magnitude(world_energy(resolve(balls, pairs)) - world_energy(balls))
            <= pairs.len() * (SPEED_UNIT * SPEED_UNIT),
        all_wf(resolve(balls, pairs)),
        resolve(balls, pairs).len() == balls.len(),
    decreases pairs.len(),
{
    let unit = SPEED_UNIT * SPEED_UNIT;
    if pairs.len() == 0 {
        assert(0 * unit == 0) by (nonlinear_arith);
    } else {
        let earlier = pairs.drop_last();
        assert forall|t: int| 0 <= t < earlier.len() implies (#[trigger] earlier[t]).0
            < balls.len() && earlier[t].1 < balls.len() && earlier[t].0 != earlier[t].1 by {
            assert(earlier[t] == pairs[t]);
        }
        lemma_resolve_energy(balls, earlier);
        let p = pairs.last();
        assert(p == pairs[pairs.len() - 1]);
        let mid = resolve(balls, earlier);
        lemma_encounter_energy(mid, p.0 as int, p.1 as int);
        lemma_mul_is_distributive_add_other_way(unit, earlier.len() as int, 1);
        assert(pairs.len() == earlier.len() + 1);
    }
}

/// Energy over a tick. Wall reflection and motion keep the energy of the
/// store exactly; each candidate pair of the sweep moves it by less than a
/// ten-thousandth of a unit, where its two bodies move at no more than 64
/// units of length per second when they meet.
pub proof fn lemma_tick_energy(balls: Seq<Ball>, config: Config)
    requires
        balls.len() <= usize::MAX,
        all_wf(balls),
        calm_throughout(
            reflect_all(balls, config),
            candidates(sweep_order(reflect_all(balls, config))),
        ),
    ensures
        world_energy(reflect_all(balls, config)) == world_energy(balls),
        10_000 * magnitude(world_energy(tick_outcome(balls, config)) - world_energy(balls))
            <= candidates(sweep_order(reflect_all(balls, config))).len() * (SPEED_UNIT
            * SPEED_UNIT),
{
    let reflected = reflect_all(balls, config);
    let pairs = candidates(sweep_order(reflected));
    let resolved = resolve(reflected, pairs);
    let moved = advance_all(resolved, config.frame_time as int);
    assert forall|k: int| 0 <= k < balls.len() implies body_energy(#[trigger] reflected[k])
        == body_energy(balls[k]) by {
        assert(balls[k].wf());
        lemma_reflection_keeps_energy(balls[k], config);
    }
    lemma_energy_place_by_place(reflected, balls);
    assert forall|k: int| 0 <= k < reflected.len() implies (#[trigger] reflected[k]).wf() by {
        assert(balls[k].wf());
    }
    assert forall|t: int| 0 <= t < pairs.len() implies (#[trigger] pairs[t]).0 < reflected.len()
        && pairs[t].1 < reflected.len() && pairs[t].0 != pairs[t].1 by {
        lemma_candidates_ordered(reflected, t);
    }
    lemma_resolve_energy(reflected, pairs);
    lemma_resolve_keeps_places(reflected, pairs);
    assert forall|k: int| 0 <= k < moved.len() implies body_energy(#[trigger] moved[k])
        == body_energy(resolved[k]) by {
        assert(moved[k] == resolved[k].advanced(config.frame_time as int));
    }
    lemma_energy_place_by_place(moved, resolved);
}

} // verus!
