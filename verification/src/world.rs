//! The world: the store of bodies and the tick that moves them.

use crate::ball::Ball;
use crate::completeness::lemma_resolve_keeps_places;
use crate::config::Config;
use crate::sweep::{
    candidate_pairs, candidates, lemma_rows_in_bounds, lemma_sweep_order_permutes, project,
    sort_intervals, sweep_order,
};
use macroquad::rand::RandGenerator;
use vstd::prelude::*;

verus! {

/// Every body of the store is well formed.
pub open spec fn all_wf(balls: Seq<Ball>) -> bool {
    forall|k: int| 0 <= k < balls.len() ==> (#[trigger] balls[k]).wf()
}

/// The store after the wall reflection of every body.
pub open spec fn reflect_all(balls: Seq<Ball>, config: Config) -> Seq<Ball> {
    Seq::new(balls.len(), |k: int| balls[k].reflected(config))
}

/// The store after the encounter of the bodies at `a` and `b`.
pub open spec fn collide_pair(balls: Seq<Ball>, a: int, b: int) -> Seq<Ball> {
    balls.update(a, balls[a].after_collision(balls[b])).update(
        b,
        balls[b].after_collision(balls[a]),
    )
}

/// The store after the encounters of `pairs`, one after the other: each one
/// starts from what the earlier ones left.
pub open spec fn resolve(balls: Seq<Ball>, pairs: Seq<(usize, usize)>) -> Seq<Ball>
    decreases pairs.len(),
{
    if pairs.len() == 0 {
        balls
    } else {
        let p = pairs.last();
        collide_pair(resolve(balls, pairs.drop_last()), p.0 as int, p.1 as int)
    }
}

/// The store after every body has moved for `dt` nanoseconds.
pub open spec fn advance_all(balls: Seq<Ball>, dt: int) -> Seq<Ball> {
    Seq::new(balls.len(), |k: int| balls[k].advanced(dt))
}

/// The store after one tick: wall reflection of every body, then the
/// encounters of the candidate pairs of the sweep in the order of the sweep,
/// then the motion of every body over one time step.
pub open spec fn tick_outcome(balls: Seq<Ball>, config: Config) -> Seq<Ball> {
    let reflected = reflect_all(balls, config);
    let pairs = candidates(sweep_order(reflected));
    advance_all(resolve(reflected, pairs), config.frame_time as int)
}

/// Some body of the store overlaps `ball`.
pub open spec fn overlaps_any(balls: Seq<Ball>, ball: Ball) -> bool {
    exists|k: int| 0 <= k < balls.len() && (#[trigger] balls[k]).overlaps(ball)
}

/// Each of `rejected` could have been drawn for `config` and overlaps a body
/// of the store: no placement would have taken it.
pub open spec fn turned_away(balls: Seq<Ball>, config: Config, rejected: Seq<Ball>) -> bool {
    forall|i: int|
        0 <= i < rejected.len() ==> {
            let ball = #[trigger] rejected[i];
            ball.wf() && ball.spawned_in(config) && overlaps_any(balls, ball)
        }
}

/// No two bodies of the store overlap.
pub open spec fn separated(balls: Seq<Ball>) -> bool {
    forall|i: int, j: int|
        0 <= i < j < balls.len() ==> !(#[trigger] balls[i]).overlaps(#[trigger] balls[j])
}

/// Why a world could not be populated.
#[derive(Clone, Copy, Debug, PartialEq, Eq, Structural)]
pub enum PlacementError {
    /// A body found no free place within the attempts allowed.
    ArenaTooSmall,
}

impl PlacementError {
    /// The error in words.
    pub fn message(&self) -> (text: &'static str)
        ensures
            text@ == "arena too small for body count"@,
    {
        "arena too small for body count"
    }
}

/// The bodies of a simulation and its parameters.
pub struct World {
    pub balls: Vec<Ball>,
    pub config: Config,
}

impl View for World {
    type V = Seq<Ball>;

    open spec fn view(&self) -> Seq<Ball> {
        self.balls@
    }
}

impl World {
    /// The parameters and every body are well formed.
    pub open spec fn wf(self) -> bool {
        &&& self.config.wf()
        &&& all_wf(self@)
    }

    /// A world without bodies.
    pub fn new(config: Config) -> (world: World)
        ensures
            world@ == Seq::<Ball>::empty(),
            world.config == config,
            config.wf() ==> world.wf(),
    {
        World { balls: Vec::new(), config }
    }

    /// Appends a body to the store.
    pub fn add_ball(&mut self, b: Ball)
        ensures
            final(self)@ == old(self)@.push(b),
            final(self).config == old(self).config,
            old(self).wf() && b.wf() ==> final(self).wf(),
    {
        self.balls.push(b);
    }

    /// Number of bodies.
    pub fn len(&self) -> (n: usize)
        ensures
            n == self@.len(),
    {
        self.balls.len()
    }

    /// Appends `candidate` unless it overlaps a body of the store.
    pub fn place(&mut self, candidate: Ball) -> (placed: bool)
        requires
            old(self).wf(),
            candidate.wf(),
        ensures
            placed == !overlaps_any(old(self)@, candidate),
            placed ==> final(self)@ == old(self)@.push(candidate),
            !placed ==> final(self)@ == old(self)@,
            final(self).config == old(self).config,
            final(self).wf(),
    {
        let n = self.balls.len();
        let mut k: usize = 0;
        while k < n
            invariant
                k <= n,
                n == self@.len(),
                self@ == old(self)@,
                self.config == old(self).config,
                self.wf(),
                candidate.wf(),
                forall|m: int| 0 <= m < k ==> !(#[trigger] self@[m]).overlaps(candidate),
            decreases n - k,
        {
            assert(self@[k as int].wf());
            if self.balls[k].collides_with(&candidate) {
                return false;
            }
            k += 1;
        }
        self.balls.push(candidate);
        true
    }

    /// Draws a body from `rng` and places it. A body that overlaps one of
    /// the store is drawn anew, up to the number of attempts that the
    /// parameters allow. The first body that overlaps none is appended; when
    /// every attempt was turned away the store stays as it was. A store
    /// without bodies turns nothing away.
    pub fn spawn(&mut self, rng: &RandGenerator) -> (placed: bool)
        requires
            old(self).wf(),
        ensures
            final(self).config == old(self).config,
            final(self).wf(),
            placed ==> final(self)@.len() == old(self)@.len() + 1 && final(self)@ == old(
                self,
            )@.push(final(self)@.last()) && final(self)@.last().spawned_in(old(self).config)
                && !overlaps_any(old(self)@, final(self)@.last()),
            !placed ==> final(self)@ == old(self)@ && exists|rejected: Seq<Ball>|
                rejected.len() == old(self).config.placement_attempts && #[trigger] turned_away(
                    old(self)@,
                    old(self).config,
                    rejected,
                ),
            old(self)@.len() == 0 && old(self).config.placement_attempts > 0 ==> placed,
            old(self).config.placement_attempts == 0 ==> !placed,
    {
        let attempts = self.config.placement_attempts;
        let mut tried: u32 = 0;
        let mut done = false;
        let ghost rejected: Seq<Ball> = Seq::empty();
        while !done && tried < attempts
            invariant
                tried <= attempts,
                attempts == old(self).config.placement_attempts,
                done ==> attempts > 0,
                self.config == old(self).config,
                self.wf(),
                !done ==> self@ == old(self)@,
                !done ==> rejected.len() == tried && turned_away(
                    old(self)@,
                    old(self).config,
                    rejected,
                ),
                done ==> self@.len() == old(self)@.len() + 1 && self@ == old(self)@.push(
                    self@.last(),
                ) && self@.last().spawned_in(self.config) && !overlaps_any(
                    old(self)@,
                    self@.last(),
                ),
            decreases
                    (if done {
                        0int
                    } else {
                        1int
                    }),
                    attempts - tried,
        {
            let candidate = Ball::random(rng, &self.config);
            done = self.place(candidate);
            tried += 1;
            proof {
                if !done {
                    let earlier = rejected;
                    rejected = earlier.push(candidate);
                    assert forall|i: int| 0 <= i < rejected.len() implies {
                        let ball = #[trigger] rejected[i];
                        ball.wf() && ball.spawned_in(old(self).config) && overlaps_any(
                            old(self)@,
                            ball,
                        )
                    } by {
                        if i < earlier.len() {
                            assert(rejected[i] == earlier[i]);
                        }
                    }
                }
            }
        }
        proof {
            if !done && attempts > 0 {
                assert(overlaps_any(old(self)@, rejected[0]));
            }
        }
        done
    }

    /// Places as many bodies as the parameters ask for, each by `spawn`.
    /// When a body finds no place within the attempts allowed, the bodies
    /// placed so far stay and the error says that the arena is too small:
    /// then as many candidates as there are attempts were drawn in a row and
    /// each of them overlaps a body of the store.
    pub fn populate(&mut self, rng: &RandGenerator) -> (outcome: Result<(), PlacementError>)
        requires
            old(self).wf(),
        ensures
            final(self).config == old(self).config,
            final(self).wf(),
            old(self)@.len() <= final(self)@.len(),
            final(self)@.subrange(0, old(self)@.len() as int) == old(self)@,
            forall|k: int|
                old(self)@.len() <= k < final(self)@.len() ==> {
                    let ball = #[trigger] final(self)@[k];
                    ball.spawned_in(old(self).config) && !overlaps_any(
                        final(self)@.subrange(0, k),
                        ball,
                    )
                },
            separated(old(self)@) ==> separated(final(self)@),
            outcome is Ok ==> final(self)@.len() == old(self)@.len() + old(self).config.ball_count,
            outcome is Err ==> final(self)@.len() < old(self)@.len() + old(self).config.ball_count,
            outcome is Err ==> exists|rejected: Seq<Ball>|
                rejected.len() == old(self).config.placement_attempts && #[trigger] turned_away(
                    final(self)@,
                    old(self).config,
                    rejected,
                ),
            old(self).config.ball_count == 0 ==> outcome is Ok,
            old(self).config.ball_count > 0 && old(self).config.placement_attempts == 0
                ==> outcome is Err,
            old(self)@.len() == 0 && old(self).config.ball_count == 1 && old(
                self,
            ).config.placement_attempts > 0 ==> outcome is Ok,
    {
        let count = self.config.ball_count;
        let mut placed: usize = 0;
        assert(self@.subrange(0, self@.len() as int) =~= self@);
        while placed < count
            invariant
                placed <= count,
                placed > 0 ==> old(self).config.placement_attempts > 0,
                separated(old(self)@) ==> separated(self@),
                count == old(self).config.ball_count,
                self.config == old(self).config,
                self.wf(),
                self@.len() == old(self)@.len() + placed,
                self@.subrange(0, old(self)@.len() as int) == old(self)@,
                forall|k: int|
                    old(self)@.len() <= k < self@.len() ==> (#[trigger] self@[k]).spawned_in(
                        self.config,
                    ) && !overlaps_any(self@.subrange(0, k), self@[k]),
            decreases count - placed,
        {
            let ghost before = self@;
            if !self.spawn(rng) {
                return Err(PlacementError::ArenaTooSmall);
            }
            proof {
                let now = self@;
                let first = old(self)@.len() as int;
                assert(now.subrange(0, before.len() as int) =~= before);
                assert(now.subrange(0, first) =~= before.subrange(0, first));
                assert forall|k: int| first <= k < now.len() implies (#[trigger] now[k]).spawned_in(
                    self.config,
                ) && !overlaps_any(now.subrange(0, k), now[k]) by {
                    if k < before.len() {
                        assert(now[k] == before[k]);
                        assert(now.subrange(0, k) =~= before.subrange(0, k));
                    } else {
                        assert(now.subrange(0, k) =~= before);
                    }
                }
                if separated(old(self)@) {
                    assert forall|i: int, j: int| 0 <= i < j < now.len() implies !(
                    #[trigger] now[i]).overlaps(#[trigger] now[j]) by {
                        if j < before.len() {
                            assert(now[i] == before[i] && now[j] == before[j]);
                        } else {
                            assert(before[i] == now[i]);
                            assert(!overlaps_any(before, now[j]));
                        }
                    }
                }
            }
            placed += 1;
        }
        Ok(())
    }

    /// Wall reflection of every body.
    pub fn reflect_walls(&mut self)
        requires
            old(self).wf(),
        ensures
            final(self)@ == reflect_all(old(self)@, old(self).config),
            final(self).config == old(self).config,
            final(self).wf(),
    {
        let n = self.balls.len();
        let mut k: usize = 0;
        while k < n
            invariant
                k <= n,
                n == self.balls.len(),
                n == old(self)@.len(),
                self.config == old(self).config,
                self.config.wf(),
                all_wf(self@),
                forall|m: int| 0 <= m < k ==> self@[m] == old(self)@[m].reflected(self.config),
                forall|m: int| k <= m < n ==> self@[m] == old(self)@[m],
            decreases n - k,
        {
            let mut b = self.balls[k];
            assert(b.wf());
            b.compute_collision(&self.config);
            self.balls[k] = b;
            k += 1;
        }
        assert(self@ =~= reflect_all(old(self)@, old(self).config));
    }

    /// The encounters of `pairs`, one after the other. Each pair is taken
    /// out of the store, resolved, and put back.
    pub fn resolve_collisions(&mut self, pairs: &Vec<(usize, usize)>)
        requires
            old(self).wf(),
            forall|t: int|
                0 <= t < pairs.len() ==> (#[trigger] pairs[t]).0 < old(self)@.len() && pairs[t].1
                    < old(self)@.len(),
        ensures
            final(self)@ == resolve(old(self)@, pairs@),
            final(self)@.len() == old(self)@.len(),
            final(self).config == old(self).config,
            final(self).wf(),
    {
        let mut t: usize = 0;
        assert(pairs@.subrange(0, 0) =~= Seq::<(usize, usize)>::empty());
        while t < pairs.len()
            invariant
                t <= pairs.len(),
                self@.len() == old(self)@.len(),
                self.config == old(self).config,
                self.wf(),
                forall|u: int|
                    0 <= u < pairs.len() ==> (#[trigger] pairs[u]).0 < old(self)@.len()
                        && pairs[u].1 < old(self)@.len(),
                self@ == resolve(old(self)@, pairs@.subrange(0, t as int)),
            decreases pairs.len() - t,
        {
            let (a, b) = pairs[t];
            let mut first = self.balls[a];
            let mut second = self.balls[b];
            assert(first.wf() && second.wf());
            let ghost before = self@;
            first.collide(&mut second);
            self.balls[a] = first;
            self.balls[b] = second;
            proof {
                let done = pairs@.subrange(0, t + 1);
                assert(done.drop_last() =~= pairs@.subrange(0, t as int));
                assert(done.last() == pairs[t as int]);
                assert(self@ =~= collide_pair(before, a as int, b as int));
            }
            t += 1;
        }
        assert(pairs@.subrange(0, t as int) =~= pairs@);
    }

    /// The motion of every body over one time step.
    pub fn integrate(&mut self)
        requires
            old(self).wf(),
        ensures
            final(self)@ == advance_all(old(self)@, old(self).config.frame_time as int),
            final(self).config == old(self).config,
            final(self).wf(),
    {
        let n = self.balls.len();
        let dt = self.config.frame_time;
        let mut k: usize = 0;
        while k < n
            invariant
                k <= n,
                n == self.balls.len(),
                n == old(self)@.len(),
                self.config == old(self).config,
                dt == self.config.frame_time,
                self.config.wf(),
                all_wf(self@),
                forall|m: int| 0 <= m < k ==> self@[m] == old(self)@[m].advanced(dt as int),
                forall|m: int| k <= m < n ==> self@[m] == old(self)@[m],
            decreases n - k,
        {
            let mut b = self.balls[k];
            assert(b.wf());
            b.update(dt);
            self.balls[k] = b;
            k += 1;
        }
        assert(self@ =~= advance_all(old(self)@, old(self).config.frame_time as int));
    }

    /// One tick, in this order: wall reflection of every body; the sweep
    /// over the projections of the reflected bodies; the encounter of each
    /// candidate pair; the motion of every body over one time step.
    pub fn tick(&mut self)
        requires
            old(self).wf(),
        ensures
            final(self)@ == tick_outcome(old(self)@, old(self).config),
            final(self)@.len() == old(self)@.len(),
            forall|k: int|
                0 <= k < old(self)@.len() ==> {
                    let ball = #[trigger] final(self)@[k];
                    ball.radius == old(self)@[k].radius && ball.color == old(self)@[k].color
                },
            final(self).config == old(self).config,
            final(self).wf(),
    {
        self.reflect_walls();
        let intervals = project(&self.balls);
        let order = sort_intervals(&intervals);
        let n = self.balls.len();
        proof {
            lemma_sweep_order_permutes(self@);
            lemma_rows_in_bounds(order@, order@.len() as int, self@.len() as int);
        }
        let pairs = candidate_pairs(&order);
        proof {
            lemma_resolve_keeps_places(self@, pairs@);
        }
        self.resolve_collisions(&pairs);
        self.integrate();
    }
}

} // verus!
