//! The sweep misses nothing: every pair of overlapping disks is among its
//! candidate pairs, each candidate pair occurs once, and the encounters
//! leave every disk where it is.

use crate::ball::Ball;
use crate::sweep::{
    candidates, lemma_sweep_order_permutes, pair_of, projection, row, rows, sweep_order, Interval,
};
use crate::config::Config;
use crate::world::{all_wf, collide_pair, resolve, tick_outcome};
use vstd::prelude::*;
use vstd::seq_lib::lemma_no_dup_in_concat;

verus! {

/// Disks that overlap have projections onto the x-axis that overlap.
pub proof fn lemma_overlap_projects(a: Ball, b: Ball)
    requires
        a.wf(),
        b.wf(),
        a.overlaps(b),
    ensures
        a.position.x - a.extent() < b.position.x + b.extent(),
        b.position.x - b.extent() < a.position.x + a.extent(),
{
    let dx = a.position.x - b.position.x;
    let dy = a.position.y - b.position.y;
    let reach = a.extent() + b.extent();
    assert(-reach < dx < reach) by (nonlinear_arith)
        requires
            dx * dx + dy * dy < reach * reach,
            reach > 0,
    ;
}

/// The pair `p` is what the sweep meets at the places `i` and `j` of `order`.
pub open spec fn met_at(order: Seq<Interval>, p: (usize, usize), i: int, j: int) -> bool {
    &&& 0 <= i < j < order.len()
    &&& order[j].lo <= order[i].hi
    &&& p == pair_of(order[i], order[j])
}

/// The pair `p` is met at the place `i` and a later place below `m`.
pub open spec fn met_in_row(order: Seq<Interval>, p: (usize, usize), i: int, m: int) -> bool {
    exists|j: int| i < j < m && met_at(order, p, i, j)
}

/// The pair `p` is met at a place below `n` and a later place.
pub open spec fn met_below(order: Seq<Interval>, p: (usize, usize), n: int) -> bool {
    exists|i: int, j: int| 0 <= i < n && met_at(order, p, i, j)
}

/// No two places of `order` name the same disk.
pub open spec fn distinct_indices(order: Seq<Interval>) -> bool {
    forall|k: int, m: int|
        0 <= k < order.len() && 0 <= m < order.len() && k != m ==> (#[trigger] order[k]).index != (
        #[trigger] order[m]).index
}

/// Different places give different pairs.
proof fn lemma_pair_injective(order: Seq<Interval>, i: int, j: int, i2: int, j2: int)
    requires
        distinct_indices(order),
        0 <= i < j < order.len(),
        0 <= i2 < j2 < order.len(),
        pair_of(order[i], order[j]) == pair_of(order[i2], order[j2]),
    ensures
        i == i2,
        j == j2,
{
    let a = order[i].index;
    let b = order[j].index;
    let c = order[i2].index;
    let d = order[j2].index;
    assert(a != b && c != d);
    if a == c {
        assert(b == d);
    } else {
        assert(a == d && b == c);
    }
}

/// A row holds the pair of each later place that reaches its interval.
proof fn lemma_row_contains(order: Seq<Interval>, i: int, j: int, m: int)
    requires
        0 <= i < j < m <= order.len(),
        order[j].lo <= order[i].hi,
    ensures
        row(order, i, m).contains(pair_of(order[i], order[j])),
    decreases m,
{
    let p = pair_of(order[i], order[j]);
    let rest = row(order, i, m - 1);
    if m == j + 1 {
        assert(row(order, i, m) == rest.push(p));
        assert(rest.push(p)[rest.len() as int] == p);
    } else {
        lemma_row_contains(order, i, j, m - 1);
        let t = choose|t: int| 0 <= t < rest.len() && rest[t] == p;
        assert(row(order, i, m)[t] == p);
    }
}

/// The rows up to `n` hold what the row of an earlier place holds.
proof fn lemma_rows_contain(order: Seq<Interval>, i: int, n: int, p: (usize, usize))
    requires
        0 <= i < n <= order.len(),
        row(order, i, order.len() as int).contains(p),
    ensures
        rows(order, n).contains(p),
    decreases n,
{
    let head = rows(order, n - 1);
    let tail = row(order, n - 1, order.len() as int);
    if i == n - 1 {
        let t = choose|t: int| 0 <= t < tail.len() && tail[t] == p;
        assert(rows(order, n)[head.len() + t] == p);
    } else {
        lemma_rows_contain(order, i, n - 1, p);
        let t = choose|t: int| 0 <= t < head.len() && head[t] == p;
        assert(rows(order, n)[t] == p);
    }
}

/// Whatever a row holds was met at its place and a later one.
proof fn lemma_row_members(order: Seq<Interval>, i: int, m: int)
    requires
        0 <= i < order.len(),
        m <= order.len(),
    ensures
        forall|t: int|
            0 <= t < row(order, i, m).len() ==> met_in_row(
                order,
                #[trigger] row(order, i, m)[t],
                i,
                m,
            ),
    decreases m,
{
    if m > i + 1 && m > 0 {
        lemma_row_members(order, i, m - 1);
        let rest = row(order, i, m - 1);
        assert forall|t: int| 0 <= t < row(order, i, m).len() implies met_in_row(
            order,
            #[trigger] row(order, i, m)[t],
            i,
            m,
        ) by {
            if t < rest.len() {
                assert(row(order, i, m)[t] == rest[t]);
                let last = m - 1;
                assert(met_in_row(order, rest[t], i, last));
                let j = choose|j: int| i < j < last && met_at(order, rest[t], i, j);
                assert(met_at(order, row(order, i, m)[t], i, j));
            } else {
                let last = m - 1;
                assert(met_at(order, row(order, i, m)[t], i, last));
            }
        }
    }
}

/// Whatever the rows up to `n` hold was met at a place below `n` and a later one.
proof fn lemma_rows_members(order: Seq<Interval>, n: int)
    requires
        n <= order.len(),
    ensures
        forall|t: int|
            0 <= t < rows(order, n).len() ==> met_below(order, #[trigger] rows(order, n)[t], n),
    decreases n,
{
    if n > 0 {
        lemma_rows_members(order, n - 1);
        lemma_row_members(order, n - 1, order.len() as int);
        let head = rows(order, n - 1);
        let tail = row(order, n - 1, order.len() as int);
        assert forall|t: int| 0 <= t < rows(order, n).len() implies met_below(
            order,
            #[trigger] rows(order, n)[t],
            n,
        ) by {
            let p = rows(order, n)[t];
            if t < head.len() {
                assert(p == head[t]);
                let last = n - 1;
                assert(met_below(order, head[t], last));
                let (i, j) = choose|i: int, j: int| 0 <= i < last && met_at(order, head[t], i, j);
                assert(0 <= i < n && met_at(order, p, i, j));
            } else {
                let u = t - head.len();
                let last = n - 1;
                assert(p == tail[u]);
                assert(met_in_row(order, tail[u], last, order.len() as int));
                let j = choose|j: int| last < j < order.len() && met_at(order, tail[u], last, j);
                assert(0 <= last < n && met_at(order, p, last, j));
            }
        }
    }
}

/// A row holds no pair twice.
proof fn lemma_row_distinct(order: Seq<Interval>, i: int, m: int)
    requires
        distinct_indices(order),
        0 <= i < order.len(),
        m <= order.len(),
    ensures
        row(order, i, m).no_duplicates(),
    decreases m,
{
    if m > i + 1 && m > 0 {
        lemma_row_distinct(order, i, m - 1);
        lemma_row_members(order, i, m - 1);
        let rest = row(order, i, m - 1);
        if order[m - 1].lo <= order[i].hi {
            let p = pair_of(order[i], order[m - 1]);
            let last = m - 1;
            assert forall|t: int| 0 <= t < rest.len() implies rest[t] != p by {
                assert(met_in_row(order, rest[t], i, last));
                let j = choose|j: int| i < j < last && met_at(order, rest[t], i, j);
                if rest[t] == p {
                    lemma_pair_injective(order, i, j, i, m - 1);
                }
            }
            assert(row(order, i, m) == rest.push(p));
        }
    }
}

/// The rows up to `n` hold no pair twice.
proof fn lemma_rows_distinct(order: Seq<Interval>, n: int)
    requires
        distinct_indices(order),
        n <= order.len(),
    ensures
        rows(order, n).no_duplicates(),
    decreases n,
{
    if n > 0 {
        lemma_rows_distinct(order, n - 1);
        lemma_row_distinct(order, n - 1, order.len() as int);
        lemma_rows_members(order, n - 1);
        lemma_row_members(order, n - 1, order.len() as int);
        let head = rows(order, n - 1);
        let tail = row(order, n - 1, order.len() as int);
        assert forall|t: int, u: int| 0 <= t < head.len() && 0 <= u < tail.len() implies head[t]
            != tail[u] by {
            let last = n - 1;
            assert(met_below(order, head[t], last));
            assert(met_in_row(order, tail[u], last, order.len() as int));
            let (i, j) = choose|i: int, j: int| 0 <= i < last && met_at(order, head[t], i, j);
            let j2 = choose|j2: int| last < j2 < order.len() && met_at(order, tail[u], last, j2);
            if head[t] == tail[u] {
                lemma_pair_injective(order, i, j, last, j2);
            }
        }
        lemma_no_dup_in_concat(head, tail);
    }
}

/// The pairs of overlapping disks, found by testing every pair.
pub open spec fn colliding_pairs(balls: Seq<Ball>) -> Set<(usize, usize)> {
    Set::new(
        |p: (usize, usize)|
            p.0 < p.1 < balls.len() && balls[p.0 as int].overlaps(balls[p.1 as int]),
    )
}

/// The pairs of overlapping disks among the candidate pairs of the sweep.
pub open spec fn resolved_pairs(balls: Seq<Ball>) -> Set<(usize, usize)> {
    Set::new(
        |p: (usize, usize)|
            candidates(sweep_order(balls)).contains(p) && balls[p.0 as int].overlaps(
                balls[p.1 as int],
            ),
    )
}

/// No two places of the sweep order name the same disk.
proof fn lemma_sweep_order_distinct(balls: Seq<Ball>)
    requires
        balls.len() <= usize::MAX,
    ensures
        distinct_indices(sweep_order(balls)),
{
    lemma_sweep_order_permutes(balls);
    let o = sweep_order(balls);
    assert forall|k: int, m: int| 0 <= k < o.len() && 0 <= m < o.len() && k != m implies (
    #[trigger] o[k]).index != (#[trigger] o[m]).index by {
        if o[k].index == o[m].index {
            assert(o[k] == o[m]);
        }
    }
}

/// Each candidate pair names two disks of the store, the smaller index first.
pub proof fn lemma_candidates_ordered(balls: Seq<Ball>, t: int)
    requires
        balls.len() <= usize::MAX,
        0 <= t < candidates(sweep_order(balls)).len(),
    ensures
        candidates(sweep_order(balls))[t].0 < candidates(sweep_order(balls))[t].1 < balls.len(),
{
    let o = sweep_order(balls);
    lemma_sweep_order_permutes(balls);
    lemma_sweep_order_distinct(balls);
    lemma_rows_members(o, o.len() as int);
    let p = candidates(o)[t];
    assert(met_below(o, p, o.len() as int));
    let (i, j) = choose|i: int, j: int| 0 <= i < o.len() && met_at(o, p, i, j);
    assert(o[i].index != o[j].index);
    assert(o[i].index < balls.len() && o[j].index < balls.len());
}

/// Every pair of overlapping disks is a candidate pair of the sweep.
pub proof fn lemma_candidates_complete(balls: Seq<Ball>, a: int, b: int)
    requires
        balls.len() <= usize::MAX,
        all_wf(balls),
        0 <= a < b < balls.len(),
        balls[a].overlaps(balls[b]),
    ensures
        candidates(sweep_order(balls)).contains((a as usize, b as usize)),
{
    let o = sweep_order(balls);
    lemma_sweep_order_permutes(balls);
    let pa = projection(balls[a], a);
    let pb = projection(balls[b], b);
    assert(o.contains(pa));
    assert(o.contains(pb));
    let ka = choose|k: int| 0 <= k < o.len() && o[k] == pa;
    let kb = choose|k: int| 0 <= k < o.len() && o[k] == pb;
    assert(pa.index == a && pb.index == b);
    assert(ka != kb);
    assert(balls[a].wf() && balls[b].wf());
    lemma_overlap_projects(balls[a], balls[b]);
    let i = if ka < kb {
        ka
    } else {
        kb
    };
    let j = if ka < kb {
        kb
    } else {
        ka
    };
    assert(pair_of(o[i], o[j]) == (a as usize, b as usize));
    lemma_row_contains(o, i, j, o.len() as int);
    lemma_rows_contain(o, i, o.len() as int, (a as usize, b as usize));
}

/// Broad-phase completeness. The pairs that the sweep resolves are exactly
/// the pairs of overlapping disks that a test of every pair finds, and the
/// sweep meets no pair twice.
pub proof fn lemma_sweep_complete(balls: Seq<Ball>)
    requires
        balls.len() <= usize::MAX,
        all_wf(balls),
    ensures
        resolved_pairs(balls) == colliding_pairs(balls),
        candidates(sweep_order(balls)).no_duplicates(),
{
    let o = sweep_order(balls);
    let c = candidates(o);
    lemma_sweep_order_distinct(balls);
    lemma_rows_distinct(o, o.len() as int);
    assert forall|p: (usize, usize)| resolved_pairs(balls).contains(p) implies colliding_pairs(
        balls,
    ).contains(p) by {
        let t = choose|t: int| 0 <= t < c.len() && c[t] == p;
        lemma_candidates_ordered(balls, t);
    }
    assert forall|p: (usize, usize)| colliding_pairs(balls).contains(p) implies resolved_pairs(
        balls,
    ).contains(p) by {
        lemma_candidates_complete(balls, p.0 as int, p.1 as int);
    }
    assert(resolved_pairs(balls) =~= colliding_pairs(balls));
}

/// An encounter changes velocities only: every disk keeps its place in the
/// store, its position, its radius and its colour.
pub proof fn lemma_resolve_keeps_places(balls: Seq<Ball>, pairs: Seq<(usize, usize)>)
    requires
        forall|t: int|
            0 <= t < pairs.len() ==> (#[trigger] pairs[t]).0 < balls.len() && pairs[t].1
                < balls.len(),
    ensures
        resolve(balls, pairs).len() == balls.len(),
        forall|k: int|
            0 <= k < balls.len() ==> {
                let after = #[trigger] resolve(balls, pairs)[k];
                &&& after.position == balls[k].position
                &&& after.radius == balls[k].radius
                &&& after.color == balls[k].color
            },
    decreases pairs.len(),
{
    if pairs.len() > 0 {
        let earlier = pairs.drop_last();
        assert forall|t: int| 0 <= t < earlier.len() implies (#[trigger] earlier[t]).0
            < balls.len() && earlier[t].1 < balls.len() by {
            assert(earlier[t] == pairs[t]);
        }
        lemma_resolve_keeps_places(balls, earlier);
        let p = pairs.last();
        assert(p == pairs[pairs.len() - 1]);
        let mid = resolve(balls, earlier);
        assert(resolve(balls, pairs) == collide_pair(mid, p.0 as int, p.1 as int));
    }
}

/// The body at `k` overlaps no other body of the store.
pub open spec fn overlaps_none(balls: Seq<Ball>, k: int) -> bool {
    forall|m: int| 0 <= m < balls.len() && m != k ==> !(#[trigger] balls[m]).overlaps(balls[k])
}

/// A body that overlaps no other comes out of the encounters as it went in,
/// whatever pairs it is a candidate of.
pub proof fn lemma_resolve_spares_free_body(balls: Seq<Ball>, pairs: Seq<(usize, usize)>, k: int)
    requires
        0 <= k < balls.len(),
        overlaps_none(balls, k),
        forall|t: int|
            0 <= t < pairs.len() ==> (#[trigger] pairs[t]).0 < balls.len() && pairs[t].1
                < balls.len() && pairs[t].0 != pairs[t].1,
    ensures
        resolve(balls, pairs)[k] == balls[k],
    decreases pairs.len(),
{
    if pairs.len() > 0 {
        let earlier = pairs.drop_last();
        assert forall|t: int| 0 <= t < earlier.len() implies (#[trigger] earlier[t]).0
            < balls.len() && earlier[t].1 < balls.len() && earlier[t].0 != earlier[t].1 by {
            assert(earlier[t] == pairs[t]);
        }
        lemma_resolve_spares_free_body(balls, earlier, k);
        lemma_resolve_keeps_places(balls, earlier);
        let p = pairs.last();
        assert(p == pairs[pairs.len() - 1]);
        let mid = resolve(balls, earlier);
        let a = p.0 as int;
        let b = p.1 as int;
        assert(resolve(balls, pairs) == collide_pair(mid, a, b));
        assert(mid[a].position == balls[a].position && mid[a].radius == balls[a].radius);
        assert(mid[b].position == balls[b].position && mid[b].radius == balls[b].radius);
        if k == a {
            assert(!balls[b].overlaps(balls[k]));
            crate::ball::lemma_overlap_symmetric(balls[b], balls[k]);
            assert(!mid[a].overlaps(mid[b]));
        } else if k == b {
            assert(!balls[a].overlaps(balls[k]));
            assert(!mid[a].overlaps(mid[b]));
            crate::ball::lemma_overlap_symmetric(mid[a], mid[b]);
        }
    }
}

/// Over a tick, a body that overlaps no other after the wall reflection
/// keeps the velocity that the reflection gave it and moves by the step of
/// that velocity: candidate pairs of the sweep that fail the overlap test
/// change nothing.
pub proof fn lemma_free_body_keeps_course(balls: Seq<Ball>, config: Config, k: int)
    requires
        balls.len() <= usize::MAX,
        0 <= k < balls.len(),
        overlaps_none(crate::world::reflect_all(balls, config), k),
    ensures
        tick_outcome(balls, config)[k] == balls[k].reflected(config).advanced(
            config.frame_time as int,
        ),
{
    let reflected = crate::world::reflect_all(balls, config);
    let pairs = candidates(sweep_order(reflected));
    assert forall|t: int| 0 <= t < pairs.len() implies (#[trigger] pairs[t]).0 < reflected.len()
        && pairs[t].1 < reflected.len() && pairs[t].0 != pairs[t].1 by {
        lemma_candidates_ordered(reflected, t);
    }
    lemma_resolve_spares_free_body(reflected, pairs, k);
    lemma_resolve_keeps_places(reflected, pairs);
}

} // verus!
