//! Broad phase: the projections of the disks onto the x-axis, ordered by
//! their lower bounds, and the pairs whose projections overlap.

use crate::ball::Ball;
use crate::units::LENGTH_UNIT;
use vstd::prelude::*;
use vstd::relations::{sorted_by, total_ordering};
use vstd::seq_lib::{group_to_multiset_ensures, lemma_multiset_commutative, lemma_sorted_unique};

verus! {

/// The projection of a disk onto the x-axis, with the disk's place in the store.
#[derive(Clone, Copy, Debug, PartialEq, Eq, Structural)]
pub struct Interval {
    pub index: usize,
    pub lo: i64,
    pub hi: i64,
}

/// The projection of `ball`, stored at `index`, onto the x-axis.
pub open spec fn projection(ball: Ball, index: int) -> Interval {
    Interval {
        index: index as usize,
        lo: (ball.position.x - ball.extent()) as i64,
        hi: (ball.position.x + ball.extent()) as i64,
    }
}

/// The projections of all disks, in the order of the store.
pub open spec fn projections(balls: Seq<Ball>) -> Seq<Interval> {
    Seq::new(balls.len(), |k: int| projection(balls[k], k))
}

/// The order of the sweep: by lower bound, then by place in the store. (The
/// upper bound comes last, so that the order is total on all intervals.)
pub open spec fn comes_before(a: Interval, b: Interval) -> bool {
    ||| a.lo < b.lo
    ||| a.lo == b.lo && a.index < b.index
    ||| a.lo == b.lo && a.index == b.index && a.hi <= b.hi
}

/// The order of the sweep, as a relation.
pub open spec fn sweep_ordering() -> spec_fn(Interval, Interval) -> bool {
    |a: Interval, b: Interval| comes_before(a, b)
}

/// The projections of all disks in the order of the sweep.
pub open spec fn sweep_order(balls: Seq<Ball>) -> Seq<Interval> {
    projections(balls).sort_by(sweep_ordering())
}

/// The pair of store indices of two intervals, smaller index first.
pub open spec fn pair_of(a: Interval, b: Interval) -> (usize, usize) {
    if a.index < b.index {
        (a.index, b.index)
    } else {
        (b.index, a.index)
    }
}

/// The candidate pairs that the interval at place `i` of `order` forms with
/// the later places below `j`: those whose lower bound does not exceed its
/// upper bound.
pub open spec fn row(order: Seq<Interval>, i: int, j: int) -> Seq<(usize, usize)>
    decreases j,
{
    if j <= i + 1 || j <= 0 {
        Seq::empty()
    } else {
        let rest = row(order, i, j - 1);
        if order[j - 1].lo <= order[i].hi {
            rest.push(pair_of(order[i], order[j - 1]))
        } else {
            rest
        }
    }
}

/// The candidate pairs of the places below `i`, place by place.
pub open spec fn rows(order: Seq<Interval>, i: int) -> Seq<(usize, usize)>
    decreases i,
{
    if i <= 0 {
        Seq::empty()
    } else {
        rows(order, i - 1) + row(order, i - 1, order.len() as int)
    }
}

/// All candidate pairs of a sweep over `order`, in the order in which the
/// sweep meets them.
pub open spec fn candidates(order: Seq<Interval>) -> Seq<(usize, usize)> {
    rows(order, order.len() as int)
}

/// The order of the sweep is a total order.
pub proof fn lemma_sweep_ordering_total()
    ensures
        total_ordering(sweep_ordering()),
{
    let r = sweep_ordering();
    assert forall|x: Interval, y: Interval| #[trigger] r(x, y) && #[trigger] r(y, x) implies x
        == y by {
        assert(comes_before(x, y) && comes_before(y, x));
    }
    assert forall|x: Interval, y: Interval, z: Interval| #[trigger]
        r(x, y) && #[trigger] r(y, z) implies r(x, z) by {
        assert(comes_before(x, y) && comes_before(y, z));
    }
}

/// The projections of all disks, in the order of the store.
pub fn project(balls: &Vec<Ball>) -> (v: Vec<Interval>)
    requires
        forall|k: int| 0 <= k < balls.len() ==> (#[trigger] balls[k]).wf(),
    ensures
        v@ == projections(balls@),
{
    let mut v: Vec<Interval> = Vec::new();
    let mut k: usize = 0;
    while k < balls.len()
        invariant
            k <= balls.len(),
            v.len() == k,
            forall|m: int| 0 <= m < balls.len() ==> (#[trigger] balls[m]).wf(),
            forall|m: int| 0 <= m < k ==> v[m] == projection(balls[m], m),
        decreases balls.len() - k,
    {
        let b = &balls[k];
        assert(b.wf());
        let extent = b.radius * LENGTH_UNIT;
        v.push(Interval { index: k, lo: b.position.x - extent, hi: b.position.x + extent });
        k += 1;
    }
    assert(v@ =~= projections(balls@));
    v
}

/// Tells whether `a` comes before `b` in the order of the sweep, or is `b`.
pub fn precedes(a: &Interval, b: &Interval) -> (r: bool)
    ensures
        r == comes_before(*a, *b),
{
    a.lo < b.lo || (a.lo == b.lo && (a.index < b.index || (a.index == b.index && a.hi <= b.hi)))
}

/// Merges two ordered runs into one.
fn merge(left: &Vec<Interval>, right: &Vec<Interval>) -> (out: Vec<Interval>)
    requires
        sorted_by(left@, sweep_ordering()),
        sorted_by(right@, sweep_ordering()),
    ensures
        sorted_by(out@, sweep_ordering()),
        out@.to_multiset() =~= left@.to_multiset().add(right@.to_multiset()),
{
    broadcast use {group_to_multiset_ensures, vstd::multiset::group_multiset_axioms};

    let mut out: Vec<Interval> = Vec::new();
    let mut i: usize = 0;
    let mut j: usize = 0;
    assert(left@.subrange(0, 0) =~= Seq::<Interval>::empty());
    assert(right@.subrange(0, 0) =~= Seq::<Interval>::empty());
    while i < left.len() || j < right.len()
        invariant
            i <= left.len(),
            j <= right.len(),
            sorted_by(left@, sweep_ordering()),
            sorted_by(right@, sweep_ordering()),
            sorted_by(out@, sweep_ordering()),
            out@.to_multiset() =~= left@.subrange(0, i as int).to_multiset().add(
                right@.subrange(0, j as int).to_multiset(),
            ),
            forall|k: int|
                0 <= k < out.len() && i < left.len() ==> comes_before(
                    #[trigger] out[k],
                    left[i as int],
                ),
            forall|k: int|
                0 <= k < out.len() && j < right.len() ==> comes_before(
                    #[trigger] out[k],
                    right[j as int],
                ),
        decreases left.len() - i + right.len() - j,
    {
        let from_left = if j >= right.len() {
            true
        } else if i >= left.len() {
            false
        } else {
            precedes(&left[i], &right[j])
        };
        let ghost before = out@;
        if from_left {
            let item = left[i];
            assert(left@.subrange(0, i + 1) =~= left@.subrange(0, i as int).push(item));
            assert(i + 1 < left.len() ==> sweep_ordering()(left[i as int], left[i + 1]));
            out.push(item);
            i += 1;
            proof {
                let taken = left@.subrange(0, i - 1);
                assert(out@ == before.push(item));
                assert(left@.subrange(0, i as int) == taken.push(item));
                vstd::seq_lib::to_multiset_build(before, item);
                vstd::seq_lib::to_multiset_build(taken, item);
            }
        } else {
            let item = right[j];
            assert(right@.subrange(0, j + 1) =~= right@.subrange(0, j as int).push(item));
            assert(j + 1 < right.len() ==> sweep_ordering()(right[j as int], right[j + 1]));
            out.push(item);
            j += 1;
            proof {
                let taken = right@.subrange(0, j - 1);
                assert(out@ == before.push(item));
                assert(right@.subrange(0, j as int) == taken.push(item));
                vstd::seq_lib::to_multiset_build(before, item);
                vstd::seq_lib::to_multiset_build(taken, item);
            }
        }
        assert forall|a: int, b: int| 0 <= a < b < out.len() implies #[trigger] sweep_ordering()(
            out[a],
            out[b],
        ) by {
            if b < before.len() {
                assert(sweep_ordering()(before[a], before[b]));
            } else {
                assert(comes_before(before[a], out[b]));
            }
        }
    }
    assert(left@.subrange(0, i as int) =~= left@);
    assert(right@.subrange(0, j as int) =~= right@);
    out
}

/// An ordered copy of the part of `v` from `start` up to `end`.
fn sorted_part(v: &Vec<Interval>, start: usize, end: usize) -> (out: Vec<Interval>)
    requires
        start <= end <= v.len(),
    ensures
        sorted_by(out@, sweep_ordering()),
        out@.to_multiset() =~= v@.subrange(start as int, end as int).to_multiset(),
    decreases end - start,
{
    if end - start <= 1 {
        let mut out: Vec<Interval> = Vec::new();
        if end - start == 1 {
            out.push(v[start]);
        }
        assert(out@ =~= v@.subrange(start as int, end as int));
        out
    } else {
        let mid = start + (end - start) / 2;
        let left = sorted_part(v, start, mid);
        let right = sorted_part(v, mid, end);
        proof {
            let a = v@.subrange(start as int, mid as int);
            let b = v@.subrange(mid as int, end as int);
            assert(v@.subrange(start as int, end as int) =~= a + b);
            lemma_multiset_commutative(a, b);
        }
        merge(&left, &right)
    }
}

/// The intervals in the order of the sweep.
pub fn sort_intervals(v: &Vec<Interval>) -> (out: Vec<Interval>)
    ensures
        out@ == v@.sort_by(sweep_ordering()),
{
    let out = sorted_part(v, 0, v.len());
    proof {
        assert(v@.subrange(0, v.len() as int) =~= v@);
        lemma_sweep_ordering_total();
        v@.lemma_sort_by_ensures(sweep_ordering());
        lemma_sorted_unique(out@, v@.sort_by(sweep_ordering()), sweep_ordering());
    }
    out
}

/// Past the first later interval that lies wholly to the right of the
/// interval at place `i`, no further one reaches it.
pub proof fn lemma_row_stops(order: Seq<Interval>, i: int, j: int, n: int)
    requires
        sorted_by(order, sweep_ordering()),
        0 <= i < j < n <= order.len(),
        order[i].hi < order[j].lo,
    ensures
        row(order, i, n) == row(order, i, j),
    decreases n - j,
{
    if n > j + 1 {
        lemma_row_stops(order, i, j, n - 1);
    }
    let last = n - 1;
    if j < last {
        assert(sweep_ordering()(order[j], order[last]));
    }
    assert(order[j].lo <= order[last].lo);
    assert(row(order, i, n) == row(order, i, n - 1));
    if n == j + 1 {
        assert(row(order, i, n - 1) == row(order, i, j));
    }
}

/// The candidate pairs of a sweep over intervals in sweep order: for each
/// interval, the later ones up to the first that lies wholly to its right.
pub fn candidate_pairs(order: &Vec<Interval>) -> (pairs: Vec<(usize, usize)>)
    requires
        sorted_by(order@, sweep_ordering()),
    ensures
        pairs@ == candidates(order@),
{
    let n = order.len();
    let mut pairs: Vec<(usize, usize)> = Vec::new();
    let mut i: usize = 0;
    while i < n
        invariant
            n == order.len(),
            i <= n,
            sorted_by(order@, sweep_ordering()),
            pairs@ == rows(order@, i as int),
        decreases n - i,
    {
        let mut j: usize = i + 1;
        assert(row(order@, i as int, j as int) =~= Seq::<(usize, usize)>::empty());
        assert(pairs@ =~= rows(order@, i as int) + row(order@, i as int, j as int));
        while j < n
            invariant_except_break
                i < j <= n,
                pairs@ == rows(order@, i as int) + row(order@, i as int, j as int),
            invariant
                n == order.len(),
                i < n,
                sorted_by(order@, sweep_ordering()),
            ensures
                pairs@ == rows(order@, i as int) + row(order@, i as int, n as int),
            decreases n - j,
        {
            if order[i].hi < order[j].lo {
                proof {
                    lemma_row_stops(order@, i as int, j as int, n as int);
                }
                break ;
            }
            let a = order[i].index;
            let b = order[j].index;
            let pair = if a < b {
                (a, b)
            } else {
                (b, a)
            };
            assert(pair == pair_of(order[i as int], order[j as int]));
            pairs.push(pair);
            j += 1;
            assert(pairs@ =~= rows(order@, i as int) + row(order@, i as int, j as int));
        }
        i += 1;
    }
    pairs
}

/// The sweep order holds each projection exactly once: it has the length of
/// the store, is ordered, each of its entries is the projection of the disk
/// that it names, each disk's projection occurs in it, and no entry occurs
/// twice.
pub proof fn lemma_sweep_order_permutes(balls: Seq<Ball>)
    requires
        balls.len() <= usize::MAX,
    ensures
        sweep_order(balls).len() == balls.len(),
        sorted_by(sweep_order(balls), sweep_ordering()),
        forall|k: int|
            0 <= k < balls.len() ==> {
                let e = #[trigger] sweep_order(balls)[k];
                e.index < balls.len() && e == projection(balls[e.index as int], e.index as int)
            },
        forall|m: int|
            0 <= m < balls.len() ==> sweep_order(balls).contains(
                #[trigger] projection(balls[m], m),
            ),
        sweep_order(balls).no_duplicates(),
{
    broadcast use group_to_multiset_ensures;

    let p = projections(balls);
    let o = sweep_order(balls);
    lemma_sweep_ordering_total();
    p.lemma_sort_by_ensures(sweep_ordering());
    assert(p.to_multiset() == o.to_multiset());
    vstd::seq_lib::to_multiset_len(p);
    vstd::seq_lib::to_multiset_len(o);
    assert(o.len() == p.len());
    assert forall|k: int| 0 <= k < balls.len() implies {
        let e = #[trigger] o[k];
        e.index < balls.len() && e == projection(balls[e.index as int], e.index as int)
    } by {
        let e = o[k];
        assert(o.contains(e));
        assert(p.contains(e));
        let m = choose|m: int| 0 <= m < p.len() && p[m] == e;
        assert(e.index == m);
    }
    assert forall|m: int| 0 <= m < balls.len() implies o.contains(
        #[trigger] projection(balls[m], m),
    ) by {
        assert(p[m] == projection(balls[m], m));
        assert(p.contains(p[m]));
        assert(p.to_multiset().count(p[m]) > 0);
    }
    assert forall|a: int, b: int| 0 <= a < p.len() && 0 <= b < p.len() && a != b implies p[a]
        != p[b] by {
        assert(p[a].index == a && p[b].index == b);
    }
    p.lemma_multiset_has_no_duplicates();
    o.lemma_multiset_has_no_duplicates_conv();
}

/// Each pair that a row holds is made of indices that the intervals carry.
pub proof fn lemma_row_in_bounds(order: Seq<Interval>, i: int, j: int, n: int)
    requires
        0 <= i < order.len(),
        j <= order.len(),
        forall|k: int| 0 <= k < order.len() ==> (#[trigger] order[k]).index < n,
    ensures
        forall|t: int|
            0 <= t < row(order, i, j).len() ==> (#[trigger] row(order, i, j)[t]).0 < n && row(
                order,
                i,
                j,
            )[t].1 < n,
    decreases j,
{
    if j > i + 1 && j > 0 {
        lemma_row_in_bounds(order, i, j - 1, n);
        assert(order[i].index < n && order[j - 1].index < n);
        let rest = row(order, i, j - 1);
        assert forall|t: int| 0 <= t < row(order, i, j).len() implies (#[trigger] row(
            order,
            i,
            j,
        )[t]).0 < n && row(order, i, j)[t].1 < n by {
            if t < rest.len() {
                assert(row(order, i, j)[t] == rest[t]);
            }
        }
    }
}

/// Each candidate pair is made of indices that the intervals carry.
pub proof fn lemma_rows_in_bounds(order: Seq<Interval>, i: int, n: int)
    requires
        i <= order.len(),
        forall|k: int| 0 <= k < order.len() ==> (#[trigger] order[k]).index < n,
    ensures
        forall|t: int|
            0 <= t < rows(order, i).len() ==> (#[trigger] rows(order, i)[t]).0 < n && rows(
                order,
                i,
            )[t].1 < n,
    decreases i,
{
    if i > 0 {
        lemma_rows_in_bounds(order, i - 1, n);
        lemma_row_in_bounds(order, i - 1, order.len() as int, n);
        let head = rows(order, i - 1);
        let tail = row(order, i - 1, order.len() as int);
        assert forall|t: int| 0 <= t < rows(order, i).len() implies (#[trigger] rows(
            order,
            i,
        )[t]).0 < n && rows(order, i)[t].1 < n by {
            if t < head.len() {
                assert(rows(order, i)[t] == head[t]);
            } else {
                assert(rows(order, i)[t] == tail[t - head.len()]);
            }
        }
    }
}

} // verus!
