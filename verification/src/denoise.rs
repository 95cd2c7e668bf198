//! Drop stray taps before they become symbols.
//!
//! The pen is read below the notes application, so everything the pen does is captured, taps on a
//! toolbar among it. Those arrive as tiny strokes. Dropping small strokes would be wrong: a
//! decimal point and the dot on an `i` are as small as a stray tap, and a correction interface
//! can fix a wrong symbol but cannot bring back one that was silently deleted.
//!
//! What separates a tap from a dot is its neighbours. So a stroke is only discarded when it is
//! both far smaller than the median stroke and further from every other stroke than most of a
//! symbol's width. Distance is measured from point to point, not from box to box, because the box
//! of a selection lasso encloses the page; the scale is the median stroke, which one giant lasso
//! does not move.
use crate::float::{num, F32};
use crate::segment::median;
use crate::stroke::{grow_all, BBox, Point, Stroke, EPSILON, LARGEST, SMALLEST};
use vstd::prelude::*;

verus! {

/// A stroke this much smaller than the median is a candidate for noise: 0.25.
pub const NOISE_MAX_SIZE: u32 = 0x3e80_0000;

/// It is only discarded if nothing else comes this close to it: 0.8.
pub const NOISE_MIN_GAP: u32 = 0x3f4c_cccd;

/// The diagonal of a stroke's box.
pub open spec fn diagonal_of(points: Seq<Point>) -> F32 {
    let b = crate::stroke::hull(crate::stroke::void_box(), points);
    b.max_x.minus(b.min_x).hypot(b.max_y.minus(b.min_y))
}

/// The diagonals of the chosen strokes.
pub open spec fn diagonals(ink: Seq<Seq<Point>>, items: Seq<int>) -> Seq<F32> {
    Seq::new(items.len(), |n: int| diagonal_of(ink[items[n]]))
}

/// The scale of the writing: the median diagonal.
pub open spec fn scale_of(ink: Seq<Seq<Point>>) -> F32 {
    crate::segment::middle(diagonals(ink, crate::segment::live(ink, ink.len())))
}

/// The smaller of `start` and the distances from `p` to each of the points.
pub open spec fn nearest_to(start: F32, p: Point, points: Seq<Point>) -> F32
    decreases points.len(),
{
    if points.len() == 0 {
        start
    } else {
        let q = points.last();
        nearest_to(start, p, points.drop_last()).min(p.x.minus(q.x).hypot(p.y.minus(q.y)))
    }
}

/// The smallest distance between a point of `a` and one of `b`.
pub open spec fn nearest(a: Seq<Point>, b: Seq<Point>) -> F32
    decreases a.len(),
{
    if a.len() == 0 {
        num(LARGEST)
    } else {
        nearest_to(nearest(a.drop_last(), b), a.last(), b)
    }
}

/// The smallest distance between stroke `i` and another of the strokes in `others`.
pub open spec fn isolation(ink: Seq<Seq<Point>>, i: int, others: Seq<int>) -> F32
    decreases others.len(),
{
    if others.len() == 0 {
        num(LARGEST)
    } else {
        let before = isolation(ink, i, others.drop_last());
        if others.last() == i {
            before
        } else {
            before.min(nearest(ink[i], ink[others.last()]))
        }
    }
}

/// Is stroke `i` large enough to be a symbol, whatever it is?
pub open spec fn large(ink: Seq<Seq<Point>>, i: int) -> bool {
    diagonal_of(ink[i]).ge(num(NOISE_MAX_SIZE).times(scale_of(ink)))
}

/// Does stroke `i` come close to another stroke?
pub open spec fn near_writing(ink: Seq<Seq<Point>>, i: int) -> bool {
    isolation(ink, i, crate::segment::live(ink, ink.len())).lt(
        num(NOISE_MIN_GAP).times(scale_of(ink)),
    )
}

/// The strokes among `items` that belong to the writing.
pub open spec fn belonging(ink: Seq<Seq<Point>>, items: Seq<int>) -> Seq<int>
    decreases items.len(),
{
    if items.len() == 0 {
        Seq::empty()
    } else {
        let before = belonging(ink, items.drop_last());
        let i = items.last();
        if large(ink, i) || near_writing(ink, i) {
            before.push(i)
        } else {
            before
        }
    }
}

/// Is there no scale to judge by: a lone stroke, or nothing but dots?
pub open spec fn unjudged(ink: Seq<Seq<Point>>) -> bool {
    crate::segment::live(ink, ink.len()).len() < 2 || scale_of(ink).le(num(EPSILON))
}

/// The indices of the strokes that are not noise. Empty strokes are.
pub open spec fn kept(ink: Seq<Seq<Point>>) -> Seq<int> {
    let items = crate::segment::live(ink, ink.len());
    if unjudged(ink) {
        items
    } else {
        belonging(ink, items)
    }
}

/// The chosen trajectories.
pub open spec fn selected(ink: Seq<Seq<Point>>, items: Seq<int>) -> Seq<Seq<Point>> {
    Seq::new(items.len(), |n: int| ink[items[n]])
}

/// The drawing without its noise.
pub open spec fn cleaned(ink: Seq<Seq<Point>>) -> Seq<Seq<Point>> {
    selected(ink, kept(ink))
}

fn diagonal(s: &Stroke) -> (r: F32)
    ensures
        r == diagonal_of(s@),
{
    let void = BBox {
        min_x: num(LARGEST),
        min_y: num(LARGEST),
        max_x: num(SMALLEST),
        max_y: num(SMALLEST),
    };
    let b = grow_all(void, &s.points);
    b.max_x.minus(b.min_x).hypot(b.max_y.minus(b.min_y))
}

fn nearest_point_distance(a: &Stroke, b: &Stroke) -> (r: F32)
    ensures
        r == nearest(a@, b@),
{
    let mut best: F32 = num(LARGEST);
    let mut i: usize = 0;
    while i < a.points.len()
        invariant
            i <= a.points.len(),
            best == nearest(a@.take(i as int), b@),
        decreases a.points.len() - i,
    {
        let p = a.points[i];
        let ghost start = best;
        let mut j: usize = 0;
        while j < b.points.len()
            invariant
                j <= b.points.len(),
                best == nearest_to(start, p, b@.take(j as int)),
            decreases b.points.len() - j,
        {
            let q = b.points[j];
            assert(b@.take(j + 1).drop_last() =~= b@.take(j as int));
            best = best.min(p.x.minus(q.x).hypot(p.y.minus(q.y)));
            j = j + 1;
        }
        proof {
            assert(b@.take(j as int) =~= b@);
            assert(a@.take(i + 1).drop_last() =~= a@.take(i as int));
        }
        i = i + 1;
    }
    assert(a@.take(i as int) =~= a@);
    best
}

/// The indices of the non-empty strokes.
fn find_live(strokes: &[Stroke]) -> (r: Vec<usize>)
    ensures
        crate::sort::as_ints(r@) == crate::segment::live(
            crate::stroke::trajectories(strokes@),
            strokes@.len(),
        ),
        forall|n: int| 0 <= n < r.len() ==> #[trigger] r[n] < strokes@.len(),
{
    let ghost ink = crate::stroke::trajectories(strokes@);
    let mut out: Vec<usize> = Vec::new();
    let mut i: usize = 0;
    assert(crate::sort::as_ints(out@) =~= Seq::<int>::empty());
    while i < strokes.len()
        invariant
            i <= strokes.len(),
            ink == crate::stroke::trajectories(strokes@),
            crate::sort::as_ints(out@) == crate::segment::live(ink, i as nat),
            forall|n: int| 0 <= n < out.len() ==> #[trigger] out[n] < strokes@.len(),
        decreases strokes.len() - i,
    {
        assert(ink[i as int] == strokes[i as int]@);
        if strokes[i].points.len() > 0 {
            proof {
                assert(crate::sort::as_ints(out@.push(i)) =~= crate::sort::as_ints(out@).push(
                    i as int,
                ));
            }
            out.push(i);
        }
        i = i + 1;
    }
    out
}

pub(crate) fn find_diagonals(strokes: &[Stroke], items: &Vec<usize>) -> (r: Vec<F32>)
    requires
        forall|n: int| 0 <= n < items.len() ==> #[trigger] items[n] < strokes@.len(),
    ensures
        r@ == diagonals(crate::stroke::trajectories(strokes@), crate::sort::as_ints(items@)),
{
    let ghost ink = crate::stroke::trajectories(strokes@);
    let ghost want = diagonals(ink, crate::sort::as_ints(items@));
    let mut out: Vec<F32> = Vec::new();
    let mut n: usize = 0;
    while n < items.len()
        invariant
            n <= items.len(),
            ink == crate::stroke::trajectories(strokes@),
            want == diagonals(ink, crate::sort::as_ints(items@)),
            forall|n: int| 0 <= n < items.len() ==> #[trigger] items[n] < strokes@.len(),
            out@ == want.take(n as int),
        decreases items.len() - n,
    {
        let d = diagonal(&strokes[items[n]]);
        assert(d == want[n as int]);
        assert(want.take(n + 1) =~= want.take(n as int).push(d));
        out.push(d);
        n = n + 1;
    }
    assert(want.take(n as int) =~= want);
    out
}

pub(crate) fn find_isolation(strokes: &[Stroke], i: usize, others: &Vec<usize>) -> (r: F32)
    requires
        i < strokes@.len(),
        forall|n: int| 0 <= n < others.len() ==> #[trigger] others[n] < strokes@.len(),
    ensures
        r == isolation(
            crate::stroke::trajectories(strokes@),
            i as int,
            crate::sort::as_ints(others@),
        ),
{
    let ghost ink = crate::stroke::trajectories(strokes@);
    let ghost all = crate::sort::as_ints(others@);
    let mut gap: F32 = num(LARGEST);
    let mut n: usize = 0;
    while n < others.len()
        invariant
            n <= others.len(),
            i < strokes@.len(),
            ink == crate::stroke::trajectories(strokes@),
            all == crate::sort::as_ints(others@),
            forall|n: int| 0 <= n < others.len() ==> #[trigger] others[n] < strokes@.len(),
            gap == isolation(ink, i as int, all.take(n as int)),
        decreases others.len() - n,
    {
        let j = others[n];
        assert(all.take(n + 1).drop_last() =~= all.take(n as int));
        assert(all.take(n + 1).last() == j);
        if j != i {
            gap = gap.min(nearest_point_distance(&strokes[i], &strokes[j]));
        }
        n = n + 1;
    }
    assert(all.take(n as int) =~= all);
    gap
}

/// Which strokes survive, as indices into the input. The indices are what callers need: a symbol
/// refers back to the strokes that the user drew, not to offsets into a filtered copy.
pub fn keep_indices(strokes: &[Stroke]) -> (r: Vec<usize>)
    ensures
        crate::sort::as_ints(r@) == kept(crate::stroke::trajectories(strokes@)),
        forall|n: int| 0 <= n < r.len() ==> #[trigger] r[n] < strokes@.len(),
{
    let ghost ink = crate::stroke::trajectories(strokes@);
    let live = find_live(strokes);
    if live.len() < 2 {
        return live;
    }
    let diags = find_diagonals(strokes, &live);
    let scale = median(&diags);
    if scale.le(num(EPSILON)) {
        return live;
    }
    let ghost all = crate::sort::as_ints(live@);
    let mut out: Vec<usize> = Vec::new();
    let mut n: usize = 0;
    assert(crate::sort::as_ints(out@) =~= belonging(ink, all.take(0)));
    while n < live.len()
        invariant
            n <= live.len(),
            ink == crate::stroke::trajectories(strokes@),
            all == crate::sort::as_ints(live@),
            all == crate::segment::live(ink, ink.len()),
            scale == scale_of(ink),
            diags@ == diagonals(ink, all),
            forall|n: int| 0 <= n < live.len() ==> #[trigger] live[n] < strokes@.len(),
            crate::sort::as_ints(out@) == belonging(ink, all.take(n as int)),
            forall|n: int| 0 <= n < out.len() ==> #[trigger] out[n] < strokes@.len(),
        decreases live.len() - n,
    {
        let i = live[n];
        assert(all.take(n + 1).drop_last() =~= all.take(n as int));
        assert(all.take(n + 1).last() == i);
        let keep = if diags[n].ge(num(NOISE_MAX_SIZE).times(scale)) {
            true
        } else {
            find_isolation(strokes, i, &live).lt(num(NOISE_MIN_GAP).times(scale))
        };
        if keep {
            proof {
                assert(crate::sort::as_ints(out@.push(i)) =~= crate::sort::as_ints(out@).push(
                    i as int,
                ));
            }
            out.push(i);
        }
        n = n + 1;
    }
    assert(all.take(n as int) =~= all);
    out
}

/// The strokes with the given indices.
pub(crate) fn pick(strokes: &[Stroke], items: &Vec<usize>) -> (r: Vec<Stroke>)
    requires
        forall|n: int| 0 <= n < items.len() ==> #[trigger] items[n] < strokes@.len(),
    ensures
        crate::stroke::trajectories(r@) == selected(
            crate::stroke::trajectories(strokes@),
            crate::sort::as_ints(items@),
        ),
        r.len() == items.len(),
{
    let ghost ink = crate::stroke::trajectories(strokes@);
    let ghost want = selected(ink, crate::sort::as_ints(items@));
    let mut out: Vec<Stroke> = Vec::new();
    let mut n: usize = 0;
    assert(crate::stroke::trajectories(out@) =~= want.take(0));
    while n < items.len()
        invariant
            n <= items.len(),
            ink == crate::stroke::trajectories(strokes@),
            want == selected(ink, crate::sort::as_ints(items@)),
            forall|n: int| 0 <= n < items.len() ==> #[trigger] items[n] < strokes@.len(),
            crate::stroke::trajectories(out@) == want.take(n as int),
            out.len() == n,
        decreases items.len() - n,
    {
        let s = strokes[items[n]].clone();
        proof {
            assert(crate::stroke::trajectories(out@.push(s)) =~= crate::stroke::trajectories(
                out@,
            ).push(s@));
            assert(want.take(n + 1) =~= want.take(n as int).push(s@));
        }
        out.push(s);
        n = n + 1;
    }
    assert(want.take(n as int) =~= want);
    out
}

/// Remove stray taps. Everything else, every deliberate dot among it, is kept.
pub fn denoise(strokes: &[Stroke]) -> (r: Vec<Stroke>)
    ensures
        crate::stroke::trajectories(r@) == cleaned(crate::stroke::trajectories(strokes@)),
{
    let keep = keep_indices(strokes);
    pick(strokes, &keep)
}

// ---------------------------------------------------------------------------------------------
// Laws
// ---------------------------------------------------------------------------------------------
proof fn lemma_belonging(ink: Seq<Seq<Point>>, items: Seq<int>)
    requires
        forall|i: int, j: int| 0 <= i < j < items.len() ==> items[i] < items[j],
    ensures
        forall|n: int|
            0 <= n < belonging(ink, items).len() ==> items.contains(
                #[trigger] belonging(ink, items)[n],
            ),
        forall|i: int, j: int|
            0 <= i < j < belonging(ink, items).len() ==> belonging(ink, items)[i] < belonging(
                ink,
                items,
            )[j],
        forall|n: int|
            0 <= n < items.len() && (large(ink, #[trigger] items[n]) || near_writing(
                ink,
                items[n],
            )) ==> belonging(ink, items).contains(items[n]),
        forall|n: int|
            0 <= n < belonging(ink, items).len() ==> large(
                ink,
                #[trigger] belonging(ink, items)[n],
            ) || near_writing(ink, belonging(ink, items)[n]),
    decreases items.len(),
{
    if items.len() > 0 {
        let rest = items.drop_last();
        let before = belonging(ink, rest);
        let now = belonging(ink, items);
        lemma_belonging(ink, rest);
        assert forall|n: int| 0 <= n < now.len() implies items.contains(#[trigger] now[n]) by {
            if n < before.len() {
                assert(now[n] == before[n]);
                let k = choose|k: int| 0 <= k < rest.len() && rest[k] == before[n];
                assert(items[k] == now[n]);
            } else {
                assert(items[items.len() - 1] == now[n]);
            }
        }
        assert forall|i: int, j: int| 0 <= i < j < now.len() implies now[i] < now[j] by {
            assert(now[i] == before[i]);
            let k = choose|k: int| 0 <= k < rest.len() && rest[k] == before[i];
            assert(items[k] == now[i]);
            if j < before.len() {
                assert(now[j] == before[j]);
            }
        }
        assert forall|n: int|
            0 <= n < items.len() && (large(ink, #[trigger] items[n]) || near_writing(
                ink,
                items[n],
            )) implies now.contains(items[n]) by {
            if n < rest.len() {
                assert(rest[n] == items[n]);
                let k = choose|k: int| 0 <= k < before.len() && before[k] == rest[n];
                assert(now[k] == items[n]);
            } else {
                assert(now[before.len() as int] == items[n]);
            }
        }
        assert forall|n: int| 0 <= n < now.len() implies large(ink, #[trigger] now[n])
            || near_writing(ink, now[n]) by {
            if n < before.len() {
                assert(now[n] == before[n]);
            }
        }
    }
}

/// The surviving strokes are strokes of the input that are not empty, in their order, each once.
pub proof fn law_survivors_keep_their_order(ink: Seq<Seq<Point>>)
    ensures
        forall|n: int|
            0 <= n < kept(ink).len() ==> 0 <= #[trigger] kept(ink)[n] < ink.len()
                && ink[kept(ink)[n]].len() > 0,
        forall|i: int, j: int| 0 <= i < j < kept(ink).len() ==> kept(ink)[i] < kept(ink)[j],
{
    let items = crate::segment::live(ink, ink.len());
    crate::segment::lemma_live(ink, ink.len());
    lemma_belonging(ink, items);
    assert forall|n: int| 0 <= n < kept(ink).len() implies 0 <= #[trigger] kept(ink)[n] < ink.len()
        && ink[kept(ink)[n]].len() > 0 by {
        if !unjudged(ink) {
            assert(items.contains(belonging(ink, items)[n]));
        }
    }
}

/// A stroke is discarded only if it is empty, or both far smaller than the median stroke and far
/// from every other one; where there is no scale to judge by, none but the empty is.
pub proof fn law_only_small_and_isolated_strokes_go(ink: Seq<Seq<Point>>, i: int)
    requires
        0 <= i < ink.len(),
    ensures
        kept(ink).contains(i) <==> ink[i].len() > 0 && (unjudged(ink) || large(ink, i)
            || near_writing(ink, i)),
{
    let items = crate::segment::live(ink, ink.len());
    crate::segment::lemma_live(ink, ink.len());
    lemma_belonging(ink, items);
    law_survivors_keep_their_order(ink);
    if ink[i].len() > 0 {
        assert(items.contains(i));
        let n = choose|n: int| 0 <= n < items.len() && items[n] == i;
        assert(large(ink, items[n]) || near_writing(ink, items[n]) || !large(ink, items[n]));
    }
    if kept(ink).contains(i) {
        let n = choose|n: int| 0 <= n < kept(ink).len() && kept(ink)[n] == i;
        if !unjudged(ink) {
            assert(belonging(ink, items)[n] == i);
        }
    }
}

// ---------------------------------------------------------------------------------------------
// What a stray tap is
// ---------------------------------------------------------------------------------------------
/// Are all coordinates finite?
pub open spec fn finite_ink(ink: Seq<Seq<Point>>) -> bool {
    forall|i: int, k: int|
        0 <= i < ink.len() && 0 <= k < ink[i].len() ==> (#[trigger] ink[i][k]).x.finite()
            && ink[i][k].y.finite()
}

/// How large a stroke is: from corner to corner of its box.
pub open spec fn corner_to_corner(points: Seq<Point>) -> F32 {
    let b = crate::stroke::extent(points);
    b.max_x.minus(b.min_x).hypot(b.max_y.minus(b.min_y))
}

/// The middle one of the sizes of the strokes that have a point.
pub open spec fn usual_size(ink: Seq<Seq<Point>>) -> F32 {
    crate::segment::middle(
        Seq::new(ink.len(), |i: int| i).filter(|i: int| ink[i].len() > 0).map_values(
            |i: int| corner_to_corner(ink[i]),
        ),
    )
}

/// Are point `k` of stroke `i` and point `l` of stroke `j` closer than `d`?
pub open spec fn points_close(
    ink: Seq<Seq<Point>>,
    i: int,
    k: int,
    j: int,
    l: int,
    d: F32,
) -> bool {
    ink[i][k].x.minus(ink[j][l].x).hypot(ink[i][k].y.minus(ink[j][l].y)).lt(d)
}

/// Does a point of stroke `i` come closer than `d` to a point of another stroke?
pub open spec fn has_company(ink: Seq<Seq<Point>>, i: int, d: F32) -> bool {
    exists|k: int, j: int, l: int|
        0 <= k < ink[i].len() && 0 <= j < ink.len() && j != i && 0 <= l < ink[j].len()
            && #[trigger] points_close(ink, i, k, j, l, d)
}

proof fn lemma_void(points: Seq<Point>)
    requires
        points.len() > 0,
        forall|k: int| 0 <= k < points.len() ==> (#[trigger] points[k]).x.finite()
            && points[k].y.finite(),
    ensures
        crate::stroke::hull(crate::stroke::void_box(), points) == crate::stroke::extent(points),
    decreases points.len(),
{
    let p = points[0];
    reveal(F32::min_spec);
    reveal(F32::max_spec);
    reveal(F32::lt_spec);
    if points.len() == 1 {
        assert(points.drop_last() =~= Seq::<Point>::empty());
        reveal_with_fuel(crate::stroke::hull, 2);
    } else {
        let before = points.drop_last();
        assert(before[0] == p);
        assert forall|k: int| 0 <= k < before.len() implies (#[trigger] before[k]).x.finite()
            && before[k].y.finite() by {
            assert(before[k] == points[k]);
        }
        lemma_void(before);
    }
}

proof fn lemma_lives(ink: Seq<Seq<Point>>, n: nat)
    requires
        n <= ink.len(),
    ensures
        crate::segment::live(ink, n) == Seq::new(n, |i: int| i).filter(|i: int| ink[i].len() > 0),
    decreases n,
{
    reveal(Seq::filter);
    let all = Seq::new(n, |i: int| i);
    if n > 0 {
        lemma_lives(ink, (n - 1) as nat);
        assert(all.drop_last() =~= Seq::new((n - 1) as nat, |i: int| i));
    }
    assert(crate::segment::live(ink, n) =~= all.filter(|i: int| ink[i].len() > 0));
}

proof fn lemma_usual_size(ink: Seq<Seq<Point>>)
    requires
        finite_ink(ink),
    ensures
        scale_of(ink) == usual_size(ink),
        forall|i: int|
            0 <= i < ink.len() && ink[i].len() > 0 ==> diagonal_of(#[trigger] ink[i])
                == corner_to_corner(ink[i]),
{
    let items = crate::segment::live(ink, ink.len());
    crate::segment::lemma_live(ink, ink.len());
    lemma_lives(ink, ink.len());
    assert forall|i: int| 0 <= i < ink.len() && ink[i].len() > 0 implies diagonal_of(
        #[trigger] ink[i],
    ) == corner_to_corner(ink[i]) by {
        assert forall|k: int| 0 <= k < ink[i].len() implies (#[trigger] ink[i][k]).x.finite()
            && ink[i][k].y.finite() by {}
        lemma_void(ink[i]);
    }
    let want = items.map_values(|i: int| corner_to_corner(ink[i]));
    assert forall|n: int| 0 <= n < items.len() implies #[trigger] diagonals(ink, items)[n]
        == want[n] by {
        let v = ink[items[n]];
        assert(0 <= items[n] < ink.len() && ink[items[n]].len() > 0);
    }
    assert(diagonals(ink, items) =~= want);
}

proof fn lemma_smaller(a: F32, b: F32, d: F32)
    requires
        !a.nan(),
        !b.nan(),
    ensures
        a.min(b).lt(d) == (a.lt(d) || b.lt(d)),
        !a.min(b).nan(),
{
    reveal(F32::min_spec);
    reveal(F32::lt_spec);
}

proof fn lemma_distance(p: Point, q: Point)
    requires
        p.x.finite() && p.y.finite() && q.x.finite() && q.y.finite(),
    ensures
        !p.x.minus(q.x).hypot(p.y.minus(q.y)).nan(),
{
    crate::float::monotone::lemma_opposite(q.x);
    crate::float::monotone::lemma_opposite(q.y);
    crate::float::monotone::lemma_sum_monotone(p.x, q.x.neg(), p.x, q.x.neg());
    crate::float::monotone::lemma_sum_monotone(p.y, q.y.neg(), p.y, q.y.neg());
    crate::float::bound::lemma_hypotenuse(p.x.minus(q.x), p.y.minus(q.y));
    reveal(F32::le_spec);
}

proof fn lemma_nearest_to(start: F32, p: Point, points: Seq<Point>, d: F32)
    requires
        !start.nan(),
        p.x.finite() && p.y.finite(),
        forall|k: int| 0 <= k < points.len() ==> (#[trigger] points[k]).x.finite()
            && points[k].y.finite(),
    ensures
        !nearest_to(start, p, points).nan(),
        nearest_to(start, p, points).lt(d) <==> start.lt(d) || exists|l: int|
            0 <= l < points.len() && p.x.minus((#[trigger] points[l]).x).hypot(
                p.y.minus(points[l].y),
            ).lt(d),
    decreases points.len(),
{
    if points.len() > 0 {
        let before = points.drop_last();
        let last = points.len() - 1;
        let q = points[last];
        assert forall|k: int| 0 <= k < before.len() implies (#[trigger] before[k]).x.finite()
            && before[k].y.finite() by {
            assert(before[k] == points[k]);
        }
        lemma_nearest_to(start, p, before, d);
        lemma_distance(p, q);
        lemma_smaller(nearest_to(start, p, before), p.x.minus(q.x).hypot(p.y.minus(q.y)), d);
        if exists|l: int|
            0 <= l < before.len() && p.x.minus((#[trigger] before[l]).x).hypot(
                p.y.minus(before[l].y),
            ).lt(d) {
            let l = choose|l: int|
                0 <= l < before.len() && p.x.minus((#[trigger] before[l]).x).hypot(
                    p.y.minus(before[l].y),
                ).lt(d);
            assert(points[l] == before[l]);
        }
        if exists|l: int|
            0 <= l < points.len() && p.x.minus((#[trigger] points[l]).x).hypot(
                p.y.minus(points[l].y),
            ).lt(d) {
            let l = choose|l: int|
                0 <= l < points.len() && p.x.minus((#[trigger] points[l]).x).hypot(
                    p.y.minus(points[l].y),
                ).lt(d);
            if l < last {
                assert(before[l] == points[l]);
            }
        }
    }
}

/// Does one of the first `n` points of stroke `i` come close to one of stroke `j`?
spec fn meets(ink: Seq<Seq<Point>>, i: int, n: int, j: int, d: F32) -> bool {
    exists|k: int, l: int|
        0 <= k < n && 0 <= l < ink[j].len() && #[trigger] points_close(ink, i, k, j, l, d)
}

proof fn lemma_nearest(ink: Seq<Seq<Point>>, i: int, n: int, j: int, d: F32)
    requires
        finite_ink(ink),
        0 <= i < ink.len(),
        0 <= j < ink.len(),
        0 <= n <= ink[i].len(),
    ensures
        !nearest(ink[i].take(n), ink[j]).nan(),
        nearest(ink[i].take(n), ink[j]).lt(d) <==> num(LARGEST).lt(d) || meets(ink, i, n, j, d),
    decreases n,
{
    let first = ink[i].take(n);
    if n > 0 {
        assert(first.drop_last() =~= ink[i].take(n - 1));
        assert(first.last() == ink[i][n - 1]);
        lemma_nearest(ink, i, n - 1, j, d);
        assert(ink[i][n - 1].x.finite());
        assert forall|k: int| 0 <= k < ink[j].len() implies (#[trigger] ink[j][k]).x.finite()
            && ink[j][k].y.finite() by {}
        let start = nearest(ink[i].take(n - 1), ink[j]);
        let p = ink[i][n - 1];
        lemma_nearest_to(start, p, ink[j], d);
        if nearest(first, ink[j]).lt(d) && !start.lt(d) {
            let l = choose|l: int|
                0 <= l < ink[j].len() && p.x.minus((#[trigger] ink[j][l]).x).hypot(
                    p.y.minus(ink[j][l].y),
                ).lt(d);
            assert(points_close(ink, i, n - 1, j, l, d));
        }
        if meets(ink, i, n, j, d) {
            let (k, l) = choose|k: int, l: int|
                0 <= k < n && 0 <= l < ink[j].len() && #[trigger] points_close(ink, i, k, j, l, d);
            if k < n - 1 {
                assert(meets(ink, i, n - 1, j, d));
            } else {
                assert(p.x.minus(ink[j][l].x).hypot(p.y.minus(ink[j][l].y)).lt(d));
            }
        }
        if meets(ink, i, n - 1, j, d) {
            let (k, l) = choose|k: int, l: int|
                0 <= k < n - 1 && 0 <= l < ink[j].len() && #[trigger] points_close(
                    ink,
                    i,
                    k,
                    j,
                    l,
                    d,
                );
            assert(points_close(ink, i, k, j, l, d));
        }
    }
}

proof fn lemma_isolation(ink: Seq<Seq<Point>>, i: int, others: Seq<int>, d: F32)
    requires
        finite_ink(ink),
        0 <= i < ink.len(),
        forall|n: int| 0 <= n < others.len() ==> 0 <= #[trigger] others[n] < ink.len(),
    ensures
        !isolation(ink, i, others).nan(),
        isolation(ink, i, others).lt(d) <==> num(LARGEST).lt(d) || exists|n: int|
            0 <= n < others.len() && #[trigger] others[n] != i && meets(
                ink,
                i,
                ink[i].len() as int,
                others[n],
                d,
            ),
    decreases others.len(),
{
    if others.len() > 0 {
        let rest = others.drop_last();
        let last = others.len() - 1;
        let j = others[last];
        assert forall|n: int| 0 <= n < rest.len() implies 0 <= #[trigger] rest[n] < ink.len() by {
            assert(rest[n] == others[n]);
        }
        lemma_isolation(ink, i, rest, d);
        lemma_nearest(ink, i, ink[i].len() as int, j, d);
        assert(ink[i].take(ink[i].len() as int) =~= ink[i]);
        lemma_smaller(isolation(ink, i, rest), nearest(ink[i], ink[j]), d);
        if exists|n: int|
            0 <= n < rest.len() && #[trigger] rest[n] != i && meets(
                ink,
                i,
                ink[i].len() as int,
                rest[n],
                d,
            ) {
            let n = choose|n: int|
                0 <= n < rest.len() && #[trigger] rest[n] != i && meets(
                    ink,
                    i,
                    ink[i].len() as int,
                    rest[n],
                    d,
                );
            assert(others[n] == rest[n]);
        }
        if exists|n: int|
            0 <= n < others.len() && #[trigger] others[n] != i && meets(
                ink,
                i,
                ink[i].len() as int,
                others[n],
                d,
            ) {
            let n = choose|n: int|
                0 <= n < others.len() && #[trigger] others[n] != i && meets(
                    ink,
                    i,
                    ink[i].len() as int,
                    others[n],
                    d,
                );
            if n < last {
                assert(rest[n] == others[n]);
            }
        }
    }
}

/// Of two strokes or more, one is dropped as a stray tap if and only if it is smaller than a quarter of
/// the usual size, and none of its points comes closer than 0.8 of that size to a point of another
/// stroke. A small stroke in company stays, and so does a large one by itself.
pub proof fn law_a_stray_tap_is_small_and_alone(ink: Seq<Seq<Point>>, i: int, other: int)
    requires
        finite_ink(ink),
        0 <= i < ink.len() && ink[i].len() > 0,
        0 <= other < ink.len() && ink[other].len() > 0 && other != i,
        !usual_size(ink).le(num(0x3400_0000)),
        num(0x3f4c_cccd).times(usual_size(ink)).finite(),
    ensures
        kept(ink).contains(i) <==> num(0x3e80_0000).times(usual_size(ink)).le(
            corner_to_corner(ink[i]),
        ) || has_company(ink, i, num(0x3f4c_cccd).times(usual_size(ink))),
{
    let items = crate::segment::live(ink, ink.len());
    let d = num(0x3f4c_cccd).times(usual_size(ink));
    lemma_usual_size(ink);
    crate::segment::lemma_live(ink, ink.len());
    assert(items.contains(i) && items.contains(other));
    law_only_small_and_isolated_strokes_go(ink, i);
    lemma_isolation(ink, i, items, d);
    assert(!num(LARGEST).lt(d)) by {
        reveal(F32::lt_spec);
    }
    if isolation(ink, i, items).lt(d) {
        let n = choose|n: int|
            0 <= n < items.len() && #[trigger] items[n] != i && meets(
                ink,
                i,
                ink[i].len() as int,
                items[n],
                d,
            );
        let (k, l) = choose|k: int, l: int|
            0 <= k < ink[i].len() && 0 <= l < ink[items[n]].len() && #[trigger] points_close(
                ink,
                i,
                k,
                items[n],
                l,
                d,
            );
        assert(points_close(ink, i, k, items[n], l, d));
    }
    if has_company(ink, i, d) {
        let (k, j, l) = choose|k: int, j: int, l: int|
            0 <= k < ink[i].len() && 0 <= j < ink.len() && j != i && 0 <= l < ink[j].len()
                && #[trigger] points_close(ink, i, k, j, l, d);
        assert(items.contains(j));
        let n = choose|n: int| 0 <= n < items.len() && items[n] == j;
        assert(meets(ink, i, ink[i].len() as int, items[n], d));
    }
    assert(!unjudged(ink)) by {
        let a = choose|n: int| 0 <= n < items.len() && items[n] == i;
        let b = choose|n: int| 0 <= n < items.len() && items[n] == other;
        assert(a != b);
    }
}

} // verus!
