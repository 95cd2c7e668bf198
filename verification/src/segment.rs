//! Strokes to symbols. Groups strokes into individual symbols by the proximity of their ink,
//! then orders the symbols from left to right.
//!
//! Clustering by proximity keeps a fraction's numerator, bar and denominator as separate symbols,
//! so that [`crate::structure`] can re-assemble them. It also keeps the crossing strokes of an
//! `x` or the dot and stem of an `i` together.
use crate::elementary::Fn2;
use crate::float::{num, F32};
use crate::sort::sort_indices;
use crate::stroke::{grow_all, BBox, Point, Stroke, EPSILON, ONE, TINY, TWO, ZERO};
use vstd::prelude::*;

pub mod bars;
pub mod touch;

verus! {

/// 0.35: strokes whose x-projections are disjoint get only this fraction of the merge threshold.
/// Side-by-side strokes must nearly touch to be one symbol.
pub const SIDE_BY_SIDE_TOUCH: u32 = 0x3eb3_3333;

/// 0.25: the merge threshold, as a fraction of the median stroke size.
pub const MERGE_FRACTION: u32 = 0x3e80_0000;

/// 2.5: a stroke with a larger aspect is a line, not a compact mark.
pub const LINE_ASPECT: u32 = 0x4020_0000;

/// `1e-12`: segments with a smaller cross product are parallel.
pub const PARALLEL: u32 = 0x2b8c_bccc;

// ---------------------------------------------------------------------------------------------
// Distances
// ---------------------------------------------------------------------------------------------
/// Chebyshev gap between two boxes: 0 where they overlap along a dimension.
pub open spec fn gap_of(a: BBox, b: BBox) -> F32 {
    let dx = a.min_x.minus(b.max_x).max(b.min_x.minus(a.max_x)).max(num(ZERO));
    let dy = a.min_y.minus(b.max_y).max(b.min_y.minus(a.max_y)).max(num(ZERO));
    dx.max(dy)
}

fn gap(a: &BBox, b: &BBox) -> (r: F32)
    ensures
        r == gap_of(*a, *b),
{
    let dx = a.min_x.minus(b.max_x).max(b.min_x.minus(a.max_x)).max(num(ZERO));
    let dy = a.min_y.minus(b.max_y).max(b.min_y.minus(a.max_y)).max(num(ZERO));
    dx.max(dy)
}

/// The gap along one dimension, between two stretches that hold `p` and `q`.
proof fn lemma_gap_along(p: F32, q: F32, a0: F32, a1: F32, b0: F32, b1: F32)
    requires
        p.finite() && q.finite() && a0.finite() && a1.finite() && b0.finite() && b1.finite(),
        a0.le(p) && p.le(a1),
        b0.le(q) && q.le(b1),
    ensures
        ({
            let d = a0.minus(b1).max(b0.minus(a1)).max(num(ZERO));
            !d.nan() && d.rank() <= p.minus(q).magnitude()
        }),
        !p.minus(q).nan(),
{
    crate::float::bound::lemma_difference_size(p, q);
    crate::float::monotone::lemma_units_ordered(a0, p);
    crate::float::monotone::lemma_units_ordered(p, a1);
    crate::float::monotone::lemma_units_ordered(b0, q);
    crate::float::monotone::lemma_units_ordered(q, b1);
    crate::float::monotone::lemma_opposite(p);
    crate::float::monotone::lemma_opposite(q);
    crate::float::monotone::lemma_opposite(a1);
    crate::float::monotone::lemma_opposite(b1);
    crate::float::monotone::lemma_sum_monotone(a0, b1.neg(), p, q.neg());
    crate::float::monotone::lemma_sum_monotone(b0, a1.neg(), q, p.neg());
    let (l, r) = (a0.minus(b1), b0.minus(a1));
    crate::float::order::lemma_min_max(l, r);
    crate::float::order::lemma_min_max(l.max(r), num(ZERO));
    reveal(F32::le_spec);
}

/// The gap between the boxes of two strokes of finite points is a lower bound on the distance
/// between any two of their samples.
pub proof fn law_the_gap_is_a_lower_bound(a: Seq<Point>, b: Seq<Point>, i: int, j: int)
    requires
        0 <= i < a.len(),
        0 <= j < b.len(),
        forall|k: int| 0 <= k < a.len() ==> (#[trigger] a[k]).x.finite() && a[k].y.finite(),
        forall|k: int| 0 <= k < b.len() ==> (#[trigger] b[k]).x.finite() && b[k].y.finite(),
    ensures
        gap_of(crate::stroke::extent(a), crate::stroke::extent(b)).le(
            a[i].x.minus(b[j].x).hypot(a[i].y.minus(b[j].y)),
        ),
{
    let (p, q) = (crate::stroke::extent(a), crate::stroke::extent(b));
    crate::stroke::law_extent_holds_every_point(a, i);
    crate::stroke::law_extent_holds_every_point(b, j);
    crate::stroke::lemma_extent_finite(a);
    crate::stroke::lemma_extent_finite(b);
    lemma_gap_along(a[i].x, b[j].x, p.min_x, p.max_x, q.min_x, q.max_x);
    lemma_gap_along(a[i].y, b[j].y, p.min_y, p.max_y, q.min_y, q.max_y);
    crate::float::bound::lemma_hypotenuse(a[i].x.minus(b[j].x), a[i].y.minus(b[j].y));
    crate::float::order::lemma_min_max(
        p.min_x.minus(q.max_x).max(q.min_x.minus(p.max_x)).max(num(ZERO)),
        p.min_y.minus(q.max_y).max(q.min_y.minus(p.max_y)).max(num(ZERO)),
    );
    reveal(F32::le_spec);
}

/// A position.
#[derive(Clone, Copy)]
pub struct Pt {
    pub x: F32,
    pub y: F32,
}

/// Distance from `p` to the segment from `a` to `b`.
pub open spec fn point_distance(p: Pt, a: Pt, b: Pt) -> F32 {
    let abx = b.x.minus(a.x);
    let aby = b.y.minus(a.y);
    let len2 = abx.times(abx).plus(aby.times(aby));
    if len2.le(num(EPSILON)) {
        p.x.minus(a.x).hypot(p.y.minus(a.y))
    } else {
        let along = p.x.minus(a.x).times(abx).plus(p.y.minus(a.y).times(aby)).over(len2);
        let t = along.clamp(num(ZERO), num(ONE));
        p.x.minus(a.x.plus(t.times(abx))).hypot(p.y.minus(a.y.plus(t.times(aby))))
    }
}

fn point_seg_dist(p: Pt, a: Pt, b: Pt) -> (r: F32)
    ensures
        r == point_distance(p, a, b),
{
    let abx = b.x.minus(a.x);
    let aby = b.y.minus(a.y);
    let len2 = abx.times(abx).plus(aby.times(aby));
    if len2.le(num(EPSILON)) {
        return p.x.minus(a.x).hypot(p.y.minus(a.y));
    }
    let along = p.x.minus(a.x).times(abx).plus(p.y.minus(a.y).times(aby)).over(len2);
    let t = along.clamp(num(ZERO), num(ONE));
    p.x.minus(a.x.plus(t.times(abx))).hypot(p.y.minus(a.y.plus(t.times(aby))))
}

/// Is `t` from 0 to 1?
pub open spec fn in_unit(t: F32) -> bool {
    num(ZERO).le(t) && t.le(num(ONE))
}

/// Do the segments `p..p2` and `q..q2` cross properly?
pub open spec fn crossing(p: Pt, p2: Pt, q: Pt, q2: Pt) -> bool {
    let rx = p2.x.minus(p.x);
    let ry = p2.y.minus(p.y);
    let sx = q2.x.minus(q.x);
    let sy = q2.y.minus(q.y);
    let denom = rx.times(sy).minus(ry.times(sx));
    let qpx = q.x.minus(p.x);
    let qpy = q.y.minus(p.y);
    let t = qpx.times(sy).minus(qpy.times(sx)).over(denom);
    let u = qpx.times(ry).minus(qpy.times(rx)).over(denom);
    denom.abs().gt(num(PARALLEL)) && in_unit(t) && in_unit(u)
}

/// Distance between two segments: 0 where they cross, else the closest approach of an endpoint.
pub open spec fn segment_distance(p: Pt, p2: Pt, q: Pt, q2: Pt) -> F32 {
    if crossing(p, p2, q, q2) {
        num(ZERO)
    } else {
        point_distance(p, q, q2).min(point_distance(p2, q, q2)).min(point_distance(q, p, p2)).min(
            point_distance(q2, p, p2),
        )
    }
}

fn seg_seg_dist(p: Pt, p2: Pt, q: Pt, q2: Pt) -> (r: F32)
    ensures
        r == segment_distance(p, p2, q, q2),
{
    let rx = p2.x.minus(p.x);
    let ry = p2.y.minus(p.y);
    let sx = q2.x.minus(q.x);
    let sy = q2.y.minus(q.y);
    let denom = rx.times(sy).minus(ry.times(sx));
    let qpx = q.x.minus(p.x);
    let qpy = q.y.minus(p.y);
    if denom.abs().gt(num(PARALLEL)) {
        let t = qpx.times(sy).minus(qpy.times(sx)).over(denom);
        let u = qpx.times(ry).minus(qpy.times(rx)).over(denom);
        if num(ZERO).le(t) && t.le(num(ONE)) && num(ZERO).le(u) && u.le(num(ONE)) {
            return num(ZERO);
        }
    }
    point_seg_dist(p, q, q2).min(point_seg_dist(p2, q, q2)).min(point_seg_dist(q, p, p2)).min(
        point_seg_dist(q2, p, p2),
    )
}

pub open spec fn pt(p: Point) -> Pt {
    Pt { x: p.x, y: p.y }
}

fn at(p: &Point) -> (r: Pt)
    ensures
        r == pt(*p),
{
    Pt { x: p.x, y: p.y }
}

/// Does the box of the segment `r..s` miss that of `p..q` grown by `thresh`?
pub open spec fn boxes_apart(p: Point, q: Point, r: Point, s: Point, thresh: F32) -> bool {
    ||| r.x.min(s.x).gt(p.x.max(q.x).plus(thresh))
    ||| r.x.max(s.x).lt(p.x.min(q.x).minus(thresh))
    ||| r.y.min(s.y).gt(p.y.max(q.y).plus(thresh))
    ||| r.y.max(s.y).lt(p.y.min(q.y).minus(thresh))
}

/// Do the segments that start at `a[i]` and at `b[j]` come within `thresh` of each other?
pub open spec fn segments_near(a: Seq<Point>, b: Seq<Point>, i: int, j: int, thresh: F32) -> bool {
    &&& !boxes_apart(a[i], a[i + 1], b[j], b[j + 1], thresh)
    &&& segment_distance(pt(a[i]), pt(a[i + 1]), pt(b[j]), pt(b[j + 1])).lt(thresh)
}

/// Do the samples `a[i]` and `b[j]` come within `thresh` of each other?
pub open spec fn samples_near(a: Seq<Point>, b: Seq<Point>, i: int, j: int, thresh: F32) -> bool {
    a[i].x.minus(b[j].x).hypot(a[i].y.minus(b[j].y)).lt(thresh)
}

/// Does the ink of the two strokes come within `thresh`? Strokes are compared as polylines; a
/// stroke of one sample has no segment, so there the samples are compared.
pub open spec fn ink_near(a: Seq<Point>, b: Seq<Point>, thresh: F32) -> bool {
    if a.len() < 2 || b.len() < 2 {
        exists|i: int, j: int|
            0 <= i < a.len() && 0 <= j < b.len() && #[trigger] samples_near(a, b, i, j, thresh)
    } else {
        exists|i: int, j: int|
            0 <= i < a.len() - 1 && 0 <= j < b.len() - 1 && #[trigger] segments_near(
                a,
                b,
                i,
                j,
                thresh,
            )
    }
}

/// Does the ink of the two strokes come within `thresh`? The per-segment box test keeps the walk
/// affordable where one stroke encloses another.
fn ink_within(a: &Stroke, b: &Stroke, thresh: F32) -> (r: bool)
    ensures
        r == ink_near(a@, b@, thresh),
{
    if a.points.len() < 2 || b.points.len() < 2 {
        let mut i: usize = 0;
        while i < a.points.len()
            invariant
                i <= a.points.len(),
                a@ == a.points@,
                b@ == b.points@,
                a@.len() < 2 || b@.len() < 2,
                forall|k: int, j: int|
                    0 <= k < i && 0 <= j < b@.len() ==> !#[trigger] samples_near(
                        a@,
                        b@,
                        k,
                        j,
                        thresh,
                    ),
            decreases a.points.len() - i,
        {
            let p = a.points[i];
            let mut j: usize = 0;
            while j < b.points.len()
                invariant
                    i < a.points.len(),
                    j <= b.points.len(),
                    a@ == a.points@,
                    b@ == b.points@,
                    a@.len() < 2 || b@.len() < 2,
                    p == a@[i as int],
                    forall|k: int|
                        0 <= k < j ==> !#[trigger] samples_near(a@, b@, i as int, k, thresh),
                decreases b.points.len() - j,
            {
                let q = b.points[j];
                if p.x.minus(q.x).hypot(p.y.minus(q.y)).lt(thresh) {
                    assert(samples_near(a@, b@, i as int, j as int, thresh));
                    return true;
                }
                j = j + 1;
            }
            i = i + 1;
        }
        return false;
    }
    let mut i: usize = 0;
    while i + 1 < a.points.len()
        invariant
            i + 1 <= a.points.len(),
            a@ == a.points@,
            b@ == b.points@,
            a@.len() >= 2 && b@.len() >= 2,
            forall|k: int, j: int|
                0 <= k < i && 0 <= j < b@.len() - 1 ==> !#[trigger] segments_near(
                    a@,
                    b@,
                    k,
                    j,
                    thresh,
                ),
        decreases a.points.len() - i,
    {
        let p = a.points[i];
        let q = a.points[i + 1];
        let x0 = p.x.min(q.x).minus(thresh);
        let x1 = p.x.max(q.x).plus(thresh);
        let y0 = p.y.min(q.y).minus(thresh);
        let y1 = p.y.max(q.y).plus(thresh);
        let mut j: usize = 0;
        while j + 1 < b.points.len()
            invariant
                i + 1 < a.points.len(),
                j + 1 <= b.points.len(),
                a@ == a.points@,
                b@ == b.points@,
                a@.len() >= 2 && b@.len() >= 2,
                p == a@[i as int],
                q == a@[i + 1],
                x0 == p.x.min(q.x).minus(thresh),
                x1 == p.x.max(q.x).plus(thresh),
                y0 == p.y.min(q.y).minus(thresh),
                y1 == p.y.max(q.y).plus(thresh),
                forall|k: int|
                    0 <= k < j ==> !#[trigger] segments_near(a@, b@, i as int, k, thresh),
            decreases b.points.len() - j,
        {
            let r = b.points[j];
            let s = b.points[j + 1];
            let apart = r.x.min(s.x).gt(x1) || r.x.max(s.x).lt(x0) || r.y.min(s.y).gt(y1)
                || r.y.max(s.y).lt(y0);
            if !apart && seg_seg_dist(at(&p), at(&q), at(&r), at(&s)).lt(thresh) {
                assert(segments_near(a@, b@, i as int, j as int, thresh));
                return true;
            }
            j = j + 1;
        }
        i = i + 1;
    }
    false
}

// ---------------------------------------------------------------------------------------------
// The merge threshold
// ---------------------------------------------------------------------------------------------
/// The larger side of a stroke's box.
pub open spec fn size_of(b: BBox) -> F32 {
    b.max_x.minus(b.min_x).max(b.max_y.minus(b.min_y))
}

/// Is a stroke with this box compact, that is, not line-like?
pub open spec fn compact(b: BBox) -> bool {
    let w = b.max_x.minus(b.min_x);
    let h = b.max_y.minus(b.min_y);
    w.max(h).over(w.min(h).max(num(TINY))).le(num(LINE_ASPECT))
}

/// The indices of the non-empty strokes among the first `n`.
pub open spec fn live(ink: Seq<Seq<Point>>, n: nat) -> Seq<int>
    decreases n,
{
    if n == 0 {
        Seq::empty()
    } else {
        let before = live(ink, (n - 1) as nat);
        if ink[n - 1].len() > 0 {
            before.push(n - 1)
        } else {
            before
        }
    }
}

/// The sizes of the first `n` of the given strokes, of all of them or only the compact ones.
pub open spec fn sizes(
    ink: Seq<Seq<Point>>,
    items: Seq<int>,
    only_compact: bool,
    n: nat,
) -> Seq<F32>
    decreases n,
{
    if n == 0 {
        Seq::empty()
    } else {
        let before = sizes(ink, items, only_compact, (n - 1) as nat);
        let b = crate::stroke::extent(ink[items[n - 1]]);
        if !only_compact || compact(b) {
            before.push(size_of(b))
        } else {
            before
        }
    }
}

/// The middle one of the values in ascending order (of two, the larger).
pub open spec fn middle(values: Seq<F32>) -> F32 {
    values[crate::sort::stable_order(values)[values.len() as int / 2]]
}

/// How close two strokes' ink has to come to be one symbol: a fraction of the median size of the
/// compact strokes, or of all strokes where none is compact. Line-like strokes use the threshold
/// but do not set it, because their length does not measure the scale of the writing.
pub open spec fn threshold(ink: Seq<Seq<Point>>) -> F32 {
    let items = live(ink, ink.len());
    let narrow = sizes(ink, items, true, items.len());
    let used = if narrow.len() > 0 {
        narrow
    } else {
        sizes(ink, items, false, items.len())
    };
    num(MERGE_FRACTION).times(middle(used).max(num(TINY)))
}

pub(crate) fn median(values: &Vec<F32>) -> (r: F32)
    requires
        values.len() > 0,
    ensures
        r == middle(values@),
{
    let order = sort_indices(values);
    let at: usize = values.len() / 2;
    assert(crate::sort::as_ints(order@)[at as int] == order[at as int]);
    values[order[at]]
}

/// A non-empty stroke's index and extent.
struct Item {
    stroke: usize,
    bbox: BBox,
}

spec fn item_strokes(items: Seq<Item>) -> Seq<int> {
    Seq::new(items.len(), |i: int| items[i].stroke as int)
}

/// Are these the non-empty strokes with their extents?
spec fn items_fit(ink: Seq<Seq<Point>>, items: Seq<Item>, n: nat) -> bool {
    &&& item_strokes(items) == live(ink, n)
    &&& forall|i: int|
        0 <= i < items.len() ==> (#[trigger] items[i]).stroke < n && ink[items[i].stroke as int].len()
            > 0 && items[i].bbox == crate::stroke::extent(ink[items[i].stroke as int])
}

fn find_items(strokes: &[Stroke]) -> (r: Vec<Item>)
    ensures
        items_fit(crate::stroke::trajectories(strokes@), r@, strokes@.len()),
{
    let ghost ink = crate::stroke::trajectories(strokes@);
    let mut out: Vec<Item> = Vec::new();
    let mut i: usize = 0;
    assert(item_strokes(out@) =~= Seq::<int>::empty());
    while i < strokes.len()
        invariant
            i <= strokes.len(),
            ink == crate::stroke::trajectories(strokes@),
            items_fit(ink, out@, i as nat),
        decreases strokes.len() - i,
    {
        let points = &strokes[i].points;
        assert(ink[i as int] == points@);
        if points.len() > 0 {
            let p = points[0];
            let b = grow_all(BBox { min_x: p.x, min_y: p.y, max_x: p.x, max_y: p.y }, points);
            let item = Item { stroke: i, bbox: b };
            proof {
                assert(item_strokes(out@.push(item)) =~= item_strokes(out@).push(i as int));
            }
            out.push(item);
        }
        i = i + 1;
    }
    out
}

fn find_sizes(items: &Vec<Item>, only_compact: bool, Ghost(ink): Ghost<Seq<Seq<Point>>>) -> (r: Vec<
    F32,
>)
    requires
        items_fit(ink, items@, ink.len()),
    ensures
        r@ == sizes(ink, item_strokes(items@), only_compact, items@.len()),
{
    let mut out: Vec<F32> = Vec::new();
    let mut i: usize = 0;
    while i < items.len()
        invariant
            i <= items.len(),
            items_fit(ink, items@, ink.len()),
            out@ == sizes(ink, item_strokes(items@), only_compact, i as nat),
        decreases items.len() - i,
    {
        let b = items[i].bbox;
        let w = b.max_x.minus(b.min_x);
        let h = b.max_y.minus(b.min_y);
        assert(item_strokes(items@)[i as int] == items[i as int].stroke);
        if !only_compact || w.max(h).over(w.min(h).max(num(TINY))).le(num(LINE_ASPECT)) {
            out.push(w.max(h));
        }
        i = i + 1;
    }
    out
}

// ---------------------------------------------------------------------------------------------
// Clusters
// ---------------------------------------------------------------------------------------------
/// How close the ink of two strokes with these boxes has to come. Strokes that are disjoint in x
/// must nearly touch: symbols advance horizontally, so the strokes of one symbol overlap in x
/// while neighbouring symbols do not.
pub open spec fn allowance(a: BBox, b: BBox, thresh: F32) -> F32 {
    let x_gap = a.min_x.max(b.min_x).minus(a.max_x.min(b.max_x));
    if x_gap.gt(num(ZERO)) {
        num(SIDE_BY_SIDE_TOUCH).times(thresh)
    } else {
        thresh
    }
}

/// Does the ink of strokes `i` and `j` come close enough to be one symbol? Boxes too far apart
/// already mean ink too far apart.
#[verifier::opaque]
pub open spec fn touching(ink: Seq<Seq<Point>>, thresh: F32, i: int, j: int) -> bool {
    let a = crate::stroke::extent(ink[i]);
    let b = crate::stroke::extent(ink[j]);
    let allow = allowance(a, b, thresh);
    !gap_of(a, b).ge(allow) && ink_near(ink[i], ink[j], allow)
}

/// Does the set part no two touching strokes?
pub open spec fn uncut(ink: Seq<Seq<Point>>, thresh: F32, s: Set<int>) -> bool {
    forall|i: int, j: int|
        0 <= i < j < ink.len() && ink[i].len() > 0 && ink[j].len() > 0 && #[trigger] touching(
            ink,
            thresh,
            i,
            j,
        ) ==> s.contains(i) == s.contains(j)
}

/// Are strokes `x` and `y` connected through touching strokes? They are if nothing can hold `x`
/// without `y`, except by parting two touching strokes.
pub open spec fn linked(ink: Seq<Seq<Point>>, thresh: F32, x: int, y: int) -> bool {
    forall|s: Set<int>| #[trigger] uncut(ink, thresh, s) && s.contains(x) ==> s.contains(y)
}

/// The first of the groups whose first stroke is connected to stroke `x`; the number of groups,
/// if there is none.
pub open spec fn home(
    ink: Seq<Seq<Point>>,
    thresh: F32,
    groups: Seq<Seq<int>>,
    x: int,
    from: nat,
) -> nat
    decreases groups.len() - from,
{
    if from >= groups.len() || linked(ink, thresh, groups[from as int][0], x) {
        from
    } else {
        home(ink, thresh, groups, x, from + 1)
    }
}

/// The first `n` of the strokes `items` in connected groups: each stroke joins the group that it
/// is connected to, or opens one.
pub open spec fn gathered(
    ink: Seq<Seq<Point>>,
    thresh: F32,
    items: Seq<int>,
    n: nat,
) -> Seq<Seq<int>>
    decreases n,
{
    if n == 0 {
        Seq::empty()
    } else {
        let before = gathered(ink, thresh, items, (n - 1) as nat);
        let x = items[n - 1];
        let g = home(ink, thresh, before, x, 0) as int;
        if g < before.len() {
            before.update(g, before[g].push(x))
        } else {
            before.push(seq![x])
        }
    }
}

/// The left edge of a group of strokes.
pub open spec fn left_edge(ink: Seq<Seq<Point>>, group: Seq<int>) -> F32
    decreases group.len(),
{
    if group.len() <= 1 {
        crate::stroke::extent(ink[group[0]]).min_x
    } else {
        left_edge(ink, group.drop_last()).min(crate::stroke::extent(ink[group.last()]).min_x)
    }
}

pub open spec fn left_edges(ink: Seq<Seq<Point>>, groups: Seq<Seq<int>>) -> Seq<F32> {
    Seq::new(groups.len(), |g: int| left_edge(ink, groups[g]))
}

/// The groups from left to right.
pub open spec fn by_left_edge(ink: Seq<Seq<Point>>, groups: Seq<Seq<int>>) -> Seq<Seq<int>> {
    Seq::new(
        groups.len(),
        |g: int| groups[crate::sort::stable_order(left_edges(ink, groups))[g]],
    )
}

/// The connected groups of strokes, from left to right.
pub open spec fn clusters(ink: Seq<Seq<Point>>) -> Seq<Seq<int>> {
    let items = live(ink, ink.len());
    by_left_edge(ink, gathered(ink, threshold(ink), items, items.len()))
}

/// The non-empty strokes are listed in ascending order, each once.
pub proof fn lemma_live(ink: Seq<Seq<Point>>, n: nat)
    requires
        n <= ink.len(),
    ensures
        forall|i: int|
            0 <= i < live(ink, n).len() ==> 0 <= #[trigger] live(ink, n)[i] < n && ink[live(
                ink,
                n,
            )[i]].len() > 0,
        forall|i: int, j: int|
            0 <= i < j < live(ink, n).len() ==> #[trigger] live(ink, n)[i] < #[trigger] live(
                ink,
                n,
            )[j],
        forall|v: int| 0 <= v < n && ink[v].len() > 0 ==> #[trigger] live(ink, n).contains(v),
    decreases n,
{
    if n > 0 {
        let before = live(ink, (n - 1) as nat);
        let now = live(ink, n);
        lemma_live(ink, (n - 1) as nat);
        assert forall|i: int| 0 <= i < now.len() implies 0 <= #[trigger] now[i] < n && ink[now[i]].len()
            > 0 by {
            if i < before.len() {
                assert(now[i] == before[i]);
            }
        }
        assert forall|i: int, j: int| 0 <= i < j < now.len() implies #[trigger] now[i]
            < #[trigger] now[j] by {
            assert(now[i] == before[i]);
            if j < before.len() {
                assert(now[j] == before[j]);
            }
        }
        assert forall|v: int| 0 <= v < n && ink[v].len() > 0 implies #[trigger] now.contains(v) by {
            if v == n - 1 {
                assert(now[now.len() - 1] == v);
            } else {
                assert(before.contains(v));
                let k = choose|k: int| 0 <= k < before.len() && before[k] == v;
                assert(now[k] == v);
            }
        }
    }
}

/// Do the heights rise from each node to its parent?
spec fn rising(parent: Seq<usize>, height: Seq<int>) -> bool {
    &&& height.len() == parent.len()
    &&& forall|x: int|
        0 <= x < parent.len() && parent[x] != x ==> #[trigger] height[parent[x] as int] > height[x]
}

/// Does `root` give the root of the tree that holds node `x`?
spec fn rooted(parent: Seq<usize>, root: Seq<int>, x: int) -> bool {
    &&& 0 <= root[x] < parent.len()
    &&& parent[x] < parent.len()
    &&& root[parent[x] as int] == root[x]
    &&& parent[root[x]] == root[x]
    &&& parent[x] == x ==> root[x] == x
}

/// Is `parent` a forest in which `root` gives the root of each node?
spec fn forest(parent: Seq<usize>, root: Seq<int>) -> bool {
    &&& root.len() == parent.len()
    &&& forall|x: int| 0 <= x < parent.len() ==> #[trigger] rooted(parent, root, x)
    &&& exists|height: Seq<int>| rising(parent, height)
}

spec fn peak(height: Seq<int>) -> int
    decreases height.len(),
{
    if height.len() == 0 {
        0
    } else {
        let rest = peak(height.drop_last());
        if rest > height.last() {
            rest
        } else {
            height.last()
        }
    }
}

proof fn lemma_peak(height: Seq<int>)
    ensures
        forall|x: int| 0 <= x < height.len() ==> #[trigger] height[x] <= peak(height),
    decreases height.len(),
{
    if height.len() > 0 {
        lemma_peak(height.drop_last());
        assert forall|x: int| 0 <= x < height.len() implies #[trigger] height[x] <= peak(height) by {
            if x < height.len() - 1 {
                assert(height.drop_last()[x] == height[x]);
            }
        }
    }
}

/// The root of the node `start`. Halves the path to it on the way.
fn find(parent: &mut Vec<usize>, start: usize, Ghost(root): Ghost<Seq<int>>) -> (r: usize)
    requires
        forest(old(parent)@, root),
        start < old(parent).len(),
    ensures
        forest(final(parent)@, root),
        final(parent).len() == old(parent).len(),
        r == root[start as int],
        r < final(parent).len(),
{
    let mut x: usize = start;
    let ghost height = choose|height: Seq<int>| rising(parent@, height);
    proof {
        lemma_peak(height);
    }
    assert(rooted(parent@, root, start as int));
    while parent[x] != x
        invariant
            x < parent.len(),
            parent.len() == old(parent).len(),
            rooted(parent@, root, x as int),
            forest(parent@, root),
            rising(parent@, height),
            root[x as int] == root[start as int],
            forall|y: int| 0 <= y < height.len() ==> #[trigger] height[y] <= peak(height),
        decreases peak(height) - height[x as int],
    {
        let p: usize = parent[x];
        assert(rooted(parent@, root, p as int));
        let pp: usize = parent[p];
        assert(rooted(parent@, root, pp as int));
        assert(height[p as int] > height[x as int]);
        assert(pp != p ==> height[pp as int] > height[p as int]);
        assert(root[p as int] == root[x as int]);
        let ghost before = parent@;
        parent.set(x, pp);
        proof {
            assert(parent@ == before.update(x as int, pp));
            assert(rising(parent@, height)) by {
                assert forall|y: int|
                    0 <= y < parent@.len() && parent@[y] != y implies #[trigger] height[parent@[y] as int]
                    > height[y] by {
                    if y != x {
                        assert(before[y] == parent@[y]);
                        assert(height[before[y] as int] > height[y]);
                    }
                }
            }
            assert forall|y: int| 0 <= y < parent@.len() implies #[trigger] rooted(
                parent@,
                root,
                y,
            ) by {
                assert(rooted(before, root, y));
                assert(rooted(before, root, x as int));
            }
        }
        x = pp;
    }
    x
}

/// Hanging the root `ra` below the root `rb` makes one tree of two.
proof fn lemma_union(parent: Seq<usize>, root: Seq<int>, ra: usize, rb: usize)
    requires
        forest(parent, root),
        ra < parent.len(),
        rb < parent.len(),
        root[ra as int] == ra,
        root[rb as int] == rb,
    ensures
        forest(
            parent.update(ra as int, rb),
            Seq::new(
                root.len(),
                |x: int|
                    if root[x] == ra {
                        rb as int
                    } else {
                        root[x]
                    },
            ),
        ),
{
    let now = parent.update(ra as int, rb);
    let merged = Seq::new(
        root.len(),
        |x: int|
            if root[x] == ra {
                rb as int
            } else {
                root[x]
            },
    );
    assert(rooted(parent, root, ra as int));
    assert(rooted(parent, root, rb as int));
    let height = choose|height: Seq<int>| rising(parent, height);
    lemma_peak(height);
    let lift = peak(height) - height[rb as int] + 1;
    let raised = Seq::new(
        height.len(),
        |x: int|
            if root[x] == rb && ra != rb {
                height[x] + lift
            } else {
                height[x]
            },
    );
    assert(rising(now, raised)) by {
        assert forall|x: int| 0 <= x < now.len() && now[x] != x implies #[trigger] raised[now[x] as int]
            > raised[x] by {
            if x == ra {
                assert(height[ra as int] <= peak(height));
            } else {
                assert(now[x] == parent[x]);
                assert(height[parent[x] as int] > height[x]);
                assert(rooted(parent, root, x));
            }
        }
    }
    assert forall|x: int| 0 <= x < now.len() implies #[trigger] rooted(now, merged, x) by {
        assert(rooted(parent, root, x));
    }
}

/// Have all pairs of items before the pair `(a, b)` been joined where they touch?
spec fn joined(
    ink: Seq<Seq<Point>>,
    thresh: F32,
    items: Seq<int>,
    root: Seq<int>,
    a: int,
    b: int,
) -> bool {
    forall|i: int, j: int|
        0 <= i < j < items.len() && (i < a || i == a && j < b) && #[trigger] touching(
            ink,
            thresh,
            items[i],
            items[j],
        ) ==> root[i] == root[j]
}

/// Is every item connected to its root?
spec fn connected(ink: Seq<Seq<Point>>, thresh: F32, items: Seq<int>, root: Seq<int>) -> bool {
    forall|s: Set<int>, x: int|
        #![trigger uncut(ink, thresh, s), root[x]]
        uncut(ink, thresh, s) && 0 <= x < items.len() ==> s.contains(items[x]) == s.contains(
            items[root[x]],
        )
}

/// Two items are connected where they have the same root, once all pairs are joined.
proof fn lemma_linked(
    ink: Seq<Seq<Point>>,
    thresh: F32,
    items: Seq<int>,
    parent: Seq<usize>,
    root: Seq<int>,
    x: int,
    y: int,
)
    requires
        items == live(ink, ink.len()),
        forest(parent, root),
        root.len() == items.len(),
        joined(ink, thresh, items, root, items.len() as int, 0),
        connected(ink, thresh, items, root),
        0 <= x < items.len(),
        0 <= y < items.len(),
    ensures
        linked(ink, thresh, items[x], items[y]) == (root[x] == root[y]),
{
    if root[x] == root[y] {
        assert forall|s: Set<int>| #[trigger]
            uncut(ink, thresh, s) && s.contains(items[x]) implies s.contains(items[y]) by {
            assert(s.contains(items[x]) == s.contains(items[root[x]]));
            assert(s.contains(items[y]) == s.contains(items[root[y]]));
        }
    } else {
        let tree = Set::new(
            |v: int| exists|z: int| 0 <= z < items.len() && items[z] == v && root[z] == root[x],
        );
        lemma_live(ink, ink.len());
        assert(uncut(ink, thresh, tree)) by {
            assert forall|i: int, j: int|
                0 <= i < j < ink.len() && ink[i].len() > 0 && ink[j].len() > 0
                    && #[trigger] touching(ink, thresh, i, j) implies tree.contains(i)
                == tree.contains(j) by {
                assert(items.contains(i) && items.contains(j));
                let a = choose|a: int| 0 <= a < items.len() && items[a] == i;
                let b = choose|b: int| 0 <= b < items.len() && items[b] == j;
                assert(a < b) by {
                    if b < a {
                        assert(items[b] < items[a]);
                    }
                }
                assert(touching(ink, thresh, items[a], items[b]));
                assert(root[a] == root[b]);
                if tree.contains(i) {
                    let z = choose|z: int|
                        0 <= z < items.len() && items[z] == i && root[z] == root[x];
                    assert(z == a) by {
                        if z < a {
                            assert(items[z] < items[a]);
                        } else if a < z {
                            assert(items[a] < items[z]);
                        }
                    }
                    assert(items[b] == j && root[b] == root[x]);
                }
                if tree.contains(j) {
                    let z = choose|z: int|
                        0 <= z < items.len() && items[z] == j && root[z] == root[x];
                    assert(z == b) by {
                        if z < b {
                            assert(items[z] < items[b]);
                        } else if b < z {
                            assert(items[b] < items[z]);
                        }
                    }
                    assert(items[a] == i && root[a] == root[x]);
                }
            }
        }
        assert(tree.contains(items[x]));
        assert(!tree.contains(items[y])) by {
            if tree.contains(items[y]) {
                let z = choose|z: int|
                    0 <= z < items.len() && items[z] == items[y] && root[z] == root[x];
                if z < y {
                    assert(items[z] < items[y]);
                } else if y < z {
                    assert(items[y] < items[z]);
                }
            }
        }
    }
}

/// Giving two touching items one root joins one pair more, and keeps the roots connected.
proof fn lemma_join_step(
    ink: Seq<Seq<Point>>,
    thresh: F32,
    items: Seq<int>,
    before: Seq<int>,
    after: Seq<int>,
    a: int,
    b: int,
)
    requires
        items == live(ink, ink.len()),
        before.len() == items.len(),
        0 <= a < b < items.len(),
        touching(ink, thresh, items[a], items[b]),
        joined(ink, thresh, items, before, a, b),
        connected(ink, thresh, items, before),
        after == Seq::new(
            before.len(),
            |x: int|
                if before[x] == before[a] {
                    before[b]
                } else {
                    before[x]
                },
        ),
    ensures
        joined(ink, thresh, items, after, a, b + 1),
        connected(ink, thresh, items, after),
{
    assert(items[a] < items[b] && 0 <= items[a] && items[b] < ink.len() && ink[items[a]].len() > 0
        && ink[items[b]].len() > 0) by {
        lemma_live(ink, ink.len());
    }
    assert forall|s: Set<int>, x: int|
        #![trigger uncut(ink, thresh, s), after[x]]
        uncut(ink, thresh, s) && 0 <= x < items.len() implies s.contains(items[x]) == s.contains(
        items[after[x]],
    ) by {
        assert(s.contains(items[x]) == s.contains(items[before[x]]));
        assert(s.contains(items[a]) == s.contains(items[before[a]]));
        assert(s.contains(items[b]) == s.contains(items[before[b]]));
        assert(s.contains(items[a]) == s.contains(items[b]));
    }
    assert forall|i: int, j: int|
        0 <= i < j < items.len() && (i < a || i == a && j < b + 1) && #[trigger] touching(
            ink,
            thresh,
            items[i],
            items[j],
        ) implies after[i] == after[j] by {
        if !(i == a && j == b) {
            assert(before[i] == before[j]);
        }
    }
}

/// Join the items whose ink comes close enough. Returns the forest and, for the proof, its
/// roots.
fn join(strokes: &[Stroke], items: &Vec<Item>, thresh: F32) -> (r: (Vec<usize>, Ghost<Seq<int>>))
    requires
        items_fit(crate::stroke::trajectories(strokes@), items@, strokes@.len()),
    ensures
        r.0.len() == items.len(),
        forest(r.0@, r.1@),
        joined(
            crate::stroke::trajectories(strokes@),
            thresh,
            item_strokes(items@),
            r.1@,
            items.len() as int,
            0,
        ),
        connected(
            crate::stroke::trajectories(strokes@),
            thresh,
            item_strokes(items@),
            r.1@,
        ),
{
    let ghost ink = crate::stroke::trajectories(strokes@);
    let ghost its = item_strokes(items@);
    let n: usize = items.len();
    let mut parent: Vec<usize> = Vec::new();
    let mut k: usize = 0;
    while k < n
        invariant
            k <= n,
            parent.len() == k,
            forall|x: int| 0 <= x < k ==> #[trigger] parent[x] == x,
        decreases n - k,
    {
        parent.push(k);
        k = k + 1;
    }
    let ghost mut root = Seq::new(n as nat, |x: int| x);
    proof {
        assert(rising(parent@, Seq::new(n as nat, |x: int| 0int)));
        assert forall|x: int| 0 <= x < n implies #[trigger] rooted(parent@, root, x) by {
            assert(parent@[x] == x);
        }
    }
    let mut a: usize = 0;
    while a < n
        invariant
            a <= n,
            n == items.len(),
            parent.len() == n,
            ink == crate::stroke::trajectories(strokes@),
            its == item_strokes(items@),
            items_fit(ink, items@, strokes@.len()),
            forest(parent@, root),
            joined(ink, thresh, its, root, a as int, 0),
            connected(ink, thresh, its, root),
        decreases n - a,
    {
        let mut b: usize = a + 1;
        while b < n
            invariant
                a < b <= n,
                n == items.len(),
                parent.len() == n,
                ink == crate::stroke::trajectories(strokes@),
                its == item_strokes(items@),
                items_fit(ink, items@, strokes@.len()),
                forest(parent@, root),
                joined(ink, thresh, its, root, a as int, b as int),
                connected(ink, thresh, its, root),
            decreases n - b,
        {
            let ia = &items[a];
            let ib = &items[b];
            assert(its[a as int] == ia.stroke && its[b as int] == ib.stroke);
            assert(ink[ia.stroke as int] == strokes@[ia.stroke as int]@);
            assert(ink[ib.stroke as int] == strokes@[ib.stroke as int]@);
            let x_gap = ia.bbox.min_x.max(ib.bbox.min_x).minus(ia.bbox.max_x.min(ib.bbox.max_x));
            let allow = if x_gap.gt(num(ZERO)) {
                num(SIDE_BY_SIDE_TOUCH).times(thresh)
            } else {
                thresh
            };
            if !gap(&ia.bbox, &ib.bbox).ge(allow) && ink_within(
                &strokes[ia.stroke],
                &strokes[ib.stroke],
                allow,
            ) {
                proof {
                    assert(touching(ink, thresh, its[a as int], its[b as int])) by {
                        reveal(touching);
                    }
                }
                let ra = find(&mut parent, a, Ghost(root));
                let rb = find(&mut parent, b, Ghost(root));
                let ghost before = root;
                proof {
                    assert(rooted(parent@, root, a as int) && rooted(parent@, root, ra as int));
                    assert(rooted(parent@, root, b as int) && rooted(parent@, root, rb as int));
                    lemma_union(parent@, root, ra, rb);
                    root =
                    Seq::new(
                        root.len(),
                        |x: int|
                            if root[x] == ra {
                                rb as int
                            } else {
                                root[x]
                            },
                    );
                    assert(root =~= Seq::new(
                        before.len(),
                        |x: int|
                            if before[x] == before[a as int] {
                                before[b as int]
                            } else {
                                before[x]
                            },
                    ));
                    lemma_join_step(ink, thresh, its, before, root, a as int, b as int);
                }
                parent.set(ra, rb);
            } else {
                assert(!touching(ink, thresh, its[a as int], its[b as int])) by {
                    reveal(touching);
                }
            }
            b = b + 1;
        }
        a = a + 1;
    }
    (parent, Ghost(root))
}

/// What a list of groups holds.
pub open spec fn group_views(groups: Seq<Vec<usize>>) -> Seq<Seq<int>> {
    Seq::new(groups.len(), |g: int| crate::sort::as_ints(groups[g]@))
}

/// Every group of a gathering has a member, and all members are among the items.
proof fn lemma_gathered(ink: Seq<Seq<Point>>, thresh: F32, items: Seq<int>, n: nat)
    requires
        n <= items.len(),
    ensures
        forall|g: int, j: int|
            0 <= g < gathered(ink, thresh, items, n).len() && 0 <= j < gathered(
                ink,
                thresh,
                items,
                n,
            )[g].len() ==> items.take(n as int).contains(
                #[trigger] gathered(ink, thresh, items, n)[g][j],
            ),
        forall|g: int|
            0 <= g < gathered(ink, thresh, items, n).len() ==> (#[trigger] gathered(
                ink,
                thresh,
                items,
                n,
            )[g]).len() > 0,
    decreases n,
{
    if n > 0 {
        let before = gathered(ink, thresh, items, (n - 1) as nat);
        let now = gathered(ink, thresh, items, n);
        lemma_gathered(ink, thresh, items, (n - 1) as nat);
        let x = items[n - 1];
        let h = home(ink, thresh, before, x, 0) as int;
        let old_items = items.take(n - 1);
        let new_items = items.take(n as int);
        assert(new_items[n - 1] == x);
        assert forall|v: int| old_items.contains(v) implies #[trigger] new_items.contains(v) by {
            let k = choose|k: int| 0 <= k < old_items.len() && old_items[k] == v;
            assert(new_items[k] == v);
        }
        assert forall|g: int, j: int|
            0 <= g < now.len() && 0 <= j < now[g].len() implies new_items.contains(
            #[trigger] now[g][j],
        ) by {
            if g < before.len() {
                assert(before[g].len() > 0);
                if j < before[g].len() {
                    assert(now[g][j] == before[g][j]);
                    assert(old_items.contains(before[g][j]));
                }
            }
        }
        assert forall|g: int| 0 <= g < now.len() implies (#[trigger] now[g]).len() > 0 by {
            if g < before.len() {
                assert(before[g].len() > 0);
            }
        }
    }
}

/// A search from the start finds the home of a stroke, if no earlier group is its home.
proof fn lemma_home(
    ink: Seq<Seq<Point>>,
    thresh: F32,
    groups: Seq<Seq<int>>,
    x: int,
    from: nat,
    at: nat,
)
    requires
        from <= at <= groups.len(),
        forall|g: int|
            from <= g < at ==> !linked(ink, thresh, #[trigger] groups[g][0], x),
        at < groups.len() ==> linked(ink, thresh, groups[at as int][0], x),
    ensures
        home(ink, thresh, groups, x, from) == at,
    decreases at - from,
{
    if from < at {
        assert(!linked(ink, thresh, groups[from as int][0], x));
        lemma_home(ink, thresh, groups, x, from + 1, at);
    }
}

/// The positions of the groups' first strokes among the items.
spec fn leaders_fit(groups: Seq<Seq<int>>, items: Seq<int>, leaders: Seq<usize>) -> bool {
    &&& leaders.len() == groups.len()
    &&& forall|g: int|
        0 <= g < groups.len() ==> (#[trigger] leaders[g]) < items.len() && groups[g].len() > 0
            && items[leaders[g] as int] == groups[g][0]
}

/// Gather the items into groups by their roots, with the left edge of each group.
fn gather(
    strokes: &[Stroke],
    items: &Vec<Item>,
    thresh: F32,
    forest_in: Vec<usize>,
    Ghost(root): Ghost<Seq<int>>,
) -> (r: (Vec<Vec<usize>>, Vec<F32>))
    requires
        items_fit(crate::stroke::trajectories(strokes@), items@, strokes@.len()),
        forest_in.len() == items.len(),
        forest(forest_in@, root),
        joined(
            crate::stroke::trajectories(strokes@),
            thresh,
            item_strokes(items@),
            root,
            items.len() as int,
            0,
        ),
        connected(crate::stroke::trajectories(strokes@), thresh, item_strokes(items@), root),
    ensures
        ({
            let ink = crate::stroke::trajectories(strokes@);
            let its = item_strokes(items@);
            &&& group_views(r.0@) == gathered(ink, thresh, its, its.len())
            &&& r.1@ == left_edges(ink, group_views(r.0@))
        }),
{
    let ghost ink = crate::stroke::trajectories(strokes@);
    let ghost its = item_strokes(items@);
    let mut parent: Vec<usize> = forest_in;
    let mut roots: Vec<usize> = Vec::new();
    let mut groups: Vec<Vec<usize>> = Vec::new();
    let mut edges: Vec<F32> = Vec::new();
    let ghost mut leaders: Seq<usize> = Seq::empty();
    let mut a: usize = 0;
    assert(group_views(groups@) =~= Seq::<Seq<int>>::empty());
    assert(left_edges(ink, group_views(groups@)) =~= Seq::<F32>::empty());
    while a < items.len()
        invariant
            a <= items.len(),
            ink == crate::stroke::trajectories(strokes@),
            its == item_strokes(items@),
            items_fit(ink, items@, strokes@.len()),
            parent.len() == items.len(),
            forest(parent@, root),
            joined(ink, thresh, its, root, its.len() as int, 0),
            connected(ink, thresh, its, root),
            group_views(groups@) == gathered(ink, thresh, its, a as nat),
            edges@ == left_edges(ink, group_views(groups@)),
            leaders_fit(group_views(groups@), its, leaders),
            roots.len() == groups.len(),
            forall|g: int| 0 <= g < roots.len() ==> #[trigger] roots[g] == root[leaders[g] as int],
        decreases items.len() - a,
    {
        let ghost before = group_views(groups@);
        let r = find(&mut parent, a, Ghost(root));
        let stroke: usize = items[a].stroke;
        let edge = items[a].bbox.min_x;
        let ghost x = its[a as int];
        assert(x == stroke);
        let mut g: usize = 0;
        while g < roots.len() && roots[g] != r
            invariant
                g <= roots.len(),
                a < items.len(),
                its.len() == items.len(),
                x == its[a as int],
                r == root[a as int],
                its == live(ink, ink.len()),
                parent.len() == items.len(),
                forest(parent@, root),
                joined(ink, thresh, its, root, its.len() as int, 0),
                connected(ink, thresh, its, root),
                before.len() == roots.len(),
                leaders_fit(before, its, leaders),
                forall|g: int|
                    0 <= g < roots.len() ==> #[trigger] roots[g] == root[leaders[g] as int],
                forall|k: int|
                    0 <= k < g ==> !linked(ink, thresh, #[trigger] before[k][0], x),
            decreases roots.len() - g,
        {
            proof {
                let lead = leaders[g as int] as int;
                lemma_linked(ink, thresh, its, parent@, root, lead, a as int);
                assert(roots[g as int] == root[lead]);
            }
            g = g + 1;
        }
        proof {
            if g < roots.len() {
                let lead = leaders[g as int] as int;
                lemma_linked(ink, thresh, its, parent@, root, lead, a as int);
                assert(roots[g as int] == root[lead]);
            }
            lemma_home(ink, thresh, before, x, 0, g as nat);
        }
        if g < roots.len() {
            let ghost group = before[g as int];
            let mut members: Vec<usize> = Vec::new();
            let cur = &groups[g];
            let mut k: usize = 0;
            while k < cur.len()
                invariant
                    k <= cur.len(),
                    members@ == cur@.take(k as int),
                decreases cur.len() - k,
            {
                members.push(cur[k]);
                k = k + 1;
            }
            assert(cur@.take(k as int) =~= cur@);
            members.push(stroke);
            proof {
                assert(crate::sort::as_ints(members@) =~= group.push(x));
                assert(group.len() > 0);
                assert(group.push(x).drop_last() =~= group);
            }
            let new_edge = edges[g].min(edge);
            assert(edges@[g as int] == left_edge(ink, group));
            edges.set(g, new_edge);
            groups.set(g, members);
            proof {
                assert(group_views(groups@) =~= before.update(g as int, group.push(x)));
                assert(edges@ =~= left_edges(ink, group_views(groups@)));
                assert(leaders_fit(group_views(groups@), its, leaders)) by {
                    assert forall|q: int| 0 <= q < groups.len() implies (#[trigger] leaders[q])
                        < its.len() && group_views(groups@)[q].len() > 0 && its[leaders[q] as int]
                        == group_views(groups@)[q][0] by {
                        assert(leaders[q] < its.len());
                        assert(before[q].len() > 0);
                    }
                }
            }
        } else {
            let mut members: Vec<usize> = Vec::new();
            members.push(stroke);
            proof {
                assert(crate::sort::as_ints(members@) =~= seq![x]);
            }
            groups.push(members);
            roots.push(r);
            edges.push(edge);
            proof {
                leaders = leaders.push(a);
                assert(group_views(groups@) =~= before.push(seq![x]));
                assert(left_edge(ink, seq![x]) == edge);
                assert(edges@ =~= left_edges(ink, group_views(groups@)));
            }
        }
        a = a + 1;
    }
    (groups, edges)
}

// ---------------------------------------------------------------------------------------------
// The two bars of an equals sign
// ---------------------------------------------------------------------------------------------
/// 40 degrees, in radians: a steeper stroke is no bar of an equals sign.
pub const STEEP: u32 = 0x3f32_b8c2;

/// 25 degrees, in radians: the two bars of an equals sign slant together.
pub const SKEW: u32 = 0x3edf_66f3;

/// 1.35: how much longer than its endpoint span the path of a straight stroke may be.
pub const STRAIGHT: u32 = 0x3fac_cccd;

/// 2.4: how much wider than the other one a bar of an equals sign may not be.
pub const WIDTH_RATIO: u32 = 0x4019_999a;

/// 0.6: how much of the narrower bar the x-overlap has to exceed.
pub const OVERLAP: u32 = 0x3f19_999a;

/// 1.2: how far apart, in widths of the wider bar, the two bars may not be.
pub const BAR_GAP: u32 = 0x3f99_999a;

/// The box of the strokes of a group, if any of them has a point.
pub open spec fn group_box(ink: Seq<Seq<Point>>, group: Seq<int>) -> Option<BBox>
    decreases group.len(),
{
    if group.len() == 0 {
        None
    } else {
        match (group_box(ink, group.drop_last()), crate::stroke::extent_of(ink[group.last()])) {
            (Some(a), Some(b)) => Some(a.union(&b)),
            (Some(a), None) => Some(a),
            (None, b) => b,
        }
    }
}

/// The length of the path through the first `n` points.
pub open spec fn path_length(points: Seq<Point>, n: nat) -> F32
    decreases n,
{
    if n <= 1 {
        num(ZERO)
    } else {
        let p = points[n - 2];
        let q = points[n - 1];
        path_length(points, (n - 1) as nat).plus(q.x.minus(p.x).hypot(q.y.minus(p.y)))
    }
}

/// How far the first `n` points stray from the line through the first point in direction
/// `(ux, uy)`.
pub open spec fn thickness(points: Seq<Point>, ux: F32, uy: F32, n: nat) -> F32
    decreases n,
{
    if n == 0 {
        num(ZERO)
    } else {
        let p = points[n - 1];
        let off = p.x.minus(points[0].x).times(uy).minus(p.y.minus(points[0].y).times(ux)).abs();
        thickness(points, ux, uy, (n - 1) as nat).max(off)
    }
}

/// The box and slant of a group that is a single bar: one stroke that is close to horizontal,
/// straight, and much longer than thick in its own direction. `angle` is the arctangent.
pub open spec fn bar(ink: Seq<Seq<Point>>, group: Seq<int>, angle: Fn2) -> Option<(BBox, F32)> {
    if group.len() != 1 || ink[group[0]].len() == 0 {
        None
    } else {
        let points = ink[group[0]];
        let dx = points.last().x.minus(points[0].x);
        let dy = points.last().y.minus(points[0].y);
        let len = dx.hypot(dy);
        let theta = angle(dy, dx.abs());
        let path = path_length(points, points.len());
        let thick = thickness(points, dx.over(len), dy.over(len), points.len());
        if theta.abs().gt(num(STEEP)) || len.lt(num(TINY)) || path.over(len).gt(num(STRAIGHT)) {
            None
        } else if len.over(thick.max(num(TINY))).gt(num(LINE_ASPECT)) {
            Some((crate::stroke::extent(points), theta))
        } else {
            None
        }
    }
}

/// The middle of a box's vertical range.
pub open spec fn middle_y(b: BBox) -> F32 {
    b.min_y.plus(b.max_y).over(num(TWO))
}

/// The middle of a box's horizontal range.
pub open spec fn middle_x(b: BBox) -> F32 {
    b.min_x.plus(b.max_x).over(num(TWO))
}

/// Do two bars have the slants, widths, overlap and distance of an equals sign?
pub open spec fn bars_match(a: BBox, ta: F32, b: BBox, tb: F32) -> bool {
    let wa = a.max_x.minus(a.min_x);
    let wb = b.max_x.minus(b.min_x);
    let overlap = a.max_x.min(b.max_x).minus(a.min_x.max(b.min_x)).max(num(ZERO));
    let vgap = middle_y(a).minus(middle_y(b)).abs();
    &&& !ta.minus(tb).abs().gt(num(SKEW))
    &&& !wa.max(wb).over(wa.min(wb).max(num(TINY))).ge(num(WIDTH_RATIO))
    &&& !overlap.le(num(OVERLAP).times(wa.min(wb)))
    &&& !vgap.ge(num(BAR_GAP).times(wa.max(wb)))
}

/// Is the box `c` centered in the corridor beyond two bars: in their shared x-range, and above
/// the upper or below the lower one by less than twice their distance?
pub open spec fn in_corridor(a: BBox, b: BBox, c: BBox) -> bool {
    let vgap = middle_y(a).minus(middle_y(b)).abs();
    let reach = num(TWO).times(vgap);
    let a_first = a.min_y.plus(a.max_y).le(b.min_y.plus(b.max_y));
    let (upper, lower) = if a_first {
        (a, b)
    } else {
        (b, a)
    };
    let cx = middle_x(c);
    let cy = middle_y(c);
    &&& cx.gt(a.min_x.max(b.min_x))
    &&& cx.lt(a.max_x.min(b.max_x))
    &&& {
        ||| cy.gt(upper.min_y.minus(reach)) && cy.lt(upper.min_y)
        ||| cy.gt(lower.max_y) && cy.lt(lower.max_y.plus(reach))
    }
}

/// How far apart two bars are.
pub open spec fn bar_distance(a: BBox, b: BBox) -> F32 {
    middle_y(a).minus(middle_y(b)).abs()
}

/// Is the box `d` centered beside three bars: in the x-range that they cover, and beyond them by
/// less than `reach`?
pub open spec fn beside(bars: BBox, reach: F32, d: BBox) -> bool {
    let cx = middle_x(d);
    let cy = middle_y(d);
    &&& cx.gt(bars.min_x)
    &&& cx.lt(bars.max_x)
    &&& cy.gt(bars.min_y.minus(reach))
    &&& cy.lt(bars.max_y.plus(reach))
}

/// Does group `l` lie beside the bars at `i`, `i + 1` and `k`, and is none of them?
pub open spec fn attends(
    ink: Seq<Seq<Point>>,
    groups: Seq<Seq<int>>,
    i: int,
    k: int,
    bars: BBox,
    reach: F32,
    l: int,
) -> bool {
    l != i && l != i + 1 && l != k && match group_box(ink, groups[l]) {
        Some(d) => beside(bars, reach, d),
        None => false,
    }
}

/// Is group `k` the third bar of a sign of three? It is a bar that matches one of the two, and the
/// three stand alone; a minus in a fraction stands beside other content.
pub open spec fn third_bar(
    ink: Seq<Seq<Point>>,
    groups: Seq<Seq<int>>,
    i: int,
    a: (BBox, F32),
    b: (BBox, F32),
    k: int,
    angle: Fn2,
) -> bool {
    match bar(ink, groups[k], angle) {
        Some((c, tc)) => {
            let bars = a.0.union(&b.0).union(&c);
            let reach = num(TWO).times(bar_distance(a.0, b.0));
            &&& bars_match(a.0, a.1, c, tc) || bars_match(b.0, b.1, c, tc)
            &&& forall|l: int|
                0 <= l < groups.len() ==> !#[trigger] attends(ink, groups, i, k, bars, reach, l)
        },
        None => false,
    }
}

/// Does group `k`, other than the bars at `i` and `i + 1`, lie in the corridor beyond them, and is
/// it no third bar?
pub open spec fn crowds(
    ink: Seq<Seq<Point>>,
    groups: Seq<Seq<int>>,
    i: int,
    a: (BBox, F32),
    b: (BBox, F32),
    k: int,
    angle: Fn2,
) -> bool {
    k != i && k != i + 1 && match group_box(ink, groups[k]) {
        Some(c) => in_corridor(a.0, b.0, c) && !third_bar(ink, groups, i, a, b, k, angle),
        None => false,
    }
}

/// How far apart the groups `i` and `i + 1` are, if they could be the two bars of an equals sign:
/// they are both bars, they match, and nothing but a third bar lies in the corridor beyond them; a
/// fraction always has content there.
pub open spec fn pair_at(
    ink: Seq<Seq<Point>>,
    groups: Seq<Seq<int>>,
    i: int,
    angle: Fn2,
) -> Option<F32> {
    if i + 1 < groups.len() {
        match (bar(ink, groups[i], angle), bar(ink, groups[i + 1], angle)) {
            (Some(a), Some(b)) => if bars_match(a.0, a.1, b.0, b.1) && forall|k: int|
                0 <= k < groups.len() ==> !#[trigger] crowds(ink, groups, i, a, b, k, angle) {
                Some(bar_distance(a.0, b.0))
            } else {
                None
            },
            _ => None,
        }
    } else {
        None
    }
}

/// Are the groups `i` and `i + 1` the two bars of an equals sign? Of two pairs that share a bar it
/// is the closer one.
pub open spec fn equals_sign(
    ink: Seq<Seq<Point>>,
    groups: Seq<Seq<int>>,
    i: int,
    angle: Fn2,
) -> bool {
    match (pair_at(ink, groups, i, angle), pair_at(ink, groups, i + 1, angle)) {
        (Some(d), Some(next)) => !next.lt(d),
        (Some(_), None) => true,
        (None, _) => false,
    }
}

/// The groups from `i` on, with the two bars of each equals sign in one group.
pub open spec fn with_equals(
    ink: Seq<Seq<Point>>,
    groups: Seq<Seq<int>>,
    i: nat,
    angle: Fn2,
) -> Seq<Seq<int>>
    decreases groups.len() - i,
{
    if i >= groups.len() {
        Seq::empty()
    } else if equals_sign(ink, groups, i as int, angle) {
        seq![groups[i as int] + groups[i as int + 1]] + with_equals(ink, groups, i + 2, angle)
    } else {
        seq![groups[i as int]] + with_equals(ink, groups, i + 1, angle)
    }
}

/// The strokes in symbols, from left to right.
pub open spec fn symbols_of(ink: Seq<Seq<Point>>, angle: Fn2) -> Seq<Seq<int>> {
    with_equals(ink, clusters(ink), 0, angle)
}

/// Are all members of the group indices of strokes?
pub open spec fn members_live(group: Seq<usize>, strokes: Seq<Stroke>) -> bool {
    forall|j: int| 0 <= j < group.len() ==> #[trigger] group[j] < strokes.len()
}

fn find_group_box(g: &Vec<usize>, strokes: &[Stroke]) -> (r: Option<BBox>)
    requires
        members_live(g@, strokes@),
    ensures
        r == group_box(crate::stroke::trajectories(strokes@), crate::sort::as_ints(g@)),
{
    let ghost ink = crate::stroke::trajectories(strokes@);
    let ghost group = crate::sort::as_ints(g@);
    let mut b: Option<BBox> = None;
    let mut j: usize = 0;
    while j < g.len()
        invariant
            j <= g.len(),
            members_live(g@, strokes@),
            ink == crate::stroke::trajectories(strokes@),
            group == crate::sort::as_ints(g@),
            b == group_box(ink, group.take(j as int)),
        decreases g.len() - j,
    {
        let points = &strokes[g[j]].points;
        proof {
            assert(group.take(j + 1).drop_last() =~= group.take(j as int));
            assert(group.take(j + 1).last() == g[j as int]);
            assert(ink[g[j as int] as int] == points@);
        }
        if points.len() > 0 {
            let p = points[0];
            let e = grow_all(BBox { min_x: p.x, min_y: p.y, max_x: p.x, max_y: p.y }, points);
            b =
            match b {
                Some(a) => Some(a.union(&e)),
                None => Some(e),
            };
        }
        j = j + 1;
    }
    assert(group.take(j as int) =~= group);
    b
}

/// The length of the path through the points.
pub(crate) fn measure_path(points: &Vec<Point>) -> (r: F32)
    ensures
        r == path_length(points@, points@.len()),
{
    let mut path: F32 = num(ZERO);
    let mut k: usize = 1;
    while k < points.len()
        invariant
            1 <= k,
            k == 1 || k <= points.len(),
            path == path_length(points@, k as nat),
        decreases points.len() - k,
    {
        let p = points[k - 1];
        let q = points[k];
        path = path.plus(q.x.minus(p.x).hypot(q.y.minus(p.y)));
        k = k + 1;
    }
    path
}

/// A bar, allowing for slant: elongation is measured in the stroke's own direction.
fn is_bar<A: Fn(F32, F32) -> F32>(g: &Vec<usize>, strokes: &[Stroke], atan2: &A) -> (r: Option<
    (BBox, F32),
>)
    requires
        members_live(g@, strokes@),
        crate::elementary::callable2(*atan2),
    ensures
        forall|h: Fn2| #[trigger]
            crate::elementary::computes2(*atan2, h) ==> r == bar(
                crate::stroke::trajectories(strokes@),
                crate::sort::as_ints(g@),
                h,
            ),
        r is Some ==> g.len() == 1,
{
    let ghost ink = crate::stroke::trajectories(strokes@);
    if g.len() != 1 {
        return None;
    }
    let points = &strokes[g[0]].points;
    assert(ink[g[0] as int] == points@);
    assert(crate::sort::as_ints(g@)[0] == g[0]);
    let n: usize = points.len();
    if n == 0 {
        return None;
    }
    let p0 = points[0];
    let p1 = points[n - 1];
    let dx = p1.x.minus(p0.x);
    let dy = p1.y.minus(p0.y);
    let len = dx.hypot(dy);
    let theta = atan2(dy, dx.abs());
    if theta.abs().gt(num(STEEP)) {
        return None;
    }
    let path = measure_path(points);
    if len.lt(num(TINY)) || path.over(len).gt(num(STRAIGHT)) {
        return None;
    }
    let ux = dx.over(len);
    let uy = dy.over(len);
    let mut thick: F32 = num(ZERO);
    let mut j: usize = 0;
    while j < n
        invariant
            j <= n,
            n == points.len(),
            n > 0,
            p0 == points[0],
            thick == thickness(points@, ux, uy, j as nat),
        decreases n - j,
    {
        let p = points[j];
        let off = p.x.minus(p0.x).times(uy).minus(p.y.minus(p0.y).times(ux)).abs();
        thick = thick.max(off);
        j = j + 1;
    }
    if len.over(thick.max(num(TINY))).gt(num(LINE_ASPECT)) {
        let b = grow_all(BBox { min_x: p0.x, min_y: p0.y, max_x: p0.x, max_y: p0.y }, points);
        Some((b, theta))
    } else {
        None
    }
}

fn match_bars(a: &BBox, ta: F32, b: &BBox, tb: F32) -> (r: bool)
    ensures
        r == bars_match(*a, ta, *b, tb),
{
    if ta.minus(tb).abs().gt(num(SKEW)) {
        return false;
    }
    let wa = a.max_x.minus(a.min_x);
    let wb = b.max_x.minus(b.min_x);
    let overlap = a.max_x.min(b.max_x).minus(a.min_x.max(b.min_x)).max(num(ZERO));
    let ya = a.min_y.plus(a.max_y).over(num(TWO));
    let yb = b.min_y.plus(b.max_y).over(num(TWO));
    let vgap = ya.minus(yb).abs();
    !(wa.max(wb).over(wa.min(wb).max(num(TINY))).ge(num(WIDTH_RATIO)) || overlap.le(
        num(OVERLAP).times(wa.min(wb)),
    ) || vgap.ge(num(BAR_GAP).times(wa.max(wb))))
}

fn lies_in_corridor(a: &BBox, b: &BBox, c: &BBox) -> (r: bool)
    ensures
        r == in_corridor(*a, *b, *c),
{
    let ya = a.min_y.plus(a.max_y).over(num(TWO));
    let yb = b.min_y.plus(b.max_y).over(num(TWO));
    let vgap = ya.minus(yb).abs();
    let reach = num(TWO).times(vgap);
    let (upper, lower) = if a.min_y.plus(a.max_y).le(b.min_y.plus(b.max_y)) {
        (a, b)
    } else {
        (b, a)
    };
    let cx = c.min_x.plus(c.max_x).over(num(TWO));
    let cy = c.min_y.plus(c.max_y).over(num(TWO));
    cx.gt(a.min_x.max(b.min_x)) && cx.lt(a.max_x.min(b.max_x)) && ((cy.gt(
        upper.min_y.minus(reach),
    ) && cy.lt(upper.min_y)) || (cy.gt(lower.max_y) && cy.lt(lower.max_y.plus(reach))))
}

fn lies_beside(bars: &BBox, reach: F32, d: &BBox) -> (r: bool)
    ensures
        r == beside(*bars, reach, *d),
{
    let cx = d.min_x.plus(d.max_x).over(num(TWO));
    let cy = d.min_y.plus(d.max_y).over(num(TWO));
    cx.gt(bars.min_x) && cx.lt(bars.max_x) && cy.gt(bars.min_y.minus(reach)) && cy.lt(
        bars.max_y.plus(reach),
    )
}

/// Is group `k` the third bar of a sign of three?
fn is_third_bar<A: Fn(F32, F32) -> F32>(
    groups: &Vec<Vec<usize>>,
    i: usize,
    a: (BBox, F32),
    b: (BBox, F32),
    k: usize,
    strokes: &[Stroke],
    atan2: &A,
) -> (r: bool)
    requires
        i + 1 < groups.len(),
        k < groups.len(),
        forall|g: int| 0 <= g < groups.len() ==> members_live(#[trigger] groups[g]@, strokes@),
        crate::elementary::callable2(*atan2),
    ensures
        forall|h: Fn2| #[trigger]
            crate::elementary::computes2(*atan2, h) ==> r == third_bar(
                crate::stroke::trajectories(strokes@),
                group_views(groups@),
                i as int,
                a,
                b,
                k as int,
                h,
            ),
{
    let ghost ink = crate::stroke::trajectories(strokes@);
    let ghost view = group_views(groups@);
    assert(view[k as int] == crate::sort::as_ints(groups[k as int]@));
    let third = is_bar(&groups[k], strokes, atan2);
    if third.is_none() {
        return false;
    }
    let (c, tc) = third.unwrap();
    if !match_bars(&a.0, a.1, &c, tc) && !match_bars(&b.0, b.1, &c, tc) {
        return false;
    }
    let bars = a.0.union(&b.0).union(&c);
    let ya = a.0.min_y.plus(a.0.max_y).over(num(TWO));
    let yb = b.0.min_y.plus(b.0.max_y).over(num(TWO));
    let reach = num(TWO).times(ya.minus(yb).abs());
    let mut l: usize = 0;
    while l < groups.len()
        invariant
            l <= groups.len(),
            i + 1 < groups.len(),
            k < groups.len(),
            view == group_views(groups@),
            ink == crate::stroke::trajectories(strokes@),
            forall|g: int|
                0 <= g < groups.len() ==> members_live(#[trigger] groups[g]@, strokes@),
            forall|q: int|
                0 <= q < l ==> !#[trigger] attends(ink, view, i as int, k as int, bars, reach, q),
            bars == a.0.union(&b.0).union(&c),
            reach == num(TWO).times(bar_distance(a.0, b.0)),
            forall|h: Fn2| #[trigger]
                crate::elementary::computes2(*atan2, h) ==> bar(ink, view[k as int], h) == Some(
                    (c, tc),
                ),
        decreases groups.len() - l,
    {
        if l != i && l != i + 1 && l != k {
            let whole = find_group_box(&groups[l], strokes);
            assert(view[l as int] == crate::sort::as_ints(groups[l as int]@));
            match whole {
                Some(d) => {
                    if lies_beside(&bars, reach, &d) {
                        assert(attends(ink, view, i as int, k as int, bars, reach, l as int));
                        return false;
                    }
                },
                None => {},
            }
        }
        l = l + 1;
    }
    true
}

/// How far apart the groups `i` and `i + 1` are, if they could be the two bars of an equals sign.
fn find_pair<A: Fn(F32, F32) -> F32>(
    groups: &Vec<Vec<usize>>,
    i: usize,
    strokes: &[Stroke],
    atan2: &A,
) -> (r: Option<F32>)
    requires
        i < groups.len(),
        forall|g: int| 0 <= g < groups.len() ==> members_live(#[trigger] groups[g]@, strokes@),
        crate::elementary::callable2(*atan2),
    ensures
        forall|h: Fn2| #[trigger]
            crate::elementary::computes2(*atan2, h) ==> r == pair_at(
                crate::stroke::trajectories(strokes@),
                group_views(groups@),
                i as int,
                h,
            ),
        r is Some ==> i + 1 < groups.len() && groups[i as int].len() == 1 && groups[i + 1].len()
            == 1,
{
    let ghost ink = crate::stroke::trajectories(strokes@);
    let ghost view = group_views(groups@);
    if i + 1 >= groups.len() {
        return None;
    }
    assert(view[i as int] == crate::sort::as_ints(groups[i as int]@));
    assert(view[i + 1] == crate::sort::as_ints(groups[i + 1]@));
    let first = is_bar(&groups[i], strokes, atan2);
    if first.is_none() {
        return None;
    }
    let second = is_bar(&groups[i + 1], strokes, atan2);
    if second.is_none() {
        return None;
    }
    let a = first.unwrap();
    let b = second.unwrap();
    if !match_bars(&a.0, a.1, &b.0, b.1) {
        return None;
    }
    let mut k: usize = 0;
    while k < groups.len()
        invariant
            k <= groups.len(),
            i + 1 < groups.len(),
            view == group_views(groups@),
            ink == crate::stroke::trajectories(strokes@),
            crate::elementary::callable2(*atan2),
            forall|g: int|
                0 <= g < groups.len() ==> members_live(#[trigger] groups[g]@, strokes@),
            bars_match(a.0, a.1, b.0, b.1),
            forall|h: Fn2| #[trigger]
                crate::elementary::computes2(*atan2, h) ==> bar(ink, view[i as int], h) == Some(a)
                    && bar(ink, view[i + 1], h) == Some(b) && forall|q: int|
                    0 <= q < k ==> !#[trigger] crowds(ink, view, i as int, a, b, q, h),
        decreases groups.len() - k,
    {
        if k != i && k != i + 1 {
            let whole = find_group_box(&groups[k], strokes);
            assert(view[k as int] == crate::sort::as_ints(groups[k as int]@));
            match whole {
                Some(c) => {
                    if lies_in_corridor(&a.0, &b.0, &c) && !is_third_bar(
                        groups,
                        i,
                        a,
                        b,
                        k,
                        strokes,
                        atan2,
                    ) {
                        assert forall|h: Fn2| #[trigger]
                            crate::elementary::computes2(*atan2, h) implies pair_at(
                            ink,
                            view,
                            i as int,
                            h,
                        ) is None by {
                            assert(crowds(ink, view, i as int, a, b, k as int, h));
                        }
                        return None;
                    }
                },
                None => {},
            }
        }
        k = k + 1;
    }
    let ya = a.0.min_y.plus(a.0.max_y).over(num(TWO));
    let yb = b.0.min_y.plus(b.0.max_y).over(num(TWO));
    Some(ya.minus(yb).abs())
}

/// Are the groups `i` and `i + 1` the two bars of an equals sign?
fn is_equals<A: Fn(F32, F32) -> F32>(
    groups: &Vec<Vec<usize>>,
    i: usize,
    strokes: &[Stroke],
    atan2: &A,
) -> (r: bool)
    requires
        i < groups.len(),
        forall|g: int| 0 <= g < groups.len() ==> members_live(#[trigger] groups[g]@, strokes@),
        crate::elementary::callable2(*atan2),
    ensures
        forall|h: Fn2| #[trigger]
            crate::elementary::computes2(*atan2, h) ==> r == equals_sign(
                crate::stroke::trajectories(strokes@),
                group_views(groups@),
                i as int,
                h,
            ),
        r ==> i + 1 < groups.len() && groups[i as int].len() == 1 && groups[i + 1].len() == 1,
{
    match find_pair(groups, i, strokes, atan2) {
        None => false,
        Some(d) => if i + 1 < groups.len() {
            match find_pair(groups, i + 1, strokes, atan2) {
                Some(next) => !next.lt(d),
                None => true,
            }
        } else {
            true
        },
    }
}

pub(crate) fn copy_group(g: &Vec<usize>) -> (r: Vec<usize>)
    ensures
        r@ == g@,
{
    let mut out: Vec<usize> = Vec::new();
    let mut k: usize = 0;
    while k < g.len()
        invariant
            k <= g.len(),
            out@ == g@.take(k as int),
        decreases g.len() - k,
    {
        out.push(g[k]);
        k = k + 1;
    }
    assert(g@.take(k as int) =~= g@);
    out
}

/// Merge the two bars of each equals sign into one group. Proximity cannot do this: the bars sit
/// further apart than the merge threshold.
fn merge_stacked_bars<A: Fn(F32, F32) -> F32>(
    groups: &Vec<Vec<usize>>,
    strokes: &[Stroke],
    atan2: &A,
) -> (r: Vec<Vec<usize>>)
    requires
        forall|g: int| 0 <= g < groups.len() ==> members_live(#[trigger] groups[g]@, strokes@),
        crate::elementary::callable2(*atan2),
    ensures
        forall|h: Fn2| #[trigger]
            crate::elementary::computes2(*atan2, h) ==> group_views(r@) == with_equals(
                crate::stroke::trajectories(strokes@),
                group_views(groups@),
                0,
                h,
            ),
        // whatever the function computes
        joined_from(group_views(r@), group_views(groups@)),
        forall|g: int| 0 <= g < r.len() ==> members_live(#[trigger] r[g]@, strokes@),
{
    let ghost ink = crate::stroke::trajectories(strokes@);
    let ghost view = group_views(groups@);
    let mut out: Vec<Vec<usize>> = Vec::new();
    let mut i: usize = 0;
    proof {
        assert(group_views(out@) =~= view.take(0));
        assert forall|h: Fn2| #[trigger] crate::elementary::computes2(*atan2, h) implies group_views(
            out@,
        ) + with_equals(ink, view, 0, h) == with_equals(ink, view, 0, h) by {
            assert(group_views(out@) + with_equals(ink, view, 0, h) =~= with_equals(
                ink,
                view,
                0,
                h,
            ));
        }
    }
    while i < groups.len()
        invariant
            i <= groups.len(),
            view == group_views(groups@),
            ink == crate::stroke::trajectories(strokes@),
            forall|g: int|
                0 <= g < groups.len() ==> members_live(#[trigger] groups[g]@, strokes@),
            crate::elementary::callable2(*atan2),
            forall|g: int| 0 <= g < out.len() ==> members_live(#[trigger] out[g]@, strokes@),
            members(group_views(out@)) == members(view.take(i as int)),
            forall|g: int|
                0 <= g < out.len() ==> made_of(view, #[trigger] group_views(out@)[g]),
            forall|h: Fn2| #[trigger]
                crate::elementary::computes2(*atan2, h) ==> group_views(out@) + with_equals(
                    ink,
                    view,
                    i as nat,
                    h,
                ) == with_equals(ink, view, 0, h),
        decreases groups.len() - i,
    {
        let pair = is_equals(groups, i, strokes, atan2);
        let mut g = copy_group(&groups[i]);
        let ghost before = group_views(out@);
        let ghost from = i as nat;
        assert(view[i as int] == crate::sort::as_ints(groups[i as int]@));
        if pair && i + 1 < groups.len() {
            assert(view[i + 1] == crate::sort::as_ints(groups[i + 1]@));
            let mut rest = copy_group(&groups[i + 1]);
            g.append(&mut rest);
            i = i + 2;
        } else {
            i = i + 1;
        }
        let ghost piece = crate::sort::as_ints(g@);
        proof {
            let at = from as int;
            let now = before.push(piece);
            assert(group_views(out@.push(g)) =~= now);
            assert(now.drop_last() =~= before);
            assert(view.take(at + 1).drop_last() =~= view.take(at));
            if pair {
                assert(piece =~= view[at] + view[at + 1]);
                assert(view.take(at + 2).drop_last() =~= view.take(at + 1));
                assert(members(view.take(at + 1)) == members(view.take(at)) + view[at]);
                assert(members(view.take(at + 2)) == members(view.take(at + 1)) + view[at + 1]);
                assert(members(now) =~= members(view.take(at + 2)));
            } else {
                assert(piece =~= view[at]);
                assert(members(now) =~= members(view.take(at + 1)));
            }
            assert(put_together(view, piece, at));
            assert forall|g: int| 0 <= g < now.len() implies made_of(view, #[trigger] now[g]) by {
                if g < before.len() {
                    assert(now[g] == before[g]);
                }
            }
            assert forall|h: Fn2| #[trigger] crate::elementary::computes2(*atan2, h) implies before.push(
                piece,
            ) + with_equals(ink, view, i as nat, h) == with_equals(ink, view, 0, h) by {
                assert(pair == equals_sign(ink, view, from as int, h));
                if pair {
                    assert(piece =~= view[from as int] + view[from as int + 1]);
                } else {
                    assert(piece =~= view[from as int]);
                }
                assert(before.push(piece) + with_equals(ink, view, i as nat, h) =~= before + (
                seq![piece] + with_equals(ink, view, i as nat, h)));
            }
        }
        out.push(g);
    }
    proof {
        assert(view.take(i as int) =~= view);
        assert forall|h: Fn2| #[trigger] crate::elementary::computes2(*atan2, h) implies group_views(
            out@,
        ) == with_equals(ink, view, 0, h) by {
            assert(group_views(out@) + with_equals(ink, view, i as nat, h) =~= group_views(out@));
        }
    }
    out
}

/// The groups in the given order.
fn arrange(groups: &Vec<Vec<usize>>, order: &Vec<usize>) -> (r: Vec<Vec<usize>>)
    requires
        crate::sort::is_permutation(crate::sort::as_ints(order@), groups.len() as nat),
    ensures
        group_views(r@) == Seq::new(
            groups.len() as nat,
            |g: int| group_views(groups@)[crate::sort::as_ints(order@)[g]],
        ),
{
    let ghost want = Seq::new(
        groups.len() as nat,
        |g: int| group_views(groups@)[crate::sort::as_ints(order@)[g]],
    );
    let mut out: Vec<Vec<usize>> = Vec::new();
    let mut k: usize = 0;
    while k < order.len()
        invariant
            k <= order.len(),
            order.len() == groups.len(),
            crate::sort::is_permutation(crate::sort::as_ints(order@), groups.len() as nat),
            want == Seq::new(
                groups.len() as nat,
                |g: int| group_views(groups@)[crate::sort::as_ints(order@)[g]],
            ),
            group_views(out@) == want.take(k as int),
        decreases order.len() - k,
    {
        assert(crate::sort::as_ints(order@)[k as int] == order[k as int]);
        let g = copy_group(&groups[order[k]]);
        proof {
            assert(group_views(out@.push(g)) =~= group_views(out@).push(
                crate::sort::as_ints(g@),
            ));
            assert(want.take(k + 1) =~= want.take(k as int).push(crate::sort::as_ints(g@)));
        }
        out.push(g);
        k = k + 1;
    }
    assert(want.take(k as int) =~= want);
    out
}

/// Cluster strokes into symbols by proximity, ordered from left to right. Returns groups of
/// indices into `strokes`; empty strokes are dropped. `atan2` is the arctangent of `y / x`.
pub fn segment<A: Fn(F32, F32) -> F32>(strokes: &[Stroke], atan2: &A) -> (r: Vec<Vec<usize>>)
    requires
        crate::elementary::callable2(*atan2),
    ensures
        forall|h: Fn2| #[trigger]
            crate::elementary::computes2(*atan2, h) ==> group_views(r@) == symbols_of(
                crate::stroke::trajectories(strokes@),
                h,
            ),
        // whatever the function computes
        joined_from(group_views(r@), clusters(crate::stroke::trajectories(strokes@))),
        forall|g: int| 0 <= g < r.len() ==> members_live(#[trigger] r[g]@, strokes@),
{
    let ghost ink = crate::stroke::trajectories(strokes@);
    let items = find_items(strokes);
    let ghost its = item_strokes(items@);
    if items.len() == 0 {
        let out: Vec<Vec<usize>> = Vec::new();
        proof {
            assert(clusters(ink) =~= Seq::<Seq<int>>::empty());
            assert(group_views(out@) =~= Seq::<Seq<int>>::empty());
        }
        return out;
    }
    let narrow = find_sizes(&items, true, Ghost(ink));
    let mid = if narrow.len() > 0 {
        median(&narrow)
    } else {
        let wide = find_sizes(&items, false, Ghost(ink));
        proof {
            lemma_all_sizes(ink, its, its.len());
        }
        median(&wide)
    };
    let thresh = num(MERGE_FRACTION).times(mid.max(num(TINY)));
    assert(thresh == threshold(ink));
    let (parent, root) = join(strokes, &items, thresh);
    let (groups, edges) = gather(strokes, &items, thresh, parent, root);
    let order = sort_indices(&edges);
    let sorted = arrange(&groups, &order);
    assert(group_views(sorted@) =~= clusters(ink));
    proof {
        lemma_clusters_in_range(ink);
        assert forall|g: int| 0 <= g < sorted.len() implies members_live(
            #[trigger] sorted[g]@,
            strokes@,
        ) by {
            assert(group_views(sorted@)[g] == crate::sort::as_ints(sorted[g]@));
            assert forall|j: int| 0 <= j < sorted[g].len() implies #[trigger] sorted[g]@[j]
                < strokes@.len() by {
                assert(clusters(ink)[g][j] == sorted[g]@[j]);
            }
        }
    }
    merge_stacked_bars(&sorted, strokes, atan2)
}

proof fn lemma_all_sizes(ink: Seq<Seq<Point>>, items: Seq<int>, n: nat)
    ensures
        sizes(ink, items, false, n).len() == n,
    decreases n,
{
    if n > 0 {
        lemma_all_sizes(ink, items, (n - 1) as nat);
    }
}

proof fn lemma_clusters_in_range(ink: Seq<Seq<Point>>)
    ensures
        forall|g: int, j: int|
            0 <= g < clusters(ink).len() && 0 <= j < clusters(ink)[g].len() ==> 0
                <= #[trigger] clusters(ink)[g][j] < ink.len() && ink[clusters(ink)[g][j]].len() > 0,
{
    let items = live(ink, ink.len());
    let thresh = threshold(ink);
    let found = gathered(ink, thresh, items, items.len());
    lemma_live(ink, ink.len());
    lemma_gathered(ink, thresh, items, items.len());
    let order = crate::sort::stable_order(left_edges(ink, found));
    crate::sort::lemma_order_is_permutation(left_edges(ink, found), found.len());
    assert forall|g: int, j: int|
        0 <= g < clusters(ink).len() && 0 <= j < clusters(ink)[g].len() implies 0
        <= #[trigger] clusters(ink)[g][j] < ink.len() && ink[clusters(ink)[g][j]].len() > 0 by {
        let v = found[order[g]][j];
        assert(0 <= order[g] < found.len());
        assert(items.take(items.len() as int).contains(v));
        assert(items.take(items.len() as int) =~= items);
        let k = choose|k: int| 0 <= k < items.len() && items[k] == v;
        assert(0 <= items[k] < ink.len());
    }
}

// ---------------------------------------------------------------------------------------------
// No stroke is lost
// ---------------------------------------------------------------------------------------------
/// How often `v` occurs in a list.
pub open spec fn times_in(s: Seq<int>, v: int) -> nat
    decreases s.len(),
{
    if s.len() == 0 {
        0
    } else {
        times_in(s.drop_last(), v) + if s.last() == v {
            1nat
        } else {
            0
        }
    }
}

/// How often `v` occurs in the groups.
pub open spec fn times_in_groups(groups: Seq<Seq<int>>, v: int) -> nat
    decreases groups.len(),
{
    if groups.len() == 0 {
        0
    } else {
        times_in_groups(groups.drop_last(), v) + times_in(groups.last(), v)
    }
}

proof fn lemma_times_concat(a: Seq<int>, b: Seq<int>, v: int)
    ensures
        times_in(a + b, v) == times_in(a, v) + times_in(b, v),
    decreases b.len(),
{
    if b.len() == 0 {
        assert(a + b =~= a);
    } else {
        assert((a + b).drop_last() =~= a + b.drop_last());
        lemma_times_concat(a, b.drop_last(), v);
    }
}

proof fn lemma_times_groups(a: Seq<Seq<int>>, b: Seq<Seq<int>>, v: int)
    ensures
        times_in_groups(a + b, v) == times_in_groups(a, v) + times_in_groups(b, v),
    decreases b.len(),
{
    if b.len() == 0 {
        assert(a + b =~= a);
    } else {
        assert((a + b).drop_last() =~= a + b.drop_last());
        lemma_times_groups(a, b.drop_last(), v);
    }
}

proof fn lemma_times_insert(groups: Seq<Seq<int>>, at: int, g: Seq<int>, v: int)
    requires
        0 <= at <= groups.len(),
    ensures
        times_in_groups(groups.insert(at, g), v) == times_in_groups(groups, v) + times_in(g, v),
{
    let a = groups.take(at);
    let b = groups.skip(at);
    assert(groups =~= a + b);
    assert(groups.insert(at, g) =~= a.push(g) + b);
    lemma_times_groups(a, b, v);
    lemma_times_groups(a.push(g), b, v);
    assert(a.push(g).drop_last() =~= a);
}

proof fn lemma_times_update(groups: Seq<Seq<int>>, at: int, x: int, v: int)
    requires
        0 <= at < groups.len(),
    ensures
        times_in_groups(groups.update(at, groups[at].push(x)), v) == times_in_groups(groups, v)
            + if x == v {
            1nat
        } else {
            0
        },
{
    let rest = groups.remove(at);
    assert(groups =~= rest.insert(at, groups[at]));
    assert(groups.update(at, groups[at].push(x)) =~= rest.insert(at, groups[at].push(x)));
    lemma_times_insert(rest, at, groups[at], v);
    lemma_times_insert(rest, at, groups[at].push(x), v);
    assert(groups[at].push(x).drop_last() =~= groups[at]);
}

proof fn lemma_times_gathered(
    ink: Seq<Seq<Point>>,
    thresh: F32,
    items: Seq<int>,
    n: nat,
    v: int,
)
    requires
        n <= items.len(),
    ensures
        times_in_groups(gathered(ink, thresh, items, n), v) == times_in(items.take(n as int), v),
    decreases n,
{
    if n > 0 {
        let before = gathered(ink, thresh, items, (n - 1) as nat);
        let x = items[n - 1];
        let g = home(ink, thresh, before, x, 0) as int;
        lemma_times_gathered(ink, thresh, items, (n - 1) as nat, v);
        assert(items.take(n as int).drop_last() =~= items.take(n - 1));
        if g < before.len() {
            lemma_times_update(before, g, x, v);
        } else {
            assert(before.push(seq![x]).drop_last() =~= before);
            assert(seq![x].drop_last() =~= Seq::<int>::empty());
            reveal_with_fuel(times_in, 2);
        }
    }
}

proof fn lemma_times_live(ink: Seq<Seq<Point>>, n: nat, v: int)
    requires
        n <= ink.len(),
    ensures
        times_in(live(ink, n), v) == if 0 <= v < n && ink[v].len() > 0 {
            1nat
        } else {
            0
        },
    decreases n,
{
    if n > 0 {
        lemma_times_live(ink, (n - 1) as nat, v);
        let before = live(ink, (n - 1) as nat);
        assert(before.push(n - 1).drop_last() =~= before);
    }
}

proof fn lemma_times_sorted(groups: Seq<Seq<int>>, keys: Seq<F32>, n: nat, v: int)
    requires
        n <= groups.len(),
        keys.len() == groups.len(),
    ensures
        times_in_groups(
            Seq::new(n, |i: int| groups[crate::sort::ordered(keys, n)[i]]),
            v,
        ) == times_in_groups(groups.take(n as int), v),
    decreases n,
{
    let order = crate::sort::ordered(keys, n);
    let now = Seq::new(n, |i: int| groups[order[i]]);
    crate::sort::lemma_order_is_permutation(keys, n);
    if n > 0 {
        lemma_times_sorted(groups, keys, (n - 1) as nat, v);
        let prev = crate::sort::ordered(keys, (n - 1) as nat);
        crate::sort::lemma_order_is_permutation(keys, (n - 1) as nat);
        crate::sort::lemma_insertion_point(keys, prev, keys[n - 1]);
        let at = crate::sort::insertion_point(keys, prev, keys[n - 1]);
        let before = Seq::new((n - 1) as nat, |i: int| groups[prev[i]]);
        assert(now =~= before.insert(at, groups[n - 1]));
        lemma_times_insert(before, at, groups[n - 1], v);
        assert(groups.take(n as int).drop_last() =~= groups.take(n - 1));
    } else {
        assert(now =~= groups.take(0));
    }
}

proof fn lemma_times_with_equals(
    ink: Seq<Seq<Point>>,
    groups: Seq<Seq<int>>,
    i: nat,
    angle: Fn2,
    v: int,
)
    requires
        i <= groups.len(),
    ensures
        times_in_groups(with_equals(ink, groups, i, angle), v) == times_in_groups(
            groups.skip(i as int),
            v,
        ),
    decreases groups.len() - i,
{
    let rest = groups.skip(i as int);
    reveal_with_fuel(times_in_groups, 3);
    if i < groups.len() {
        if equals_sign(ink, groups, i as int, angle) {
            let a = groups[i as int];
            let b = groups[i as int + 1];
            lemma_times_with_equals(ink, groups, i + 2, angle, v);
            lemma_times_groups(seq![a + b], with_equals(ink, groups, i + 2, angle), v);
            lemma_times_concat(a, b, v);
            assert(rest =~= seq![a, b] + groups.skip(i as int + 2));
            lemma_times_groups(seq![a, b], groups.skip(i as int + 2), v);
            assert(seq![a, b].drop_last() =~= seq![a]);
            assert(seq![a].drop_last() =~= Seq::<Seq<int>>::empty());
            assert(seq![a + b].drop_last() =~= Seq::<Seq<int>>::empty());
        } else {
            let a = groups[i as int];
            lemma_times_with_equals(ink, groups, i + 1, angle, v);
            lemma_times_groups(seq![a], with_equals(ink, groups, i + 1, angle), v);
            assert(rest =~= seq![a] + groups.skip(i as int + 1));
            lemma_times_groups(seq![a], groups.skip(i as int + 1), v);
        }
    } else {
        assert(rest =~= Seq::<Seq<int>>::empty());
    }
}

/// Every non-empty stroke is in exactly one symbol, once, and an empty stroke is in none.
pub proof fn law_every_stroke_is_in_one_symbol(ink: Seq<Seq<Point>>, angle: Fn2, v: int)
    ensures
        times_in_groups(symbols_of(ink, angle), v) == if 0 <= v < ink.len() && ink[v].len() > 0 {
            1nat
        } else {
            0
        },
{
    let items = live(ink, ink.len());
    let thresh = threshold(ink);
    let found = gathered(ink, thresh, items, items.len());
    lemma_times_live(ink, ink.len(), v);
    lemma_times_gathered(ink, thresh, items, items.len(), v);
    assert(items.take(items.len() as int) =~= items);
    lemma_times_sorted(found, left_edges(ink, found), found.len(), v);
    assert(found.take(found.len() as int) =~= found);
    assert(clusters(ink) =~= Seq::new(
        found.len(),
        |i: int| found[crate::sort::ordered(left_edges(ink, found), found.len())[i]],
    ));
    lemma_times_with_equals(ink, clusters(ink), 0, angle, v);
    assert(clusters(ink).skip(0) =~= clusters(ink));
}

/// The members of the groups, one group after the other.
pub open spec fn members(groups: Seq<Seq<int>>) -> Seq<int>
    decreases groups.len(),
{
    if groups.len() == 0 {
        Seq::empty()
    } else {
        members(groups.drop_last()) + groups.last()
    }
}

proof fn lemma_members_concat(a: Seq<Seq<int>>, b: Seq<Seq<int>>)
    ensures
        members(a + b) == members(a) + members(b),
    decreases b.len(),
{
    if b.len() == 0 {
        assert(a + b =~= a);
        assert(members(a) + members(b) =~= members(a));
    } else {
        assert((a + b).drop_last() =~= a + b.drop_last());
        lemma_members_concat(a, b.drop_last());
        assert(members(a) + members(b) =~= members(a) + members(b.drop_last()) + b.last());
    }
}

proof fn lemma_members_one(a: Seq<int>)
    ensures
        members(seq![a]) == a,
{
    assert(seq![a].drop_last() =~= Seq::<Seq<int>>::empty());
    assert(Seq::<int>::empty() + a =~= a);
    reveal_with_fuel(members, 2);
}

/// Is the group the one at `q`, or that one and the next, which have one member each?
pub open spec fn put_together(groups: Seq<Seq<int>>, group: Seq<int>, q: int) -> bool {
    &&& 0 <= q < groups.len()
    &&& group == groups[q] || (q + 1 < groups.len() && groups[q].len() == 1 && groups[q + 1].len()
        == 1 && group == groups[q] + groups[q + 1])
}

/// Is the group one of the groups, or two neighbours of one member each?
pub open spec fn made_of(groups: Seq<Seq<int>>, group: Seq<int>) -> bool {
    exists|q: int| put_together(groups, group, q)
}

/// Do the groups hold what those before held, in the same order, each being one of them or two
/// neighbours of one member each?
pub open spec fn joined_from(groups: Seq<Seq<int>>, before: Seq<Seq<int>>) -> bool {
    &&& members(groups) == members(before)
    &&& forall|g: int| 0 <= g < groups.len() ==> made_of(before, #[trigger] groups[g])
}

/// Putting the bars of equals signs together loses no stroke, doubles none and keeps their order,
/// and each group is one of the groups before or two neighbours of a single stroke each.
pub proof fn law_putting_bars_together_keeps_the_order(
    ink: Seq<Seq<Point>>,
    groups: Seq<Seq<int>>,
    angle: Fn2,
)
    ensures
        joined_from(with_equals(ink, groups, 0, angle), groups),
{
    lemma_put_together(ink, groups, 0, angle);
    assert(groups.skip(0) =~= groups);
}

proof fn lemma_put_together(ink: Seq<Seq<Point>>, groups: Seq<Seq<int>>, i: nat, angle: Fn2)
    requires
        i <= groups.len(),
    ensures
        members(with_equals(ink, groups, i, angle)) == members(groups.skip(i as int)),
        forall|g: int|
            0 <= g < with_equals(ink, groups, i, angle).len() ==> made_of(
                groups,
                #[trigger] with_equals(ink, groups, i, angle)[g],
            ),
    decreases groups.len() - i,
{
    let all = with_equals(ink, groups, i, angle);
    let rest = groups.skip(i as int);
    if i < groups.len() {
        let a = groups[i as int];
        let (head, next) = if equals_sign(ink, groups, i as int, angle) {
            (a + groups[i as int + 1], i + 2)
        } else {
            (a, i + 1)
        };
        lemma_put_together(ink, groups, next, angle);
        let tail = with_equals(ink, groups, next, angle);
        lemma_members_concat(seq![head], tail);
        lemma_members_one(head);
        lemma_members_one(a);
        if equals_sign(ink, groups, i as int, angle) {
            let b = groups[i as int + 1];
            assert(rest =~= seq![a] + (seq![b] + groups.skip(i as int + 2)));
            lemma_members_concat(seq![a], seq![b] + groups.skip(i as int + 2));
            lemma_members_concat(seq![b], groups.skip(i as int + 2));
            lemma_members_one(b);
            assert(head + members(tail) =~= a + (b + members(tail)));
        } else {
            assert(rest =~= seq![a] + groups.skip(i as int + 1));
            lemma_members_concat(seq![a], groups.skip(i as int + 1));
        }
        assert(put_together(groups, head, i as int));
        assert(made_of(groups, head));
        assert forall|g: int| 0 <= g < all.len() implies made_of(groups, #[trigger] all[g]) by {
            if g == 0 {
                assert(all[0] == head);
            } else {
                assert(all[g] == tail[g - 1]);
            }
        }
    } else {
        assert(rest =~= Seq::<Seq<int>>::empty());
    }
}

} // verus!
