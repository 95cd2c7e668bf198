//! Ink of any size: neither the bitmap nor the features depend on the scale of a drawing, and the
//! online features not on pressure, tilt and time either.
use super::shape::{all_moderate, longest, magnified, moderate, twice_box, LEAST};
use crate::elementary::Fn2;
use crate::float::{num, F32};
use crate::stroke::{BBox, Point, EPSILON, TINY};
use vstd::prelude::*;

verus! {

/// A number times 2 to the power of `k`.
pub open spec fn enlarged(a: F32, k: nat) -> F32
    decreases k,
{
    if k == 0 {
        a
    } else {
        crate::float::scale::twice(enlarged(a, (k - 1) as nat))
    }
}

/// Is `q` the point `p` with its coordinates times 2 to the power of `k`? Pressure, tilt and time
/// are left open.
pub open spec fn point_enlarges(p: Point, q: Point, k: nat) -> bool {
    q.x == enlarged(p.x, k) && q.y == enlarged(p.y, k)
}

/// Is the second list of points the first one, enlarged?
pub open spec fn points_enlarge(a: Seq<Point>, b: Seq<Point>, k: nat) -> bool {
    a.len() == b.len() && forall|j: int|
        #![trigger a[j]]
        #![trigger b[j]]
        0 <= j < a.len() ==> point_enlarges(a[j], b[j], k)
}

/// Is the second drawing the first one, enlarged?
pub open spec fn enlarges(a: Seq<Seq<Point>>, b: Seq<Seq<Point>>, k: nat) -> bool {
    a.len() == b.len() && forall|i: int|
        #![trigger a[i]]
        #![trigger b[i]]
        0 <= i < a.len() ==> points_enlarge(a[i], b[i], k)
}

/// Does nothing leave the finite numbers when the drawing is put into its frame: neither a
/// coordinate, nor the sums and the differences of the edges of its box?
pub open spec fn no_overflow(ink: Seq<Seq<Point>>) -> bool {
    let points = crate::stroke::all_points(ink);
    let e = crate::stroke::extent(points);
    &&& all_finite(points)
    &&& points.len() > 0 ==> {
        &&& e.min_x.plus(e.max_x).finite() && e.max_x.minus(e.min_x).finite()
        &&& e.min_y.plus(e.max_y).finite() && e.max_y.minus(e.min_y).finite()
    }
}

/// Are the coordinates of all points finite?
pub open spec fn all_finite(points: Seq<Point>) -> bool {
    forall|j: int| 0 <= j < points.len() ==> (#[trigger] points[j]).x.finite() && points[j].y.finite()
}

/// Can the sums of opposite edges of the box be halved: are they no odd multiples of the smallest
/// number? All finite numbers from 2 to the power of -125 on are even ones.
pub open spec fn halves(ink: Seq<Seq<Point>>) -> bool {
    let points = crate::stroke::all_points(ink);
    let e = crate::stroke::extent(points);
    points.len() > 0 ==> e.min_x.plus(e.max_x).units() % 2 == 0 && e.min_y.plus(e.max_y).units() % 2
        == 0
}

/// Can the coordinates of all points be doubled?
spec fn all_double(points: Seq<Point>) -> bool {
    forall|j: int|
        0 <= j < points.len() ==> crate::float::scale::doubles((#[trigger] points[j]).x)
            && crate::float::scale::doubles(points[j].y)
}

/// Points that are enlarged stay enlarged when they are put together, and belong to the same
/// strokes.
proof fn lemma_together(a: Seq<Seq<Point>>, b: Seq<Seq<Point>>, k: nat)
    requires
        enlarges(a, b, k),
    ensures
        points_enlarge(crate::stroke::all_points(a), crate::stroke::all_points(b), k),
        super::online::owners(a) == super::online::owners(b),
    decreases a.len(),
{
    if a.len() > 0 {
        let (c, d) = (a.drop_last(), b.drop_last());
        assert forall|i: int|
            #![trigger c[i]]
            #![trigger d[i]]
            0 <= i < c.len() implies points_enlarge(c[i], d[i], k) by {
            assert(c[i] == a[i] && d[i] == b[i]);
        }
        lemma_together(c, d, k);
        let (l, m) = (a.last(), b.last());
        assert(points_enlarge(a[a.len() - 1], b[b.len() - 1], k));
        let (p, q) = (crate::stroke::all_points(a), crate::stroke::all_points(b));
        let n = crate::stroke::all_points(c).len();
        assert forall|j: int|
            #![trigger p[j]]
            #![trigger q[j]]
            0 <= j < p.len() implies point_enlarges(p[j], q[j], k) by {
            if j < n {
                assert(p[j] == crate::stroke::all_points(c)[j]);
                assert(q[j] == crate::stroke::all_points(d)[j]);
            } else {
                assert(p[j] == l[j - n]);
                assert(q[j] == m[j - n]);
            }
        }
        assert(super::online::owners(a) =~= super::online::owners(b));
    }
}

/// The extent of points at the same places is the same.
proof fn lemma_hull_same(start: BBox, a: Seq<Point>, b: Seq<Point>)
    requires
        points_enlarge(a, b, 0),
    ensures
        crate::stroke::hull(start, a) == crate::stroke::hull(start, b),
    decreases a.len(),
{
    if a.len() > 0 {
        let (c, d) = (a.drop_last(), b.drop_last());
        assert forall|j: int|
            #![trigger c[j]]
            #![trigger d[j]]
            0 <= j < c.len() implies point_enlarges(c[j], d[j], 0) by {
            assert(c[j] == a[j] && d[j] == b[j]);
        }
        lemma_hull_same(start, c, d);
        assert(point_enlarges(a[a.len() - 1], b[b.len() - 1], 0));
    }
}

/// Can the edges of the box be doubled?
spec fn box_doubles(x: BBox) -> bool {
    &&& crate::float::scale::doubles(x.min_x) && crate::float::scale::doubles(x.min_y)
    &&& crate::float::scale::doubles(x.max_x) && crate::float::scale::doubles(x.max_y)
}

/// The extent of points twice as far from the origin is twice as large.
proof fn lemma_hull_twice(start: BBox, a: Seq<Point>, b: Seq<Point>)
    requires
        points_enlarge(a, b, 1),
        all_double(a),
        box_doubles(start),
    ensures
        box_doubles(crate::stroke::hull(start, a)),
        crate::stroke::hull(twice_box(start), b) == twice_box(crate::stroke::hull(start, a)),
    decreases a.len(),
{
    if a.len() > 0 {
        let (c, d) = (a.drop_last(), b.drop_last());
        assert forall|j: int|
            #![trigger c[j]]
            #![trigger d[j]]
            0 <= j < c.len() implies point_enlarges(c[j], d[j], 1) by {
            assert(c[j] == a[j] && d[j] == b[j]);
        }
        assert forall|j: int| 0 <= j < c.len() implies crate::float::scale::doubles(
            (#[trigger] c[j]).x,
        ) && crate::float::scale::doubles(c[j].y) by {
            assert(c[j] == a[j]);
        }
        lemma_hull_twice(start, c, d);
        let h = crate::stroke::hull(start, c);
        let last = a.len() - 1;
        let (p, q) = (a[last], b[last]);
        assert(point_enlarges(p, q, 1));
        reveal_with_fuel(enlarged, 2);
        assert(crate::float::scale::doubles(p.x) && crate::float::scale::doubles(p.y));
        crate::float::scale::lemma_twice_order(h.min_x, p.x);
        crate::float::scale::lemma_twice_order(h.min_y, p.y);
        crate::float::scale::lemma_twice_order(h.max_x, p.x);
        crate::float::scale::lemma_twice_order(h.max_y, p.y);
        crate::float::order::lemma_min_max(h.min_x, p.x);
        crate::float::order::lemma_min_max(h.min_y, p.y);
        crate::float::order::lemma_min_max(h.max_x, p.x);
        crate::float::order::lemma_min_max(h.max_y, p.y);
    }
}

/// The points of a drawing and those of the drawing twice as large, and their extents. What does
/// not overflow did not before it was doubled.
proof fn lemma_before_doubling(a: Seq<Seq<Point>>, b: Seq<Seq<Point>>)
    requires
        enlarges(a, b, 1),
        no_overflow(b),
    ensures
        no_overflow(a),
        all_double(crate::stroke::all_points(a)),
        crate::stroke::all_points(a).len() > 0 ==> {
            let e = crate::stroke::extent(crate::stroke::all_points(a));
            &&& box_doubles(e)
            &&& crate::stroke::extent(crate::stroke::all_points(b)) == twice_box(e)
            &&& crate::float::scale::doubles(e.min_x.plus(e.max_x))
            &&& crate::float::scale::doubles(e.min_y.plus(e.max_y))
            &&& crate::float::scale::doubles(e.max_x.minus(e.min_x))
            &&& crate::float::scale::doubles(e.max_y.minus(e.min_y))
        },
{
    let (p, q) = (crate::stroke::all_points(a), crate::stroke::all_points(b));
    lemma_together(a, b, 1);
    reveal_with_fuel(enlarged, 2);
    assert forall|j: int| 0 <= j < p.len() implies crate::float::scale::doubles((#[trigger] p[j]).x)
        && crate::float::scale::doubles(p[j].y) by {
        assert(point_enlarges(p[j], q[j], 1));
        assert(q[j].x.finite() && q[j].y.finite());
        lemma_doubles(p[j].x);
        lemma_doubles(p[j].y);
    }
    if p.len() > 0 {
        let e = crate::stroke::extent(p);
        assert(point_enlarges(p[0], q[0], 1));
        assert(crate::stroke::point_box(q[0]) == twice_box(crate::stroke::point_box(p[0])));
        assert(crate::float::scale::doubles(p[0].x) && crate::float::scale::doubles(p[0].y));
        lemma_hull_twice(crate::stroke::point_box(p[0]), p, q);
        crate::float::scale::lemma_sum_doubles(e.min_x, e.max_x);
        crate::float::scale::lemma_sum_doubles(e.min_y, e.max_y);
        crate::float::scale::lemma_twice_neg(e.min_x);
        crate::float::scale::lemma_twice_neg(e.min_y);
        crate::float::scale::lemma_sum_doubles(e.max_x, e.min_x.neg());
        crate::float::scale::lemma_sum_doubles(e.max_y, e.min_y.neg());
    }
}

/// A number whose double is finite can be doubled.
proof fn lemma_doubles(a: F32)
    requires
        crate::float::scale::twice(a).finite(),
    ensures
        crate::float::scale::doubles(a),
{
    assert(a.finite()) by {
        reveal(F32::times_spec);
    }
    if !crate::float::scale::doubles(a) {
        crate::float::scale::lemma_too_large(a);
    }
}

/// The middle of two edges, that of the edges twice as far out, and how far from the middle a
/// coordinate between them lies.
proof fn lemma_offset_twice(low: F32, high: F32, x: F32)
    requires
        crate::float::scale::doubles(low),
        crate::float::scale::doubles(high),
        crate::float::scale::doubles(x),
        crate::float::scale::doubles(low.plus(high)),
        crate::float::scale::doubles(high.minus(low)),
        low.plus(high).units() % 2 == 0,
        low.le(x),
        x.le(high),
    ensures
        ({
            let c = low.plus(high).times(num(crate::stroke::HALF));
            let d = crate::float::scale::twice(low).plus(crate::float::scale::twice(high)).times(
                num(crate::stroke::HALF),
            );
            &&& crate::float::scale::doubles(x.minus(c))
            &&& crate::float::scale::twice(x).minus(d) == crate::float::scale::twice(x.minus(c))
        }),
{
    let s = low.plus(high);
    let c = s.times(num(crate::stroke::HALF));
    crate::float::scale::lemma_half(s);
    crate::float::scale::lemma_twice(c);
    crate::float::scale::lemma_twice_plus(low, high);
    crate::float::scale::lemma_half_of_twice(s);
    crate::float::monotone::lemma_units_ordered(low, x);
    crate::float::monotone::lemma_units_ordered(x, high);
    // the middle lies between the edges
    crate::float::scale::lemma_twice(low);
    crate::float::scale::lemma_twice(high);
    crate::float::bound::lemma_sum_between(
        low,
        high,
        crate::float::scale::twice(low),
        crate::float::scale::twice(high),
    );
    assert(low.units() <= c.units() <= high.units());
    // so no offset is larger than the side
    let w = high.minus(low);
    let d = x.minus(c);
    crate::float::monotone::lemma_opposite(low);
    crate::float::monotone::lemma_opposite(high);
    crate::float::monotone::lemma_opposite(c);
    crate::float::monotone::lemma_sum_monotone(x, c.neg(), high, low.neg());
    crate::float::monotone::lemma_sum_monotone(low, high.neg(), x, c.neg());
    let v = low.minus(high);
    assert(v.finite() && v.units() == -w.units() && w.units() >= 0) by {
        reveal(F32::plus_spec);
        assert(crate::float::mag(0) == 0);
        crate::float::bound::lemma_size_ordered(w.magnitude(), w.magnitude());
        if high.units() > low.units() {
            crate::float::monotone::lemma_nearest((high.units() - low.units()) as nat, 1);
        }
    }
    assert(d.finite()) by {
        reveal(F32::le_spec);
    }
    crate::float::monotone::lemma_units_ordered(d, w);
    crate::float::monotone::lemma_units_ordered(v, d);
    crate::float::bound::lemma_size_ordered(d.magnitude(), w.magnitude());
    crate::float::scale::lemma_twice_minus(x, c);
}

/// Is the drawing empty, or larger than what is told apart from nothing?
pub open spec fn has_size(ink: Seq<Seq<Point>>) -> bool {
    let points = crate::stroke::all_points(ink);
    points.len() > 0 ==> longest(crate::stroke::extent(points)).gt(num(TINY))
}

/// One doubling.
proof fn lemma_double(a: Seq<Seq<Point>>, b: Seq<Seq<Point>>)
    requires
        enlarges(a, b, 1),
        no_overflow(b),
        halves(a),
        has_size(a),
    ensures
        super::online::normalized(b) == super::online::normalized(a),
        has_size(b),
        halves(b),
{
    let (p, q) = (crate::stroke::all_points(a), crate::stroke::all_points(b));
    lemma_together(a, b, 1);
    lemma_before_doubling(a, b);
    reveal_with_fuel(enlarged, 2);
    if p.len() > 0 {
        let e = crate::stroke::extent(p);
        let (w, h) = (e.max_x.minus(e.min_x), e.max_y.minus(e.min_y));
        crate::float::scale::lemma_twice_minus(e.max_x, e.min_x);
        crate::float::scale::lemma_twice_minus(e.max_y, e.min_y);
        crate::float::scale::lemma_twice_order(w, h);
        crate::float::order::lemma_min_max(w, h);
        crate::float::scale::lemma_twice_plus(e.min_x, e.max_x);
        crate::float::scale::lemma_twice_plus(e.min_y, e.max_y);
        crate::float::scale::lemma_twice(e.min_x.plus(e.max_x));
        crate::float::scale::lemma_twice(e.min_y.plus(e.max_y));
        let s = longest(e);
        crate::float::scale::lemma_twice(s);
        reveal(F32::lt_spec);
        reveal(F32::max_spec);
        assert(super::online::larger_side(e) == s);
        assert(super::online::larger_side(twice_box(e)) == crate::float::scale::twice(s));
        let cx = e.min_x.plus(e.max_x).times(num(crate::stroke::HALF));
        let cy = e.min_y.plus(e.max_y).times(num(crate::stroke::HALF));
        assert forall|i: int| 0 <= i < p.len() implies #[trigger] super::online::normalized(b)[i]
            == super::online::normalized(a)[i] by {
            assert(point_enlarges(p[i], q[i], 1));
            assert(crate::float::scale::doubles(p[i].x) && crate::float::scale::doubles(p[i].y));
            crate::stroke::law_extent_holds_every_point(p, i);
            lemma_offset_twice(e.min_x, e.max_x, p[i].x);
            lemma_offset_twice(e.min_y, e.max_y, p[i].y);
            crate::float::scale::lemma_twice_over(p[i].x.minus(cx), s);
            crate::float::scale::lemma_twice_over(p[i].y.minus(cy), s);
        }
    }
    assert(super::online::normalized(b) =~= super::online::normalized(a));
}

/// A drawing with its coordinates times 2 to the power of `k`, and all else as it was.
pub open spec fn grown_ink(ink: Seq<Seq<Point>>, k: nat) -> Seq<Seq<Point>> {
    Seq::new(
        ink.len(),
        |i: int|
            Seq::new(
                ink[i].len(),
                |j: int|
                    Point { x: enlarged(ink[i][j].x, k), y: enlarged(ink[i][j].y, k), ..ink[i][j] },
            ),
    )
}

/// The online features depend on the shape of a drawing and the order of its strokes alone: a
/// drawing that is enlarged by any power of two has the same ones, whatever its pressure, tilt and
/// times are. Its size has to be told apart from nothing, nothing may overflow when it is enlarged,
/// and the middle of its box must not be lost to the smallest numbers.
pub proof fn law_size_does_not_change_the_online_features(
    a: Seq<Seq<Point>>,
    b: Seq<Seq<Point>>,
    k: nat,
    n: int,
    angle: Fn2,
)
    requires
        enlarges(a, b, k),
        no_overflow(b),
        halves(a),
        has_size(a),
    ensures
        super::online::normalized(b) == super::online::normalized(a),
        super::online::online_of(b, n, angle) == super::online::online_of(a, n, angle),
{
    lemma_enlarge(a, b, k);
    lemma_together(a, b, k);
}

proof fn lemma_enlarge(a: Seq<Seq<Point>>, b: Seq<Seq<Point>>, k: nat)
    requires
        enlarges(a, b, k),
        no_overflow(b),
        halves(a),
        has_size(a),
    ensures
        super::online::normalized(b) == super::online::normalized(a),
        has_size(b),
        halves(b),
    decreases k,
{
    let (p, q) = (crate::stroke::all_points(a), crate::stroke::all_points(b));
    lemma_together(a, b, k);
    if k == 0 {
        if p.len() > 0 {
            assert(point_enlarges(p[0], q[0], 0));
            lemma_hull_same(crate::stroke::point_box(p[0]), p, q);
        }
        assert forall|i: int| 0 <= i < p.len() implies #[trigger] super::online::normalized(b)[i]
            == super::online::normalized(a)[i] by {
            assert(point_enlarges(p[i], q[i], 0));
        }
        assert(super::online::normalized(b) =~= super::online::normalized(a));
    } else {
        let before = (k - 1) as nat;
        let c = grown_ink(a, before);
        assert forall|i: int|
            #![trigger a[i]]
            #![trigger c[i]]
            0 <= i < a.len() implies points_enlarge(a[i], c[i], before) by {
        }
        assert forall|i: int|
            #![trigger c[i]]
            #![trigger b[i]]
            0 <= i < c.len() implies points_enlarge(c[i], b[i], 1) by {
            assert(points_enlarge(a[i], b[i], k));
            reveal_with_fuel(enlarged, 2);
            assert forall|j: int|
                #![trigger c[i][j]]
                #![trigger b[i][j]]
                0 <= j < c[i].len() implies point_enlarges(c[i][j], b[i][j], 1) by {
                assert(point_enlarges(a[i][j], b[i][j], k));
            }
        }
        lemma_before_doubling(c, b);
        lemma_enlarge(a, c, before);
        lemma_double(c, b);
    }
}

// ---------------------------------------------------------------------------------------------
// The bitmap and the global features
// ---------------------------------------------------------------------------------------------
/// Is the number zero, or not very small?
spec fn not_small(a: F32) -> bool {
    a.bits == 0 || a.magnitude() >= LEAST
}

/// What is not very small stays so.
proof fn lemma_not_small(a: F32, k: nat)
    requires
        not_small(a),
    ensures
        not_small(enlarged(a, k)),
    decreases k,
{
    if k > 0 {
        let b = enlarged(a, (k - 1) as nat);
        lemma_not_small(a, (k - 1) as nat);
        if crate::float::scale::doubles(b) {
            crate::float::scale::lemma_twice(b);
        } else if b.finite() {
            crate::float::scale::lemma_too_large(b);
        } else {
            reveal(F32::times_spec);
        }
    }
}

/// What is moderate before and after an enlargement is moderate on the way.
proof fn lemma_moderate_between(a: F32, k: nat)
    requires
        moderate(a),
        moderate(enlarged(a, k)),
        k > 0,
    ensures
        moderate(enlarged(a, (k - 1) as nat)),
{
    let b = enlarged(a, (k - 1) as nat);
    lemma_not_small(a, (k - 1) as nat);
    if crate::float::scale::doubles(b) {
        crate::float::scale::lemma_twice(b);
    } else if b.finite() {
        crate::float::scale::lemma_too_large(b);
    } else {
        reveal(F32::times_spec);
    }
}

/// An enlargement is a smaller one and a doubling, and moderate on the way.
proof fn lemma_grown(ink: Seq<Seq<Point>>, k: nat)
    requires
        all_moderate(ink),
        all_moderate(grown_ink(ink, k)),
        k > 0,
    ensures
        grown_ink(ink, k) == magnified(grown_ink(ink, (k - 1) as nat)),
        all_moderate(grown_ink(ink, (k - 1) as nat)),
{
    let (b, c) = (grown_ink(ink, k), grown_ink(ink, (k - 1) as nat));
    assert forall|i: int| 0 <= i < b.len() implies b[i] == #[trigger] magnified(c)[i] by {
        assert(b[i] =~= magnified(c)[i]);
    }
    assert(b =~= magnified(c));
    assert forall|i: int, j: int| 0 <= i < c.len() && 0 <= j < c[i].len() implies moderate(
        (#[trigger] c[i][j]).x,
    ) && moderate(c[i][j].y) by {
        assert(moderate(ink[i][j].x) && moderate(ink[i][j].y));
        assert(moderate(b[i][j].x) && moderate(b[i][j].y));
        lemma_moderate_between(ink[i][j].x, k);
        lemma_moderate_between(ink[i][j].y, k);
    }
}

proof fn lemma_grown_none(ink: Seq<Seq<Point>>)
    ensures
        grown_ink(ink, 0) == ink,
{
    assert forall|i: int| 0 <= i < ink.len() implies ink[i] == #[trigger] grown_ink(ink, 0)[i] by {
        assert(ink[i] =~= grown_ink(ink, 0)[i]);
    }
    assert(grown_ink(ink, 0) =~= ink);
}

/// Is the longer side of the ink above the bound? Ink without points has none.
pub open spec fn longer_than(ink: Seq<Seq<Point>>, bound: u32) -> bool {
    let points = crate::stroke::all_points(ink);
    points.len() > 0 && longest(crate::stroke::extent(points)).gt(num(bound))
}

/// What is longer than a positive bound is so when it is twice as large.
proof fn lemma_stays_longer(ink: Seq<Seq<Point>>, bound: u32)
    requires
        all_moderate(ink),
        longer_than(ink, bound),
        0 < bound < crate::float::INF_BITS,
    ensures
        longer_than(magnified(ink), bound),
{
    let s = longest(crate::stroke::extent(crate::stroke::all_points(ink)));
    super::shape::lemma_twice_the_side(ink);
    crate::float::scale::lemma_twice(s);
    reveal(F32::lt_spec);
}

/// Ink that is enlarged by any power of two gives the same bitmap, unless that takes it across the
/// size below which ink counts as a dot. Its coordinates have to be moderate before and after.
pub proof fn law_size_does_not_change_the_bitmap(ink: Seq<Seq<Point>>, k: nat, size: int)
    requires
        all_moderate(ink),
        all_moderate(grown_ink(ink, k)),
        longer_than(ink, EPSILON) || !longer_than(grown_ink(ink, k), EPSILON),
        0 <= size <= 0x4000_0000,
    ensures
        super::raster::bitmap_of(grown_ink(ink, k), size) == super::raster::bitmap_of(ink, size),
    decreases k,
{
    if k == 0 {
        lemma_grown_none(ink);
    } else {
        let c = grown_ink(ink, (k - 1) as nat);
        lemma_grown(ink, k);
        lemma_longer(ink, (k - 1) as nat, EPSILON);
        if longer_than(c, EPSILON) {
            lemma_stays_longer(c, EPSILON);
        }
        if crate::stroke::all_points(c).len() > 0 {
            super::shape::lemma_twice_the_side(c);
        }
        law_size_does_not_change_the_bitmap(ink, (k - 1) as nat, size);
        super::shape::lemma_twice_the_bitmap(c, size);
    }
}

/// What is longer than a positive bound stays so.
proof fn lemma_longer(ink: Seq<Seq<Point>>, k: nat, bound: u32)
    requires
        all_moderate(ink),
        all_moderate(grown_ink(ink, k)),
        0 < bound < crate::float::INF_BITS,
    ensures
        longer_than(ink, bound) ==> longer_than(grown_ink(ink, k), bound),
    decreases k,
{
    if k == 0 {
        lemma_grown_none(ink);
    } else if longer_than(ink, bound) {
        lemma_grown(ink, k);
        lemma_longer(ink, (k - 1) as nat, bound);
        lemma_stays_longer(grown_ink(ink, (k - 1) as nat), bound);
    }
}

/// Ink that is enlarged by any power of two has the same global features, unless it is so small
/// that its size is not told apart from nothing, or so long that the arc length of the larger ink
/// leaves the finite numbers. Its coordinates have to be moderate before and after.
pub proof fn law_size_does_not_change_the_global_features(ink: Seq<Seq<Point>>, k: nat)
    requires
        all_moderate(ink),
        all_moderate(grown_ink(ink, k)),
        has_size(ink),
        enlarged(super::raster::arc_of(ink, ink.len()), k).finite(),
    ensures
        super::raster::features_of(grown_ink(ink, k)) == super::raster::features_of(ink),
        super::raster::arc_of(grown_ink(ink, k), ink.len()) == enlarged(
            super::raster::arc_of(ink, ink.len()),
            k,
        ),
    decreases k,
{
    if k == 0 {
        lemma_grown_none(ink);
    } else {
        let c = grown_ink(ink, (k - 1) as nat);
        let arc = enlarged(super::raster::arc_of(ink, ink.len()), (k - 1) as nat);
        lemma_grown(ink, k);
        if !arc.finite() {
            reveal(F32::times_spec);
        } else if !crate::float::scale::doubles(arc) {
            crate::float::scale::lemma_too_large(arc);
        }
        law_size_does_not_change_the_global_features(ink, (k - 1) as nat);
        super::shape::lemma_arc_of(c, ink.len());
        lemma_longer(ink, (k - 1) as nat, TINY);
        lemma_points_stay(ink, (k - 1) as nat);
        super::shape::lemma_twice_the_global_features(c);
    }
}

/// An enlarged drawing has as many points.
proof fn lemma_points_stay(ink: Seq<Seq<Point>>, k: nat)
    ensures
        crate::stroke::all_points(grown_ink(ink, k)).len() == crate::stroke::all_points(ink).len(),
{
    let c = grown_ink(ink, k);
    assert forall|i: int|
        #![trigger ink[i]]
        #![trigger c[i]]
        0 <= i < ink.len() implies points_enlarge(ink[i], c[i], k) by {
    }
    lemma_together(ink, c, k);
}

} // verus!
