//! What the classifier is given depends on the shape of the ink alone, neither on its size nor on
//! its place: a symbol that is drawn twice as large, or moved without rounding, gives the very same
//! bitmap and the very same features. And it is bounded. Other sizes are for `enlarge`.
use crate::elementary::Fn2;
use crate::float::{num, F32, HIDDEN};
use crate::stroke::{BBox, Point, EPSILON, TINY};
use vstd::prelude::*;

verus! {

/// The magnitude bits of 2 to the power of -36.
pub const LEAST: u32 = 0x2d80_0000;

/// The magnitude bits of 2 to the power of 60.
pub const MOST: u32 = 0x5d80_0000;

/// Is the number zero, or neither very small nor very large: between 2 to the power of -36 and 2 to
/// the power of 60, in either direction?
pub open spec fn moderate(a: F32) -> bool {
    a.bits == 0 || LEAST <= a.magnitude() <= MOST
}

/// Are all coordinates moderate?
pub open spec fn all_moderate(ink: Seq<Seq<Point>>) -> bool {
    forall|i: int, j: int|
        0 <= i < ink.len() && 0 <= j < ink[i].len() ==> moderate((#[trigger] ink[i][j]).x)
            && moderate(ink[i][j].y)
}

/// A point twice as far from the origin.
pub open spec fn twice_point(p: Point) -> Point {
    Point { x: crate::float::scale::twice(p.x), y: crate::float::scale::twice(p.y), ..p }
}

/// A stroke twice as large.
pub open spec fn twice_stroke(points: Seq<Point>) -> Seq<Point> {
    Seq::new(points.len(), |i: int| twice_point(points[i]))
}

/// A drawing twice as large.
pub open spec fn magnified(ink: Seq<Seq<Point>>) -> Seq<Seq<Point>> {
    Seq::new(ink.len(), |i: int| twice_stroke(ink[i]))
}

/// A box twice as large.
pub open spec fn twice_box(b: BBox) -> BBox {
    BBox {
        min_x: crate::float::scale::twice(b.min_x),
        min_y: crate::float::scale::twice(b.min_y),
        max_x: crate::float::scale::twice(b.max_x),
        max_y: crate::float::scale::twice(b.max_y),
    }
}

/// Are all points moderate?
spec fn moderate_points(points: Seq<Point>) -> bool {
    forall|k: int| 0 <= k < points.len() ==> moderate((#[trigger] points[k]).x) && moderate(points[k].y)
}

spec fn moderate_box(b: BBox) -> bool {
    moderate(b.min_x) && moderate(b.min_y) && moderate(b.max_x) && moderate(b.max_y)
}

proof fn lemma_moderate(a: F32)
    requires
        moderate(a),
    ensures
        a.finite(),
        crate::float::scale::within(a, MOST as int),
        crate::float::scale::doubles(a),
        a.units() % 2 == 0,
{
    crate::float::scale::lemma_large_is_even(a);
}

proof fn lemma_all_points(ink: Seq<Seq<Point>>)
    requires
        all_moderate(ink),
    ensures
        crate::stroke::all_points(magnified(ink)) == twice_stroke(crate::stroke::all_points(ink)),
        moderate_points(crate::stroke::all_points(ink)),
    decreases ink.len(),
{
    let points = crate::stroke::all_points(ink);
    if ink.len() == 0 {
        assert(crate::stroke::all_points(magnified(ink)) =~= twice_stroke(points));
    } else {
        let before = ink.drop_last();
        assert(all_moderate(before)) by {
            assert forall|i: int, j: int|
                0 <= i < before.len() && 0 <= j < before[i].len() implies moderate(
                (#[trigger] before[i][j]).x,
            ) && moderate(before[i][j].y) by {
                assert(before[i][j] == ink[i][j]);
            }
        }
        lemma_all_points(before);
        assert(magnified(ink).drop_last() =~= magnified(before));
        assert(magnified(ink).last() =~= twice_stroke(ink.last()));
        assert(crate::stroke::all_points(magnified(ink)) =~= twice_stroke(points));
        let head = crate::stroke::all_points(before);
        let last = ink.len() - 1;
        assert forall|k: int| 0 <= k < points.len() implies moderate((#[trigger] points[k]).x)
            && moderate(points[k].y) by {
            if k < head.len() {
                assert(points[k] == head[k]);
            } else {
                assert(points[k] == ink[last][k - head.len()]);
            }
        }
    }
}

proof fn lemma_hull(start: BBox, points: Seq<Point>)
    requires
        moderate_box(start),
        moderate_points(points),
    ensures
        moderate_box(crate::stroke::hull(start, points)),
        crate::stroke::hull(twice_box(start), twice_stroke(points)) == twice_box(
            crate::stroke::hull(start, points),
        ),
    decreases points.len(),
{
    if points.len() > 0 {
        let before = points.drop_last();
        let p = points.last();
        assert(moderate_points(before)) by {
            assert forall|k: int| 0 <= k < before.len() implies moderate((#[trigger] before[k]).x)
                && moderate(before[k].y) by {
                assert(before[k] == points[k]);
            }
        }
        lemma_hull(start, before);
        let b = crate::stroke::hull(start, before);
        assert(twice_stroke(points).drop_last() =~= twice_stroke(before));
        assert(moderate(points[points.len() - 1].x));
        lemma_moderate(p.x);
        lemma_moderate(p.y);
        lemma_moderate(b.min_x);
        lemma_moderate(b.min_y);
        lemma_moderate(b.max_x);
        lemma_moderate(b.max_y);
        crate::float::scale::lemma_twice_order(b.min_x, p.x);
        crate::float::scale::lemma_twice_order(b.min_y, p.y);
        crate::float::scale::lemma_twice_order(b.max_x, p.x);
        crate::float::scale::lemma_twice_order(b.max_y, p.y);
        crate::float::order::lemma_min_max(b.min_x, p.x);
        crate::float::order::lemma_min_max(b.min_y, p.y);
        crate::float::order::lemma_min_max(b.max_x, p.x);
        crate::float::order::lemma_min_max(b.max_y, p.y);
    }
}

/// The longer side of the ink twice as large is twice as long.
pub proof fn lemma_twice_the_side(ink: Seq<Seq<Point>>)
    requires
        all_moderate(ink),
        crate::stroke::all_points(ink).len() > 0,
    ensures
        ({
            let s = longest(crate::stroke::extent(crate::stroke::all_points(ink)));
            let t = longest(crate::stroke::extent(crate::stroke::all_points(magnified(ink))));
            t == crate::float::scale::twice(s) && crate::float::scale::doubles(s)
        }),
        crate::stroke::all_points(magnified(ink)).len() > 0,
{
    lemma_extent(ink);
    lemma_all_points(ink);
    lemma_sides(crate::stroke::extent(crate::stroke::all_points(ink)));
}

/// The extent of the ink, and that of the ink twice as large.
proof fn lemma_extent(ink: Seq<Seq<Point>>)
    requires
        all_moderate(ink),
        crate::stroke::all_points(ink).len() > 0,
    ensures
        ({
            let b = crate::stroke::extent(crate::stroke::all_points(ink));
            moderate_box(b) && crate::stroke::extent(crate::stroke::all_points(magnified(ink)))
                == twice_box(b)
        }),
{
    let points = crate::stroke::all_points(ink);
    lemma_all_points(ink);
    assert(moderate(points[0].x));
    lemma_hull(crate::stroke::point_box(points[0]), points);
}

/// The difference of two moderate numbers, and that of their doubles.
proof fn lemma_moderate_minus(a: F32, b: F32)
    requires
        moderate(a),
        moderate(b),
    ensures
        ({
            let d = a.minus(b);
            &&& crate::float::scale::within(d, MOST + HIDDEN)
            &&& crate::float::scale::doubles(d)
            &&& crate::float::scale::twice(a).minus(crate::float::scale::twice(b))
                == crate::float::scale::twice(d)
        }),
{
    lemma_moderate(a);
    lemma_moderate(b);
    crate::float::scale::lemma_plus_within(b, b, MOST as int);
    crate::float::scale::lemma_plus_within(a, b.neg(), MOST as int);
    crate::float::scale::lemma_twice_minus(a, b);
}

/// The middle of two moderate numbers, and that of their doubles.
proof fn lemma_moderate_middle(a: F32, b: F32)
    requires
        moderate(a),
        moderate(b),
    ensures
        ({
            let c = a.plus(b).times(num(crate::stroke::HALF));
            &&& crate::float::scale::within(c, MOST + HIDDEN)
            &&& crate::float::scale::doubles(c)
            &&& crate::float::scale::twice(a).plus(crate::float::scale::twice(b)).times(
                num(crate::stroke::HALF),
            ) == crate::float::scale::twice(c)
        }),
{
    lemma_moderate(a);
    lemma_moderate(b);
    let s = a.plus(b);
    crate::float::scale::lemma_plus_within(a, b, MOST as int);
    crate::float::scale::lemma_even_sum(a, b);
    crate::float::scale::lemma_half(s);
    crate::float::scale::lemma_twice_plus(a, b);
    crate::float::scale::lemma_half_of_twice(s);
}

/// The offset of a moderate number from a middle, and that of their doubles.
proof fn lemma_offset(a: F32, c: F32)
    requires
        moderate(a),
        crate::float::scale::within(c, MOST + HIDDEN),
        crate::float::scale::doubles(c),
    ensures
        ({
            let d = a.minus(c);
            &&& crate::float::scale::within(d, MOST + 2 * HIDDEN)
            &&& crate::float::scale::doubles(d)
            &&& crate::float::scale::twice(a).minus(crate::float::scale::twice(c))
                == crate::float::scale::twice(d)
        }),
{
    lemma_moderate(a);
    crate::float::scale::lemma_plus_within(c, c, MOST + HIDDEN);
    crate::float::scale::lemma_plus_within(a, c.neg(), MOST + HIDDEN);
    crate::float::scale::lemma_twice_minus(a, c);
}

/// The longer side of the ink.
pub open spec fn longest(b: BBox) -> F32 {
    b.max_x.minus(b.min_x).max(b.max_y.minus(b.min_y))
}

/// The sides of a box, and those of the box twice as large.
proof fn lemma_sides(b: BBox)
    requires
        moderate_box(b),
    ensures
        ({
            let w = b.max_x.minus(b.min_x);
            let h = b.max_y.minus(b.min_y);
            let t = twice_box(b);
            &&& crate::float::scale::within(w, MOST + HIDDEN)
            &&& crate::float::scale::within(h, MOST + HIDDEN)
            &&& crate::float::scale::within(longest(b), MOST + HIDDEN)
            &&& crate::float::scale::doubles(w)
            &&& crate::float::scale::doubles(h)
            &&& crate::float::scale::doubles(longest(b))
            &&& t.max_x.minus(t.min_x) == crate::float::scale::twice(w)
            &&& t.max_y.minus(t.min_y) == crate::float::scale::twice(h)
            &&& longest(t) == crate::float::scale::twice(longest(b))
        }),
{
    lemma_moderate_minus(b.max_x, b.min_x);
    lemma_moderate_minus(b.max_y, b.min_y);
    let w = b.max_x.minus(b.min_x);
    let h = b.max_y.minus(b.min_y);
    crate::float::scale::lemma_twice_order(w, h);
    crate::float::order::lemma_min_max(w, h);
}

// ---------------------------------------------------------------------------------------------
// The bitmap
// ---------------------------------------------------------------------------------------------
/// Is the drawing's size told apart from nothing, or is it not even when it is doubled?
pub open spec fn settled(b: BBox) -> bool {
    longest(b).gt(num(EPSILON)) || !crate::float::scale::twice(longest(b)).gt(num(EPSILON))
}

/// Where a point lies on the canvas, and where its double lies in the frame of the ink twice as
/// large.
proof fn lemma_placed(b: BBox, hi: int, p: Point)
    requires
        moderate_box(b),
        settled(b),
        moderate(p.x),
        moderate(p.y),
        4 <= hi <= 0x1_0000_0000,
    ensures
        super::raster::placed(super::raster::frame_of(twice_box(b), hi), twice_point(p))
            == super::raster::placed(super::raster::frame_of(b, hi), p),
{
    let f = super::raster::frame_of(b, hi);
    let g = super::raster::frame_of(twice_box(b), hi);
    let ext = longest(b);
    let side = crate::float::convert::of_int(hi);
    let c = side.times(num(super::raster::CONTENT));
    lemma_sides(b);
    lemma_moderate_middle(b.min_x, b.max_x);
    lemma_moderate_middle(b.min_y, b.max_y);
    lemma_offset(p.x, f.cx);
    lemma_offset(p.y, f.cy);
    crate::float::scale::lemma_twice(ext);
    reveal(F32::lt_spec);
    if ext.gt(num(EPSILON)) {
        crate::float::scale::lemma_whole_between(hi);
        crate::float::scale::lemma_part_between(side, num(super::raster::CONTENT));
        crate::float::scale::lemma_quotient_halves(c, ext);
        assert(g.scale == c.over(crate::float::scale::twice(ext)));
        assert(f.scale == crate::float::scale::twice(g.scale));
    } else {
        assert(f.scale == num(0) && g.scale == num(0));
        crate::float::scale::lemma_twice(num(0));
    }
    crate::float::scale::lemma_shifted_product(p.x.minus(f.cx), g.scale);
    crate::float::scale::lemma_shifted_product(p.y.minus(f.cy), g.scale);
}

proof fn lemma_path_spots(b: BBox, hi: int, points: Seq<Point>, n: nat)
    requires
        moderate_box(b),
        settled(b),
        moderate_points(points),
        4 <= hi <= 0x1_0000_0000,
        n < points.len() || n == 0,
    ensures
        super::raster::path_spots(
            super::raster::frame_of(twice_box(b), hi),
            twice_stroke(points),
            n,
        ) == super::raster::path_spots(super::raster::frame_of(b, hi), points, n),
    decreases n,
{
    if n > 0 {
        lemma_path_spots(b, hi, points, (n - 1) as nat);
        assert(moderate(points[n - 1].x));
        assert(moderate(points[n as int].x));
        lemma_placed(b, hi, points[n - 1]);
        lemma_placed(b, hi, points[n as int]);
    }
}

proof fn lemma_ink_spots(b: BBox, hi: int, ink: Seq<Seq<Point>>, n: nat)
    requires
        moderate_box(b),
        settled(b),
        all_moderate(ink),
        4 <= hi <= 0x1_0000_0000,
        n <= ink.len(),
    ensures
        super::raster::ink_spots(super::raster::frame_of(twice_box(b), hi), magnified(ink), n)
            == super::raster::ink_spots(super::raster::frame_of(b, hi), ink, n),
    decreases n,
{
    if n > 0 {
        lemma_ink_spots(b, hi, ink, (n - 1) as nat);
        let points = ink[n - 1];
        assert(moderate_points(points)) by {
            assert forall|k: int| 0 <= k < points.len() implies moderate((#[trigger] points[k]).x)
                && moderate(points[k].y) by {
                assert(moderate(ink[n - 1][k].x));
            }
        }
        if points.len() == 1 {
            assert(moderate(points[0].x));
            lemma_placed(b, hi, points[0]);
        } else if points.len() > 1 {
            lemma_path_spots(b, hi, points, (points.len() - 1) as nat);
        }
    }
}

/// Ink that is drawn twice as large gives the same bitmap, unless doubling it takes it across the
/// size below which ink counts as a dot.
pub proof fn lemma_twice_the_bitmap(ink: Seq<Seq<Point>>, size: int)
    requires
        all_moderate(ink),
        crate::stroke::all_points(ink).len() > 0 ==> settled(
            crate::stroke::extent(crate::stroke::all_points(ink)),
        ),
        0 <= size <= 0x4000_0000,
    ensures
        super::raster::bitmap_of(magnified(ink), size) == super::raster::bitmap_of(ink, size),
{
    let points = crate::stroke::all_points(ink);
    lemma_all_points(ink);
    if points.len() > 0 && size > 0 {
        let b = crate::stroke::extent(points);
        lemma_extent(ink);
        lemma_ink_spots(b, size * 4, ink, ink.len());
    }
    assert(super::raster::bitmap_of(magnified(ink), size) =~= super::raster::bitmap_of(ink, size));
}

// ---------------------------------------------------------------------------------------------
// The global features
// ---------------------------------------------------------------------------------------------
/// One more step of a way, and the same step of the way twice as long.
proof fn lemma_step(p: Point, q: Point)
    requires
        moderate(p.x),
        moderate(p.y),
        moderate(q.x),
        moderate(q.y),
    ensures
        ({
            let dx = q.x.minus(p.x);
            let dy = q.y.minus(p.y);
            let ex = twice_point(q).x.minus(twice_point(p).x);
            let ey = twice_point(q).y.minus(twice_point(p).y);
            let r = dx.times(dx).plus(dy.times(dy)).sqrt();
            &&& crate::float::scale::positive(r)
            &&& crate::float::scale::doubles(r)
            &&& ex.times(ex).plus(ey.times(ey)).sqrt() == crate::float::scale::twice(r)
        }),
{
    lemma_moderate_minus(q.x, p.x);
    lemma_moderate_minus(q.y, p.y);
    crate::float::scale::lemma_coarse_minus(q.x, p.x);
    crate::float::scale::lemma_coarse_minus(q.y, p.y);
    crate::float::scale::lemma_twice_length(q.x.minus(p.x), q.y.minus(p.y));
}

proof fn lemma_arc_along(start: F32, points: Seq<Point>, n: nat)
    requires
        moderate_points(points),
        crate::float::scale::positive(start),
        n <= points.len(),
    ensures
        crate::float::scale::positive(super::raster::arc_along(start, points, n)),
        start.magnitude() <= super::raster::arc_along(start, points, n).magnitude(),
        crate::float::scale::doubles(super::raster::arc_along(start, points, n))
            ==> super::raster::arc_along(
            crate::float::scale::twice(start),
            twice_stroke(points),
            n,
        ) == crate::float::scale::twice(super::raster::arc_along(start, points, n)),
    decreases n,
{
    if n > 1 {
        let m = (n - 1) as nat;
        let before = super::raster::arc_along(start, points, m);
        lemma_arc_along(start, points, m);
        assert(moderate(points[n - 1].x));
        assert(moderate(points[n - 2].x));
        lemma_step(points[n - 2], points[n - 1]);
        let dx = points[n - 1].x.minus(points[n - 2].x);
        let dy = points[n - 1].y.minus(points[n - 2].y);
        let r = dx.times(dx).plus(dy.times(dy)).sqrt();
        crate::float::scale::lemma_positive_plus(before, r);
        if crate::float::scale::doubles(super::raster::arc_along(start, points, n)) {
            crate::float::scale::lemma_twice_plus(before, r);
        }
    }
}

pub proof fn lemma_arc_of(ink: Seq<Seq<Point>>, n: nat)
    requires
        all_moderate(ink),
        n <= ink.len(),
    ensures
        crate::float::scale::positive(super::raster::arc_of(ink, n)),
        crate::float::scale::doubles(super::raster::arc_of(ink, n)) ==> super::raster::arc_of(
            magnified(ink),
            n,
        ) == crate::float::scale::twice(super::raster::arc_of(ink, n)),
    decreases n,
{
    if n == 0 {
        crate::float::scale::lemma_twice(num(0));
    } else {
        let m = (n - 1) as nat;
        let points = ink[n - 1];
        assert(moderate_points(points)) by {
            assert forall|k: int| 0 <= k < points.len() implies moderate((#[trigger] points[k]).x)
                && moderate(points[k].y) by {
                assert(moderate(ink[n - 1][k].x));
            }
        }
        lemma_arc_of(ink, m);
        lemma_arc_along(super::raster::arc_of(ink, m), points, points.len());
    }
}

proof fn lemma_count_live(ink: Seq<Seq<Point>>, n: nat)
    requires
        n <= ink.len(),
    ensures
        super::raster::count_live(magnified(ink), n) == super::raster::count_live(ink, n),
    decreases n,
{
    if n > 0 {
        lemma_count_live(ink, (n - 1) as nat);
    }
}

/// A side of a box is not negative.
proof fn lemma_side_positive(low: F32, high: F32)
    requires
        moderate(low),
        moderate(high),
        low.le(high),
    ensures
        crate::float::scale::positive(high.minus(low)),
{
    lemma_moderate(low);
    lemma_moderate(high);
    lemma_moderate_minus(high, low);
    crate::float::monotone::lemma_units_ordered(low, high);
    crate::float::monotone::lemma_opposite(low);
    reveal(F32::le_spec);
    reveal(F32::plus_spec);
    reveal(F32::neg_spec);
    if high.units() == low.units() {
        crate::float::monotone::lemma_units_ordered(high, low);
    } else {
        crate::float::monotone::lemma_nearest((high.units() - low.units()) as nat, 1);
    }
}

/// Ink that is drawn twice as large has the same global features, unless it is so small that its
/// size is not told apart from nothing, or so long that its arc length leaves the finite numbers.
pub proof fn lemma_twice_the_global_features(ink: Seq<Seq<Point>>)
    requires
        all_moderate(ink),
        crate::stroke::all_points(ink).len() > 0 ==> longest(
            crate::stroke::extent(crate::stroke::all_points(ink)),
        ).gt(num(TINY)),
        crate::float::scale::doubles(super::raster::arc_of(ink, ink.len())),
    ensures
        super::raster::features_of(magnified(ink)) == super::raster::features_of(ink),
{
    let points = crate::stroke::all_points(ink);
    let arc = super::raster::arc_of(ink, ink.len());
    lemma_all_points(ink);
    lemma_count_live(ink, ink.len());
    lemma_arc_of(ink, ink.len());
    if points.len() == 0 {
        lemma_no_arc(ink, ink.len());
        lemma_no_arc(magnified(ink), ink.len());
    } else {
        let b = crate::stroke::extent(points);
        let s = longest(b);
        let w = b.max_x.minus(b.min_x);
        let h = b.max_y.minus(b.min_y);
        lemma_extent(ink);
        lemma_sides(b);
        assert forall|k: int| 0 <= k < points.len() implies !(#[trigger] points[k]).x.nan()
            && !points[k].y.nan() by {
            assert(moderate(points[k].x));
            lemma_moderate(points[k].x);
            lemma_moderate(points[k].y);
        }
        crate::stroke::law_extent_holds_every_point(points, 0);
        reveal(F32::le_spec);
        reveal(F32::lt_spec);
        lemma_side_positive(b.min_x, b.max_x);
        lemma_side_positive(b.min_y, b.max_y);
        crate::float::order::lemma_min_max(w, h);
        crate::float::scale::lemma_positive_plus(w, h);
        crate::float::scale::lemma_plus_within(w, h, MOST + HIDDEN);
        crate::float::scale::lemma_twice_plus(w, h);
        crate::float::scale::lemma_twice(w.plus(h));
        crate::float::scale::lemma_twice(s);
        crate::float::scale::lemma_twice_over(w, w.plus(h));
        crate::float::scale::lemma_twice_over(arc, s);
        let last = points.len() - 1;
        assert(moderate(points[0].x));
        assert(moderate(points[last].x));
        lemma_moderate_minus(points[0].x, b.min_x);
        lemma_moderate_minus(points[0].y, b.min_y);
        lemma_moderate_minus(points[last].x, b.min_x);
        lemma_moderate_minus(points[last].y, b.min_y);
        crate::float::scale::lemma_twice_over(points[0].x.minus(b.min_x), s);
        crate::float::scale::lemma_twice_over(points[0].y.minus(b.min_y), s);
        crate::float::scale::lemma_twice_over(points[last].x.minus(b.min_x), s);
        crate::float::scale::lemma_twice_over(points[last].y.minus(b.min_y), s);
    }
    assert(super::raster::features_of(magnified(ink)) =~= super::raster::features_of(ink));
}

/// Without points there is no arc.
proof fn lemma_no_arc(ink: Seq<Seq<Point>>, n: nat)
    requires
        n <= ink.len(),
        crate::stroke::all_points(ink).len() == 0,
    ensures
        super::raster::arc_of(ink, n) == num(0),
    decreases n,
{
    if n > 0 {
        lemma_no_arc(ink, (n - 1) as nat);
        lemma_no_points(ink, n - 1);
    }
}

proof fn lemma_no_points(ink: Seq<Seq<Point>>, i: int)
    requires
        0 <= i < ink.len(),
        crate::stroke::all_points(ink).len() == 0,
    ensures
        ink[i].len() == 0,
    decreases ink.len(),
{
    if i < ink.len() - 1 {
        lemma_no_points(ink.drop_last(), i);
        assert(ink.drop_last()[i] == ink[i]);
    }
}

// ---------------------------------------------------------------------------------------------
// Moving
// ---------------------------------------------------------------------------------------------
/// Is the number finite, and not the negative zero?
pub open spec fn plain(a: F32) -> bool {
    a.finite() && a.bits != crate::float::SIGN_BIT
}

/// Is `b` the number `a`, moved by `t` units?
pub open spec fn moved(a: F32, b: F32, t: int) -> bool {
    plain(a) && plain(b) && b.units() == a.units() + t
}

/// Are these the same points, moved?
pub open spec fn points_moved(a: Seq<Point>, b: Seq<Point>, tx: int, ty: int) -> bool {
    &&& a.len() == b.len()
    &&& forall|k: int|
        #![trigger a[k]]
        #![trigger b[k]]
        0 <= k < a.len() ==> moved(a[k].x, b[k].x, tx) && moved(a[k].y, b[k].y, ty)
}

/// Is this the same drawing, moved by `tx` and `ty` units without rounding?
pub open spec fn ink_moved(a: Seq<Seq<Point>>, b: Seq<Seq<Point>>, tx: int, ty: int) -> bool {
    &&& a.len() == b.len()
    &&& forall|i: int|
        #![trigger a[i]]
        #![trigger b[i]]
        0 <= i < a.len() ==> points_moved(a[i], b[i], tx, ty)
}

spec fn box_moved(a: BBox, b: BBox, tx: int, ty: int) -> bool {
    &&& moved(a.min_x, b.min_x, tx) && moved(a.max_x, b.max_x, tx)
    &&& moved(a.min_y, b.min_y, ty) && moved(a.max_y, b.max_y, ty)
}

/// Is the middle of the box where the middle of its corners is, without rounding?
pub open spec fn centred(b: BBox) -> bool {
    let cx = b.min_x.plus(b.max_x).times(num(crate::stroke::HALF));
    let cy = b.min_y.plus(b.max_y).times(num(crate::stroke::HALF));
    &&& cx.finite() && cy.finite()
    &&& 2 * cx.units() == b.min_x.units() + b.max_x.units()
    &&& 2 * cy.units() == b.min_y.units() + b.max_y.units()
}

/// Differences of the same number of units are the same.
proof fn lemma_same_minus(a: F32, c: F32, d: F32, e: F32)
    requires
        plain(a),
        c.finite(),
        plain(d),
        e.finite(),
        a.units() - c.units() == d.units() - e.units(),
    ensures
        a.minus(c) == d.minus(e),
{
    reveal(F32::plus_spec);
    crate::float::monotone::lemma_opposite(c);
    crate::float::monotone::lemma_opposite(e);
    if a.units() == c.units() {
        lemma_zero_sign(a, c);
        lemma_zero_sign(d, e);
    }
}

/// Where a difference is zero, it is the positive zero.
proof fn lemma_zero_sign(a: F32, c: F32)
    requires
        plain(a),
        c.finite(),
        a.units() == c.units(),
    ensures
        !(a.negative() && c.neg().negative()),
{
    reveal(F32::neg_spec);
    assert(crate::float::mag(0) == 0);
    if a.negative() {
        assert(a.magnitude() > 0);
        crate::float::lemma_mag_ordered(0, a.magnitude());
        if !c.negative() && c.magnitude() > 0 {
            crate::float::lemma_mag_ordered(0, c.magnitude());
        }
    }
}

proof fn lemma_moved_order(a: F32, b: F32, c: F32, d: F32, t: int)
    requires
        moved(a, c, t),
        moved(b, d, t),
    ensures
        moved(a.min(b), c.min(d), t),
        moved(a.max(b), c.max(d), t),
{
    reveal(F32::min_spec);
    reveal(F32::max_spec);
    crate::float::monotone::lemma_units_ordered(a, b);
    crate::float::monotone::lemma_units_ordered(b, a);
    crate::float::monotone::lemma_units_ordered(c, d);
    crate::float::monotone::lemma_units_ordered(d, c);
}

proof fn lemma_hull_moved(
    start: BBox,
    moved_start: BBox,
    a: Seq<Point>,
    b: Seq<Point>,
    tx: int,
    ty: int,
)
    requires
        box_moved(start, moved_start, tx, ty),
        points_moved(a, b, tx, ty),
    ensures
        box_moved(crate::stroke::hull(start, a), crate::stroke::hull(moved_start, b), tx, ty),
    decreases a.len(),
{
    if a.len() > 0 {
        let before = a.drop_last();
        let after = b.drop_last();
        assert(points_moved(before, after, tx, ty)) by {
            assert forall|k: int| 0 <= k < before.len() implies moved(
                #[trigger] before[k].x,
                after[k].x,
                tx,
            ) && moved(before[k].y, after[k].y, ty) by {
                assert(before[k] == a[k] && after[k] == b[k]);
            }
        }
        lemma_hull_moved(start, moved_start, before, after, tx, ty);
        let p = crate::stroke::hull(start, before);
        let q = crate::stroke::hull(moved_start, after);
        let last = a.len() - 1;
        assert(moved(a[last].x, b[last].x, tx));
        lemma_moved_order(p.min_x, a[last].x, q.min_x, b[last].x, tx);
        lemma_moved_order(p.max_x, a[last].x, q.max_x, b[last].x, tx);
        lemma_moved_order(p.min_y, a[last].y, q.min_y, b[last].y, ty);
        lemma_moved_order(p.max_y, a[last].y, q.max_y, b[last].y, ty);
    }
}

proof fn lemma_points_moved(a: Seq<Seq<Point>>, b: Seq<Seq<Point>>, tx: int, ty: int)
    requires
        ink_moved(a, b, tx, ty),
    ensures
        points_moved(crate::stroke::all_points(a), crate::stroke::all_points(b), tx, ty),
        super::online::owners(a) == super::online::owners(b),
    decreases a.len(),
{
    if a.len() > 0 {
        let before = a.drop_last();
        let after = b.drop_last();
        assert forall|i: int| 0 <= i < before.len() implies points_moved(
            #[trigger] before[i],
            after[i],
            tx,
            ty,
        ) by {
            assert(before[i] == a[i] && after[i] == b[i]);
        }
        lemma_points_moved(before, after, tx, ty);
        let last = a.len() - 1;
        assert(points_moved(a[last], b[last], tx, ty));
        let p = crate::stroke::all_points(a);
        let q = crate::stroke::all_points(b);
        let head = crate::stroke::all_points(before);
        assert forall|k: int| 0 <= k < p.len() implies moved(#[trigger] p[k].x, q[k].x, tx)
            && moved(p[k].y, q[k].y, ty) by {
            if k < head.len() {
                assert(p[k] == head[k]);
                assert(q[k] == crate::stroke::all_points(after)[k]);
            } else {
                assert(p[k] == a[last][k - head.len()]);
                assert(q[k] == b[last][k - head.len()]);
            }
        }
        assert(super::online::owners(a) =~= super::online::owners(b));
    } else {
        assert(super::online::owners(a) =~= super::online::owners(b));
    }
}

/// The extents of a drawing and of the drawing moved: the corners move along, the sides stay.
proof fn lemma_extent_moved(a: Seq<Seq<Point>>, b: Seq<Seq<Point>>, tx: int, ty: int)
    requires
        ink_moved(a, b, tx, ty),
        crate::stroke::all_points(a).len() > 0,
    ensures
        ({
            let p = crate::stroke::extent(crate::stroke::all_points(a));
            let q = crate::stroke::extent(crate::stroke::all_points(b));
            &&& box_moved(p, q, tx, ty)
            &&& p.max_x.minus(p.min_x) == q.max_x.minus(q.min_x)
            &&& p.max_y.minus(p.min_y) == q.max_y.minus(q.min_y)
        }),
{
    let x = crate::stroke::all_points(a);
    let y = crate::stroke::all_points(b);
    lemma_points_moved(a, b, tx, ty);
    assert(moved(x[0].x, y[0].x, tx));
    lemma_hull_moved(
        crate::stroke::point_box(x[0]),
        crate::stroke::point_box(y[0]),
        x,
        y,
        tx,
        ty,
    );
    let p = crate::stroke::extent(x);
    let q = crate::stroke::extent(y);
    lemma_same_minus(p.max_x, p.min_x, q.max_x, q.min_x);
    lemma_same_minus(p.max_y, p.min_y, q.max_y, q.min_y);
}

/// Ink that is moved without rounding has the same online features.
pub proof fn law_place_does_not_change_the_online_features(
    a: Seq<Seq<Point>>,
    b: Seq<Seq<Point>>,
    tx: int,
    ty: int,
    n: int,
    angle: Fn2,
)
    requires
        ink_moved(a, b, tx, ty),
        crate::stroke::all_points(a).len() > 0 ==> centred(
            crate::stroke::extent(crate::stroke::all_points(a)),
        ) && centred(crate::stroke::extent(crate::stroke::all_points(b))),
    ensures
        super::online::normalized(a) == super::online::normalized(b),
        super::online::online_of(a, n, angle) == super::online::online_of(b, n, angle),
{
    let x = crate::stroke::all_points(a);
    let y = crate::stroke::all_points(b);
    lemma_points_moved(a, b, tx, ty);
    if x.len() > 0 {
        lemma_extent_moved(a, b, tx, ty);
        let p = crate::stroke::extent(x);
        let q = crate::stroke::extent(y);
        let cx = p.min_x.plus(p.max_x).times(num(crate::stroke::HALF));
        let cy = p.min_y.plus(p.max_y).times(num(crate::stroke::HALF));
        let dx = q.min_x.plus(q.max_x).times(num(crate::stroke::HALF));
        let dy = q.min_y.plus(q.max_y).times(num(crate::stroke::HALF));
        assert forall|i: int| 0 <= i < x.len() implies #[trigger] super::online::normalized(a)[i]
            == super::online::normalized(b)[i] by {
            assert(moved(x[i].x, y[i].x, tx));
            lemma_same_minus(x[i].x, cx, y[i].x, dx);
            lemma_same_minus(x[i].y, cy, y[i].y, dy);
        }
    }
    assert(super::online::normalized(a) =~= super::online::normalized(b));
}

proof fn lemma_placed_moved(p: BBox, q: BBox, hi: int, a: Point, b: Point, tx: int, ty: int)
    requires
        box_moved(p, q, tx, ty),
        longest(p) == longest(q),
        centred(p),
        centred(q),
        moved(a.x, b.x, tx),
        moved(a.y, b.y, ty),
    ensures
        super::raster::placed(super::raster::frame_of(p, hi), a) == super::raster::placed(
            super::raster::frame_of(q, hi),
            b,
        ),
{
    let f = super::raster::frame_of(p, hi);
    let g = super::raster::frame_of(q, hi);
    lemma_same_minus(a.x, f.cx, b.x, g.cx);
    lemma_same_minus(a.y, f.cy, b.y, g.cy);
}

proof fn lemma_path_spots_moved(
    p: BBox,
    q: BBox,
    hi: int,
    a: Seq<Point>,
    b: Seq<Point>,
    tx: int,
    ty: int,
    n: nat,
)
    requires
        box_moved(p, q, tx, ty),
        longest(p) == longest(q),
        centred(p),
        centred(q),
        points_moved(a, b, tx, ty),
        n < a.len() || n == 0,
    ensures
        super::raster::path_spots(super::raster::frame_of(p, hi), a, n)
            == super::raster::path_spots(super::raster::frame_of(q, hi), b, n),
    decreases n,
{
    if n > 0 {
        lemma_path_spots_moved(p, q, hi, a, b, tx, ty, (n - 1) as nat);
        assert(moved(a[n - 1].x, b[n - 1].x, tx));
        assert(moved(a[n as int].x, b[n as int].x, tx));
        lemma_placed_moved(p, q, hi, a[n - 1], b[n - 1], tx, ty);
        lemma_placed_moved(p, q, hi, a[n as int], b[n as int], tx, ty);
    }
}

proof fn lemma_ink_spots_moved(
    p: BBox,
    q: BBox,
    hi: int,
    a: Seq<Seq<Point>>,
    b: Seq<Seq<Point>>,
    tx: int,
    ty: int,
    n: nat,
)
    requires
        box_moved(p, q, tx, ty),
        longest(p) == longest(q),
        centred(p),
        centred(q),
        ink_moved(a, b, tx, ty),
        n <= a.len(),
    ensures
        super::raster::ink_spots(super::raster::frame_of(p, hi), a, n)
            == super::raster::ink_spots(super::raster::frame_of(q, hi), b, n),
    decreases n,
{
    if n > 0 {
        lemma_ink_spots_moved(p, q, hi, a, b, tx, ty, (n - 1) as nat);
        let x = a[n - 1];
        let y = b[n - 1];
        assert(points_moved(x, y, tx, ty));
        if x.len() == 1 {
            assert(moved(x[0].x, y[0].x, tx));
            lemma_placed_moved(p, q, hi, x[0], y[0], tx, ty);
        } else if x.len() > 1 {
            lemma_path_spots_moved(p, q, hi, x, y, tx, ty, (x.len() - 1) as nat);
        }
    }
}

/// Ink that is moved without rounding gives the same bitmap.
pub proof fn law_place_does_not_change_the_bitmap(
    a: Seq<Seq<Point>>,
    b: Seq<Seq<Point>>,
    tx: int,
    ty: int,
    size: int,
)
    requires
        ink_moved(a, b, tx, ty),
        crate::stroke::all_points(a).len() > 0 ==> centred(
            crate::stroke::extent(crate::stroke::all_points(a)),
        ) && centred(crate::stroke::extent(crate::stroke::all_points(b))),
    ensures
        super::raster::bitmap_of(a, size) == super::raster::bitmap_of(b, size),
{
    let x = crate::stroke::all_points(a);
    let y = crate::stroke::all_points(b);
    lemma_points_moved(a, b, tx, ty);
    if x.len() > 0 {
        lemma_extent_moved(a, b, tx, ty);
        let p = crate::stroke::extent(x);
        let q = crate::stroke::extent(y);
        lemma_ink_spots_moved(p, q, size * 4, a, b, tx, ty, a.len());
    }
    assert(super::raster::bitmap_of(a, size) =~= super::raster::bitmap_of(b, size));
}

proof fn lemma_arc_along_moved(
    start: F32,
    a: Seq<Point>,
    b: Seq<Point>,
    tx: int,
    ty: int,
    n: nat,
)
    requires
        points_moved(a, b, tx, ty),
        n <= a.len(),
    ensures
        super::raster::arc_along(start, a, n) == super::raster::arc_along(start, b, n),
    decreases n,
{
    if n > 1 {
        lemma_arc_along_moved(start, a, b, tx, ty, (n - 1) as nat);
        assert(moved(a[n - 1].x, b[n - 1].x, tx));
        assert(moved(a[n - 2].x, b[n - 2].x, tx));
        lemma_same_minus(a[n - 1].x, a[n - 2].x, b[n - 1].x, b[n - 2].x);
        lemma_same_minus(a[n - 1].y, a[n - 2].y, b[n - 1].y, b[n - 2].y);
    }
}

proof fn lemma_arc_moved(a: Seq<Seq<Point>>, b: Seq<Seq<Point>>, tx: int, ty: int, n: nat)
    requires
        ink_moved(a, b, tx, ty),
        n <= a.len(),
    ensures
        super::raster::arc_of(a, n) == super::raster::arc_of(b, n),
        super::raster::count_live(a, n) == super::raster::count_live(b, n),
    decreases n,
{
    if n > 0 {
        lemma_arc_moved(a, b, tx, ty, (n - 1) as nat);
        assert(points_moved(a[n - 1], b[n - 1], tx, ty));
        lemma_arc_along_moved(
            super::raster::arc_of(a, (n - 1) as nat),
            a[n - 1],
            b[n - 1],
            tx,
            ty,
            a[n - 1].len(),
        );
    }
}

/// Ink that is moved without rounding has the same global features.
pub proof fn law_place_does_not_change_the_global_features(
    a: Seq<Seq<Point>>,
    b: Seq<Seq<Point>>,
    tx: int,
    ty: int,
)
    requires
        ink_moved(a, b, tx, ty),
    ensures
        super::raster::features_of(a) == super::raster::features_of(b),
{
    let x = crate::stroke::all_points(a);
    let y = crate::stroke::all_points(b);
    lemma_points_moved(a, b, tx, ty);
    lemma_arc_moved(a, b, tx, ty, a.len());
    if x.len() > 0 {
        lemma_extent_moved(a, b, tx, ty);
        let p = crate::stroke::extent(x);
        let q = crate::stroke::extent(y);
        let last = x.len() - 1;
        assert(moved(x[0].x, y[0].x, tx));
        assert(moved(x[last].x, y[last].x, tx));
        lemma_same_minus(x[0].x, p.min_x, y[0].x, q.min_x);
        lemma_same_minus(x[0].y, p.min_y, y[0].y, q.min_y);
        lemma_same_minus(x[last].x, p.min_x, y[last].x, q.min_x);
        lemma_same_minus(x[last].y, p.min_y, y[last].y, q.min_y);
    }
    assert(super::raster::features_of(a) =~= super::raster::features_of(b));
}

// ---------------------------------------------------------------------------------------------
// Bounds
// ---------------------------------------------------------------------------------------------
proof fn lemma_block_count(spots: Seq<super::raster::Spot>, hi: int, ox: int, oy: int, n: nat)
    ensures
        super::raster::block_count(spots, hi, ox, oy, n) <= n,
    decreases n,
{
    if n > 0 {
        lemma_block_count(spots, hi, ox, oy, (n - 1) as nat);
    }
}

/// Every pixel of a bitmap lies between 0 and 1.
pub proof fn law_pixels_lie_between_zero_and_one(ink: Seq<Seq<Point>>, size: int, k: int)
    requires
        0 <= size,
        0 <= k < size * size,
    ensures
        crate::transform::in_unit_range(super::raster::bitmap_of(ink, size)[k]),
{
    let hi = size * 4;
    let points = crate::stroke::all_points(ink);
    let f = super::raster::frame_of(crate::stroke::extent(points), hi);
    let spots = super::raster::ink_spots(f, ink, ink.len());
    let c = super::raster::block_count(spots, hi, k % size, k / size, 16);
    lemma_block_count(spots, hi, k % size, k / size, 16);
    crate::float::scale::lemma_whole_up_to_sixteen(c as int);
    reveal(F32::le_spec);
    if points.len() > 0 {
        crate::float::monotone::lemma_unit_quotient(
            crate::float::convert::of_int(c as int),
            num(super::raster::CELLS),
        );
    }
}

/// The features that tell a place or a proportion lie between 0 and 1, for ink of moderate
/// coordinates.
pub proof fn law_features_lie_between_zero_and_one(ink: Seq<Seq<Point>>, k: int)
    requires
        all_moderate(ink),
        k == 1 || 3 <= k < 7,
    ensures
        crate::transform::in_unit_range(super::raster::features_of(ink)[k]),
{
    let points = crate::stroke::all_points(ink);
    let b = super::raster::extent_or_origin(ink);
    let w = b.max_x.minus(b.min_x);
    let h = b.max_y.minus(b.min_y);
    let s = w.max(h);
    reveal(F32::le_spec);
    reveal(F32::lt_spec);
    lemma_all_points(ink);
    if points.len() == 0 {
        assert(w == num(0) && h == num(0)) by {
            lemma_side_positive(num(0), num(0));
            reveal(F32::plus_spec);
            reveal(F32::neg_spec);
            assert(crate::float::mag(0) == 0);
        }
        assert(w.plus(h) == num(0)) by {
            reveal(F32::plus_spec);
            assert(crate::float::mag(0) == 0);
        }
    } else {
        lemma_extent(ink);
        lemma_sides(b);
        assert forall|k: int| 0 <= k < points.len() implies !(#[trigger] points[k]).x.nan()
            && !points[k].y.nan() by {
            assert(moderate(points[k].x));
            lemma_moderate(points[k].x);
            lemma_moderate(points[k].y);
        }
        let last = points.len() - 1;
        crate::stroke::law_extent_holds_every_point(points, 0);
        crate::stroke::law_extent_holds_every_point(points, last);
        lemma_side_positive(b.min_x, b.max_x);
        lemma_side_positive(b.min_y, b.max_y);
        lemma_moderate(b.min_x);
        lemma_moderate(b.min_y);
        lemma_moderate(b.max_x);
        lemma_moderate(b.max_y);
        crate::float::order::lemma_min_max(w, h);
        crate::float::scale::lemma_positive_plus(w, h);
        crate::float::scale::lemma_plus_within(w, h, MOST + HIDDEN);
        if w.plus(h).gt(num(TINY)) {
            crate::float::monotone::lemma_unit_quotient(w, w.plus(h));
        }
        lemma_place_in_unit(points[0].x, b.min_x, b.max_x, s);
        lemma_place_in_unit(points[0].y, b.min_y, b.max_y, s);
        lemma_place_in_unit(points[last].x, b.min_x, b.max_x, s);
        lemma_place_in_unit(points[last].y, b.min_y, b.max_y, s);
    }
}

/// Where a coordinate lies in its own frame.
proof fn lemma_place_in_unit(a: F32, low: F32, high: F32, s: F32)
    requires
        moderate(a),
        moderate(low),
        moderate(high),
        low.le(a),
        a.le(high),
        high.minus(low).le(s),
        crate::float::scale::positive(s),
        s.finite(),
    ensures
        crate::transform::in_unit_range(
            a.minus(low).over(
                if s.gt(num(TINY)) {
                    s
                } else {
                    num(crate::stroke::ONE)
                },
            ),
        ),
{
    reveal(F32::le_spec);
    reveal(F32::lt_spec);
    lemma_moderate(a);
    lemma_moderate(low);
    lemma_moderate(high);
    lemma_moderate_minus(a, low);
    lemma_side_positive(low, a);
    crate::float::monotone::lemma_difference(a, high, low);
    let d = a.minus(low);
    if s.gt(num(TINY)) {
        crate::float::monotone::lemma_unit_quotient(d, s);
    } else {
        crate::float::monotone::lemma_unit_quotient(d, num(crate::stroke::ONE));
    }
}

/// Where a coordinate lies relative to the middle.
proof fn lemma_around_the_middle(a: F32, low: F32, high: F32, s: F32)
    requires
        moderate(a),
        moderate(low),
        moderate(high),
        low.le(a),
        a.le(high),
        high.minus(low).le(s),
        s.finite(),
        !s.negative(),
        s.magnitude() != 0,
    ensures
        a.minus(low.plus(high).times(num(crate::stroke::HALF))).over(s).magnitude()
            <= crate::float::bound::ONE_BITS,
{
    reveal(F32::le_spec);
    lemma_moderate(a);
    lemma_moderate(low);
    lemma_moderate(high);
    lemma_moderate_minus(high, low);
    lemma_moderate_middle(low, high);
    crate::float::monotone::lemma_units_ordered(low, a);
    crate::float::monotone::lemma_units_ordered(a, high);
    // the middle lies between the ends
    let sum = low.plus(high);
    let c = sum.times(num(crate::stroke::HALF));
    crate::float::scale::lemma_twice(low);
    crate::float::scale::lemma_twice(high);
    crate::float::bound::lemma_sum_between(
        low,
        high,
        crate::float::scale::twice(low),
        crate::float::scale::twice(high),
    );
    crate::float::scale::lemma_even_sum(low, high);
    crate::float::scale::lemma_half(sum);
    crate::float::scale::lemma_twice(c);
    assert(low.units() <= c.units() <= high.units());
    // so the offset is at most as large as the side
    let d = a.minus(c);
    let w = high.minus(low);
    crate::float::monotone::lemma_opposite(c);
    crate::float::monotone::lemma_opposite(low);
    let far = a.units() - c.units();
    let n: nat = if far < 0 {
        (-far) as nat
    } else {
        far as nat
    };
    let m = (high.units() - low.units()) as nat;
    crate::float::monotone::lemma_nearest_monotone(n, m, 1);
    crate::float::monotone::lemma_nearest(n, 1);
    crate::float::monotone::lemma_nearest(m, 1);
    assert(d.magnitude() <= w.magnitude() && !w.negative()) by {
        reveal(F32::plus_spec);
        reveal(F32::neg_spec);
    }
    crate::float::bound::lemma_quotient_up_to_one(d, s);
}

/// Are all positions between -1 and 1?
spec fn centered(t: Seq<super::online::Rp>) -> bool {
    forall|k: int|
        0 <= k < t.len() ==> (#[trigger] t[k]).x.magnitude() <= crate::float::bound::ONE_BITS
            && t[k].y.magnitude() <= crate::float::bound::ONE_BITS
}

/// The normalized trajectory lies around the middle.
proof fn lemma_centered(ink: Seq<Seq<Point>>)
    requires
        all_moderate(ink),
        crate::stroke::all_points(ink).len() > 0,
    ensures
        centered(super::online::normalized(ink)),
{
    let points = crate::stroke::all_points(ink);
    let b = crate::stroke::extent(points);
    let w = b.max_x.minus(b.min_x);
    let h = b.max_y.minus(b.min_y);
    let s = super::online::larger_side(b);
    lemma_all_points(ink);
    lemma_extent(ink);
    lemma_sides(b);
    crate::float::order::lemma_min_max(w, h);
    crate::float::order::lemma_min_max(w.max(h), num(TINY));
    assert(w.le(s) && h.le(s) && s.finite() && !s.negative() && s.magnitude() != 0) by {
        reveal(F32::le_spec);
    }
    assert forall|k: int| 0 <= k < points.len() implies !(#[trigger] points[k]).x.nan()
        && !points[k].y.nan() by {
        assert(moderate(points[k].x));
        lemma_moderate(points[k].x);
        lemma_moderate(points[k].y);
    }
    assert forall|k: int| 0 <= k < points.len() implies (
    #[trigger] super::online::normalized(ink)[k]).x.magnitude() <= crate::float::bound::ONE_BITS
        && super::online::normalized(ink)[k].y.magnitude() <= crate::float::bound::ONE_BITS by {
        crate::stroke::law_extent_holds_every_point(points, k);
        assert(moderate(points[k].x));
        lemma_around_the_middle(points[k].x, b.min_x, b.max_x, s);
        lemma_around_the_middle(points[k].y, b.min_y, b.max_y, s);
    }
}

/// The arc of a trajectory around the middle.
proof fn lemma_arc_is_finite(t: Seq<super::online::Rp>, k: nat)
    requires
        centered(t),
        k < t.len(),
    ensures
        super::online::arc_to(t, k).magnitude() <= crate::float::bound::FAR_BITS,
    decreases k,
{
    if k > 0 {
        lemma_arc_is_finite(t, (k - 1) as nat);
        let (a, b) = (t[k - 1], t[k as int]);
        let dx = b.x.minus(a.x);
        let dy = b.y.minus(a.y);
        let one = crate::float::bound::ONE_BITS as int;
        let four = crate::float::bound::FOUR_BITS as int;
        crate::float::scale::lemma_plus_within(a.x, a.x, one);
        crate::float::scale::lemma_plus_within(a.y, a.y, one);
        crate::float::scale::lemma_plus_within(b.x, a.x.neg(), one);
        crate::float::scale::lemma_plus_within(b.y, a.y.neg(), one);
        crate::float::bound::lemma_product_up_to_four(dx, dx);
        crate::float::bound::lemma_product_up_to_four(dy, dy);
        let sum = dx.times(dx).plus(dy.times(dy));
        crate::float::scale::lemma_plus_within(dx.times(dx), dy.times(dy), four);
        assert(!sum.negative()) by {
            reveal(F32::plus_spec);
            let (x, y) = (dx.times(dx), dy.times(dy));
            crate::float::bound::lemma_size_ordered(0, x.magnitude());
            crate::float::bound::lemma_size_ordered(0, y.magnitude());
            let n = (x.units() + y.units()) as nat;
            crate::float::monotone::lemma_nearest(n, 1);
        }
        crate::float::bound::lemma_root_up_to_four(sum);
        crate::float::bound::lemma_steps_stay_near(
            super::online::arc_to(t, (k - 1) as nat),
            super::online::way(a, b),
        );
    }
}

/// A sample is taken from a point of the trajectory.
proof fn lemma_knot(t: Seq<super::online::Rp>, n: int, i: nat)
    requires
        t.len() > 0,
    ensures
        super::online::knot(t, n, i) < t.len(),
    decreases i,
{
    if i > 0 {
        lemma_knot(t, n, (i - 1) as nat);
        lemma_advance(
            t,
            super::online::knot(t, n, (i - 1) as nat),
            super::online::sample_at(t, n, i as int),
        );
    } else {
        lemma_advance(t, 0, super::online::sample_at(t, n, 0));
    }
}

proof fn lemma_advance(t: Seq<super::online::Rp>, k: nat, at: F32)
    requires
        k < t.len(),
    ensures
        super::online::advance(t, k, at) < t.len(),
    decreases t.len() - k,
{
    if k + 1 < t.len() && super::online::arc_to(t, k + 1).lt(at) {
        lemma_advance(t, k + 1, at);
    }
}

/// A quotient by a finite number other than zero is a number.
proof fn lemma_over_is_number(a: F32, b: F32)
    requires
        !a.nan(),
        b.finite(),
        b.magnitude() != 0,
    ensures
        !a.over(b).nan(),
{
    if a.finite() {
        crate::float::monotone::lemma_quotient_is_number(a, b);
    } else {
        reveal(F32::over_spec);
    }
}

/// Where along the arc a sample lies is a number.
proof fn lemma_sample_at(t: Seq<super::online::Rp>, n: int, i: int)
    requires
        centered(t),
        t.len() > 0,
        0 <= i < n < 0x1_0000_0000_0000_0000,
    ensures
        !super::online::sample_at(t, n, i).nan(),
{
    if n > 1 {
        let total = super::online::arc_total(t);
        let one = num(crate::stroke::ONE);
        let (fi, count) = (
            crate::float::convert::of_int(i),
            crate::float::convert::of_int(n),
        );
        lemma_arc_is_finite(t, (t.len() - 1) as nat);
        crate::float::monotone::lemma_whole_finite(i);
        crate::float::monotone::lemma_whole_finite(n);
        assert(!fi.times(total).nan()) by {
            reveal(F32::times_spec);
            vstd::arithmetic::power2::lemma_pow2_pos(149);
            crate::float::monotone::lemma_nearest(
                fi.size() * total.size(),
                crate::float::arith::one_units(),
            );
        }
        crate::float::bound::lemma_two_or_more(n);
        crate::float::monotone::lemma_opposite(one);
        crate::float::bound::lemma_sum_between(count, one.neg(), one, count);
        let last = count.minus(one);
        assert(last.magnitude() != 0);
        lemma_over_is_number(fi.times(total), last);
    }
}

/// The samples of a trajectory around the middle lie around it too.
proof fn lemma_sample(t: Seq<super::online::Rp>, n: int, i: int)
    requires
        centered(t),
        t.len() > 0,
        0 <= i < n < 0x1_0000_0000_0000_0000,
    ensures
        super::online::resampled(t, n)[i].x.magnitude() <= crate::float::bound::ONE_BITS,
        super::online::resampled(t, n)[i].y.magnitude() <= crate::float::bound::ONE_BITS,
{
    let k = super::online::knot(t, n, i as nat);
    let at = super::online::sample_at(t, n, i);
    lemma_knot(t, n, i as nat);
    lemma_sample_at(t, n, i);
    let a = t[k as int];
    if k + 1 < t.len() {
        let b = t[k as int + 1];
        let (from, to) = (super::online::arc_to(t, k), super::online::arc_to(t, k + 1));
        let seg = to.minus(from);
        lemma_arc_is_finite(t, k);
        lemma_arc_is_finite(t, k + 1);
        if seg.gt(num(super::online::SHORT)) {
            let far = crate::float::bound::FAR_BITS as int;
            crate::float::scale::lemma_plus_within(from, from, far);
            crate::float::scale::lemma_plus_within(to, from.neg(), far);
            crate::float::monotone::lemma_sum_is_number(at, from.neg());
            assert(seg.magnitude() != 0) by {
                reveal(F32::lt_spec);
            }
            let part = at.minus(from).over(seg);
            lemma_over_is_number(at.minus(from), seg);
            let f = part.clamp(num(crate::stroke::ZERO), num(crate::stroke::ONE));
            assert(num(crate::stroke::ZERO).le(num(crate::stroke::ONE))) by {
                reveal(F32::le_spec);
            }
            crate::float::order::lemma_clamp(
                part,
                num(crate::stroke::ZERO),
                num(crate::stroke::ONE),
            );
            crate::float::bound::lemma_on_the_way(a.x, b.x, f);
            crate::float::bound::lemma_on_the_way(a.y, b.y, f);
        }
    }
}

/// Does the arctangent give angles between minus pi and pi?
pub open spec fn angles(angle: Fn2) -> bool {
    forall|y: F32, x: F32|
        !y.nan() && !x.nan() ==> crate::float::bound::between(
            #[trigger] angle(y, x),
            num(super::online::PI),
        )
}

/// The online features are bounded, for ink of moderate coordinates: the steps lie between -2 and
/// 2, the pen is down or up, and the turning angles lie between -1 and 1.
pub proof fn law_online_features_are_bounded(
    ink: Seq<Seq<Point>>,
    n: int,
    angle: Fn2,
    i: int,
)
    requires
        all_moderate(ink),
        angles(angle),
        0 <= i < n < 0x1_0000_0000_0000_0000,
    ensures
        ({
            let f = super::online::online_of(ink, n, angle);
            &&& crate::float::bound::between(f[i], num(crate::stroke::TWO))
            &&& crate::float::bound::between(f[n + i], num(crate::stroke::TWO))
            &&& f[2 * n + i] == num(crate::stroke::ZERO) || f[2 * n + i] == num(crate::stroke::ONE)
            &&& crate::float::bound::between(f[3 * n + i], num(crate::stroke::ONE))
        }),
{
    let f = super::online::online_of(ink, n, angle);
    let two = num(crate::stroke::TWO);
    let one = num(crate::stroke::ONE);
    crate::float::bound::lemma_between(f[i], two);
    crate::float::bound::lemma_between(f[n + i], two);
    crate::float::bound::lemma_between(f[3 * n + i], one);
    if super::online::has_path(ink) {
        let t = super::online::normalized(ink);
        let s = super::online::resampled(t, n);
        lemma_centered(ink);
        lemma_steps(t, n, i);
        if 1 <= i && i + 1 < n {
            lemma_steps(t, n, i - 1);
            let (ax, ay) = (super::online::step_x(s, i - 1), super::online::step_y(s, i - 1));
            let (bx, by) = (super::online::step_x(s, i), super::online::step_y(s, i));
            let four = crate::float::bound::FOUR_BITS as int;
            crate::float::bound::lemma_product_up_to_four(ax, by);
            crate::float::bound::lemma_product_up_to_four(ay, bx);
            crate::float::bound::lemma_product_up_to_four(ax, bx);
            crate::float::bound::lemma_product_up_to_four(ay, by);
            crate::float::scale::lemma_plus_within(ay.times(bx), ay.times(bx), four);
            crate::float::scale::lemma_plus_within(ax.times(by), ay.times(bx).neg(), four);
            crate::float::scale::lemma_plus_within(ax.times(bx), ay.times(by), four);
            let turn = angle(super::online::turn_cross(s, i), super::online::turn_dot(s, i));
            crate::float::bound::lemma_between(turn, num(super::online::PI));
            crate::float::bound::lemma_quotient_up_to_one(turn, num(super::online::PI));
        }
    }
}

/// The steps between samples.
proof fn lemma_steps(t: Seq<super::online::Rp>, n: int, i: int)
    requires
        centered(t),
        t.len() > 0,
        0 <= i < n < 0x1_0000_0000_0000_0000,
    ensures
        super::online::step_x(super::online::resampled(t, n), i).magnitude()
            <= crate::float::bound::TWO_BITS,
        super::online::step_y(super::online::resampled(t, n), i).magnitude()
            <= crate::float::bound::TWO_BITS,
{
    let s = super::online::resampled(t, n);
    if i + 1 < n {
        lemma_sample(t, n, i);
        lemma_sample(t, n, i + 1);
        let one = crate::float::bound::ONE_BITS as int;
        crate::float::scale::lemma_plus_within(s[i].x, s[i].x, one);
        crate::float::scale::lemma_plus_within(s[i].y, s[i].y, one);
        crate::float::scale::lemma_plus_within(s[i + 1].x, s[i].x.neg(), one);
        crate::float::scale::lemma_plus_within(s[i + 1].y, s[i].y.neg(), one);
    }
}

} // verus!
