//! What the classifier sees: where ink lands on the canvas, which pixels it darkens, what the global
//! features measure, and what the online channels tell.
use super::online::Rp;
use super::raster::{Frame, Spot};
use crate::elementary::Fn2;
use crate::float::{num, F32};
use crate::stroke::{BBox, Point};
use vstd::prelude::*;

verus! {

// ---------------------------------------------------------------------------------------------
// Placing
// ---------------------------------------------------------------------------------------------
/// Ink is not turned or mirrored on the canvas: what is further right is placed further right, whatever
/// its height, and what is lower is placed lower.
pub proof fn law_the_canvas_is_upright(f: Frame, p: Point, q: Point)
    requires
        p.x.minus(f.cx).finite() && p.y.minus(f.cy).finite(),
        q.x.minus(f.cx).finite() && q.y.minus(f.cy).finite(),
        p.x.finite() && p.y.finite() && q.x.finite() && q.y.finite(),
        f.cx.finite() && f.cy.finite() && f.half.finite(),
        f.scale.finite() && !f.scale.negative(),
    ensures
        p.x.le(q.x) ==> super::raster::placed(f, p).x.le(super::raster::placed(f, q).x),
        p.y.le(q.y) ==> super::raster::placed(f, p).y.le(super::raster::placed(f, q).y),
{
    if p.x.le(q.x) {
        crate::float::monotone::lemma_difference(p.x, q.x, f.cx);
        crate::float::monotone::lemma_place_keeps_order(
            f.half,
            p.x.minus(f.cx),
            q.x.minus(f.cx),
            f.scale,
        );
    }
    if p.y.le(q.y) {
        crate::float::monotone::lemma_difference(p.y, q.y, f.cy);
        crate::float::monotone::lemma_place_keeps_order(
            f.half,
            p.y.minus(f.cy),
            q.y.minus(f.cy),
            f.scale,
        );
    }
}

/// The middle of the ink's box is placed in the middle of the canvas, and its larger side takes up 0.8 of
/// the canvas. Ink without a size is placed in the middle.
pub proof fn law_the_ink_fills_the_canvas(b: BBox, side: int)
    ensures
        ({
            let f = super::raster::frame_of(b, side);
            let w = b.max_x.minus(b.min_x);
            let h = b.max_y.minus(b.min_y);
            let n = crate::float::convert::of_int(side);
            &&& f.cx == b.min_x.plus(b.max_x).times(num(0x3f00_0000))
            &&& f.cy == b.min_y.plus(b.max_y).times(num(0x3f00_0000))
            &&& f.half == n.times(num(0x3f00_0000))
            &&& num(0x3400_0000).lt(w.max(h)) ==> f.scale == n.times(num(0x3f4c_cccd)).over(w.max(h))
            &&& !num(0x3400_0000).lt(w.max(h)) ==> f.scale == num(0)
        }),
{
}

/// The steps along a segment are at least one.
proof fn lemma_steps(a: Spot, b: Spot)
    ensures
        super::raster::step_count(a, b) >= 1,
{
    let dx = b.x.minus(a.x);
    let dy = b.y.minus(a.y);
    let v = dx.times(dx).plus(dy.times(dy)).sqrt().ceil();
    let m = v.max(num(0x3f80_0000));
    let one = crate::float::arith::one_units();
    crate::float::order::lemma_min_max(v, num(0x3f80_0000));
    reveal(crate::float::convert::truncated);
    reveal(F32::le_spec);
    vstd::arithmetic::power2::lemma_pow2_pos(149);
    vstd::arithmetic::power2::lemma2_to64();
    if m.finite() {
        crate::float::monotone::lemma_power(0x3f80_0000, 0);
        crate::float::bound::lemma_size_ordered(0x3f80_0000, m.magnitude());
        vstd::arithmetic::div_mod::lemma_div_is_ordered(one as int, m.size() as int, one as int);
        vstd::arithmetic::div_mod::lemma_div_by_self(one as int);
    }
}

/// Every point of a stroke but the last has a disk right where it is placed, and so has a lone point.
pub proof fn law_every_point_leaves_a_disk(f: Frame, points: Seq<Point>, k: int) -> (m: int)
    requires
        0 <= k < points.len(),
        k < points.len() - 1 || points.len() == 1,
        ({
            let a = super::raster::placed(f, points[k]);
            a.x.finite() && a.y.finite()
        }),
        k < points.len() - 1 ==> ({
            let a = super::raster::placed(f, points[k]);
            let b = super::raster::placed(f, points[k + 1]);
            b.x.minus(a.x).finite() && b.y.minus(a.y).finite()
        }),
    ensures
        0 <= m < super::raster::stroke_spots(f, points).len(),
        super::raster::stroke_spots(f, points)[m].x.units() == super::raster::placed(
            f,
            points[k],
        ).x.units(),
        super::raster::stroke_spots(f, points)[m].y.units() == super::raster::placed(
            f,
            points[k],
        ).y.units(),
{
    if points.len() == 1 {
        0
    } else {
        let a = super::raster::placed(f, points[k]);
        let b = super::raster::placed(f, points[k + 1]);
        let n = super::raster::step_count(a, b);
        lemma_steps(a, b);
        let t = crate::float::convert::of_int(0).over(crate::float::convert::of_int(n as int));
        crate::float::monotone::lemma_wholes_keep_order(0, n as int);
        crate::float::monotone::lemma_whole_finite(n as int);
        assert(t.magnitude() == 0) by {
            reveal(F32::over_spec);
            let s = crate::float::convert::of_int(n as int);
            crate::float::lemma_mag_ordered(0, s.magnitude());
            assert(crate::float::mag(0) == 0);
            assert(0 * crate::float::arith::one_units() == 0);
            crate::float::lemma_nearest_zero(s.size());
        }
        let (dx, dy) = (b.x.minus(a.x), b.y.minus(a.y));
        crate::segment::touch::lemma_nothing_times(t, dx);
        crate::segment::touch::lemma_nothing_times(t, dy);
        lemma_commutes(dx, t);
        lemma_commutes(dy, t);
        crate::segment::touch::lemma_plus_nothing(a.x, dx.times(t));
        crate::segment::touch::lemma_plus_nothing(a.y, dy.times(t));
        let s = super::raster::step_spot(a, b, 0);
        assert(super::raster::segment_spots(a, b)[0] == s);
        lemma_path(f, points, k, (points.len() - 1) as nat)
    }
}

proof fn lemma_commutes(a: F32, b: F32)
    requires
        a.finite(),
        b.finite(),
    ensures
        a.times(b).magnitude() == b.times(a).magnitude(),
{
    reveal(F32::times_spec);
    vstd::arithmetic::power2::lemma_pow2_pos(149);
    assert(a.size() * b.size() == b.size() * a.size()) by (nonlinear_arith);
    crate::float::monotone::lemma_nearest(a.size() * b.size(), crate::float::arith::one_units());
}

/// Where the first disk of segment `k` stands.
proof fn lemma_path(f: Frame, points: Seq<Point>, k: int, n: nat) -> (m: int)
    requires
        0 <= k < n < points.len(),
    ensures
        0 <= m < super::raster::path_spots(f, points, n).len(),
        super::raster::path_spots(f, points, n)[m] == super::raster::segment_spots(
            super::raster::placed(f, points[k]),
            super::raster::placed(f, points[k + 1]),
        )[0],
    decreases n,
{
    let before = super::raster::path_spots(f, points, (n - 1) as nat);
    if k == n - 1 {
        before.len() as int
    } else {
        lemma_path(f, points, k, (n - 1) as nat)
    }
}

// ---------------------------------------------------------------------------------------------
// Pixels
// ---------------------------------------------------------------------------------------------
/// Is cell `(i, j)` of the pixel in column `x`, row `y` covered?
pub open spec fn dark(spots: Seq<Spot>, side: int, x: int, y: int, i: int, j: int) -> bool {
    super::raster::covered(spots, side, 4 * x + i, 4 * y + j)
}

/// The disks of the ink on a canvas of four cells to the pixel.
pub open spec fn disks(ink: Seq<Seq<Point>>, size: int) -> Seq<Spot> {
    super::raster::ink_spots(
        super::raster::frame_of(crate::stroke::extent(crate::stroke::all_points(ink)), size * 4),
        ink,
        ink.len(),
    )
}

proof fn lemma_block(spots: Seq<Spot>, side: int, x: int, y: int, n: nat)
    requires
        n <= 16,
    ensures
        super::raster::block_count(spots, side, x, y, n) <= n,
        super::raster::block_count(spots, side, x, y, n) == 0 <==> forall|m: int|
            0 <= m < n ==> !#[trigger] dark(spots, side, x, y, m % 4, m / 4),
        super::raster::block_count(spots, side, x, y, n) == n <==> forall|m: int|
            0 <= m < n ==> #[trigger] dark(spots, side, x, y, m % 4, m / 4),
    decreases n,
{
    if n > 0 {
        let m = n - 1;
        lemma_block(spots, side, x, y, m as nat);
        assert(dark(spots, side, x, y, m % 4, m / 4) == super::raster::covered(
            spots,
            side,
            x * 4 + m % 4,
            y * 4 + m / 4,
        ));
    }
}

proof fn lemma_share(n: int)
    requires
        0 <= n <= 16,
    ensures
        crate::float::convert::of_int(n).over(num(0x4180_0000)) == num(0) <==> n == 0,
        crate::float::convert::of_int(n).over(num(0x4180_0000)) == num(0x3f80_0000) <==> n == 16,
{
    let one = crate::float::arith::one_units();
    vstd::arithmetic::power2::lemma_pow2_pos(149);
    vstd::arithmetic::power2::lemma2_to64();
    let a = crate::float::convert::of_int(n);
    let c = num(0x4180_0000);
    crate::float::monotone::lemma_whole_exact(n as nat);
    assert(a.size() == n * one && !a.negative() && a.finite()) by {
        reveal(crate::float::convert::of_int);
    }
    crate::float::monotone::lemma_power(0x4180_0000, 4);
    crate::float::monotone::lemma_power(0x3f80_0000, 0);
    assert(c.size() == 16 * one);
    let q = crate::float::nearest(a.size() * one, c.size());
    crate::float::monotone::lemma_nearest(a.size() * one, c.size());
    assert(a.over(c) == num(q as u32)) by {
        reveal(F32::over_spec);
    }
    let big = 16 * one;
    if n == 0 {
        assert((0 * one) * one == 0) by (nonlinear_arith);
        crate::float::lemma_nearest_zero(big);
    } else {
        // a sixteenth is a number, and no smaller one is nearer
        lemma_sixteenth();
        let small = crate::float::mag(0x3d80_0000) as nat;
        assert(16 * small == one);
        assert(small * big <= a.size() * one) by (nonlinear_arith)
            requires
                16 * small == one,
                big == 16 * one,
                a.size() == n * one,
                n >= 1,
        ;
        crate::float::monotone::lemma_nearest_multiple(0x3d80_0000, big);
        crate::float::monotone::lemma_nearest_monotone(small * big, a.size() * one, big);
    }
    crate::float::monotone::lemma_nearest_multiple(0x3f80_0000, big);
    let whole = crate::float::mag(0x3f80_0000) as nat;
    assert(whole == one);
    if n == 16 {
        assert(a.size() * one == whole * big) by (nonlinear_arith)
            requires
                a.size() == 16 * one,
                whole == one,
                big == 16 * one,
        ;
    } else {
        // fifteen sixteenths, which are a number too, are not nearer to one
        lemma_fifteen();
        let most = crate::float::mag(0x3f70_0000) as nat;
        assert(16 * most == 15 * one);
        assert(a.size() * one <= most * big) by (nonlinear_arith)
            requires
                16 * most == 15 * one,
                big == 16 * one,
                a.size() == n * one,
                n <= 15,
        ;
        crate::float::monotone::lemma_nearest_multiple(0x3f70_0000, big);
        crate::float::monotone::lemma_nearest_monotone(a.size() * one, most * big, big);
    }
}

/// What a sixteenth is made of.
proof fn lemma_sixteenth()
    ensures
        16 * crate::float::mag(0x3d80_0000) == crate::float::arith::one_units(),
{
    vstd::arithmetic::power2::lemma2_to64();
    let h = crate::float::HIDDEN as int;
    vstd::arithmetic::div_mod::lemma_fundamental_div_mod_converse(0x3d80_0000, h, 123, 0);
    vstd::arithmetic::power2::lemma_pow2_adds(122, 27);
    let p = vstd::arithmetic::power2::pow2(122);
    assert(crate::float::mag(0x3d80_0000) == 0x80_0000 * p);
    assert(16 * (0x80_0000 * p) == p * 0x800_0000) by (nonlinear_arith);
}

/// What fifteen sixteenths are made of.
proof fn lemma_fifteen()
    ensures
        16 * crate::float::mag(0x3f70_0000) == 15 * crate::float::arith::one_units(),
{
    vstd::arithmetic::power2::lemma2_to64();
    let h = crate::float::HIDDEN as int;
    vstd::arithmetic::div_mod::lemma_fundamental_div_mod_converse(0x3f70_0000, h, 126, 0x70_0000);
    vstd::arithmetic::power2::lemma_pow2_adds(125, 24);
    let p = vstd::arithmetic::power2::pow2(125);
    assert(crate::float::mag(0x3f70_0000) == 0xf0_0000 * p);
    assert(16 * (0xf0_0000 * p) == 15 * (0x100_0000 * p)) by (nonlinear_arith);
    assert(0x100_0000 * p == p * 0x100_0000) by (nonlinear_arith);
}

/// The pixel in column `x` and row `y`, counted from the upper left, is blank if no disk covers any of its
/// cells, and full if they all are covered; else it is neither. Its cells are the four by four at four
/// times its column and row.
pub proof fn law_a_pixel_shows_the_cells_in_its_place(
    ink: Seq<Seq<Point>>,
    size: int,
    x: int,
    y: int,
)
    requires
        0 <= x < size && 0 <= y < size,
        crate::stroke::all_points(ink).len() > 0,
    ensures
        ({
            let v = super::raster::bitmap_of(ink, size)[y * size + x];
            let spots = disks(ink, size);
            &&& v == num(0) <==> forall|i: int, j: int|
                0 <= i < 4 && 0 <= j < 4 ==> !#[trigger] dark(spots, size * 4, x, y, i, j)
            &&& v == num(0x3f80_0000) <==> forall|i: int, j: int|
                0 <= i < 4 && 0 <= j < 4 ==> #[trigger] dark(spots, size * 4, x, y, i, j)
        }),
{
    let spots = disks(ink, size);
    let side = size * 4;
    let k = y * size + x;
    super::raster::lemma_cell(x, y, size);
    lemma_block(spots, side, x, y, 16);
    let n = super::raster::block_count(spots, side, x, y, 16);
    lemma_share(n as int);
    assert(super::raster::bitmap_of(ink, size)[k] == crate::float::convert::of_int(n as int).over(
        num(0x4180_0000),
    ));
    assert forall|i: int, j: int| 0 <= i < 4 && 0 <= j < 4 implies ({
        let m = 4 * j + i;
        0 <= m < 16 && m % 4 == i && m / 4 == j && #[trigger] dark(spots, side, x, y, i, j) == dark(
            spots,
            side,
            x,
            y,
            m % 4,
            m / 4,
        )
    }) by {}
    if n == 0 {
        assert forall|i: int, j: int| 0 <= i < 4 && 0 <= j < 4 implies !#[trigger] dark(
            spots,
            side,
            x,
            y,
            i,
            j,
        ) by {
            let m = 4 * j + i;
            assert(!dark(spots, side, x, y, m % 4, m / 4));
        }
    } else {
        let m = choose|m: int| 0 <= m < 16 && #[trigger] dark(spots, side, x, y, m % 4, m / 4);
        assert(0 <= m % 4 < 4 && 0 <= m / 4 < 4);
        assert(dark(spots, side, x, y, m % 4, m / 4));
    }
    if n == 16 {
        assert forall|i: int, j: int| 0 <= i < 4 && 0 <= j < 4 implies #[trigger] dark(
            spots,
            side,
            x,
            y,
            i,
            j,
        ) by {
            let m = 4 * j + i;
            assert(dark(spots, side, x, y, m % 4, m / 4));
        }
    } else {
        let m = choose|m: int| 0 <= m < 16 && !#[trigger] dark(spots, side, x, y, m % 4, m / 4);
        assert(0 <= m % 4 < 4 && 0 <= m / 4 < 4);
        assert(!dark(spots, side, x, y, m % 4, m / 4));
    }
}

/// A covered cell has its middle within two cells of the middle of a disk.
pub proof fn law_ink_does_not_spread_further_than_two_cells(
    spots: Seq<Spot>,
    side: int,
    i: int,
    j: int,
) -> (m: int)
    requires
        super::raster::covered(spots, side, i, j),
    ensures
        0 <= m < spots.len(),
        ({
            let dx = crate::float::convert::of_int(i).plus(num(0x3f00_0000)).minus(spots[m].x);
            let dy = crate::float::convert::of_int(j).plus(num(0x3f00_0000)).minus(spots[m].y);
            dx.times(dx).plus(dy.times(dy)).le(num(0x4000_0000).times(num(0x4000_0000)))
        }),
{
    choose|m: int| 0 <= m < spots.len() && super::raster::in_disk(#[trigger] spots[m], side, i, j)
}

// ---------------------------------------------------------------------------------------------
// The global features
// ---------------------------------------------------------------------------------------------
/// The features of ink that has a size, in their order: the number of strokes with a point, the width as a
/// part of width and height, the length of the ink, and where the first and where the last point lies,
/// from the left and from the top; lengths in parts of the larger side.
pub proof fn law_the_features_measure_the_ink(ink: Seq<Seq<Point>>)
    requires
        crate::stroke::all_points(ink).len() > 0,
        ({
            let b = crate::stroke::extent(crate::stroke::all_points(ink));
            let w = b.max_x.minus(b.min_x);
            let h = b.max_y.minus(b.min_y);
            num(0x3586_37bd).lt(w.max(h)) && num(0x3586_37bd).lt(w.plus(h))
        }),
    ensures
        ({
            let points = crate::stroke::all_points(ink);
            let (p, q) = (points[0], points[points.len() - 1]);
            let b = crate::stroke::extent(points);
            let w = b.max_x.minus(b.min_x);
            let h = b.max_y.minus(b.min_y);
            let s = w.max(h);
            let f = super::raster::features_of(ink);
            let live = Seq::new(ink.len(), |i: int| i).filter(|i: int| ink[i].len() > 0).len();
            &&& f.len() == 7
            &&& f[0] == crate::float::convert::of_int(live as int)
            &&& f[1] == w.over(w.plus(h))
            &&& f[2] == super::raster::arc_of(ink, ink.len()).over(s)
            &&& f[3] == p.x.minus(b.min_x).over(s) && f[4] == p.y.minus(b.min_y).over(s)
            &&& f[5] == q.x.minus(b.min_x).over(s) && f[6] == q.y.minus(b.min_y).over(s)
        }),
{
    lemma_live(ink, ink.len());
}

proof fn lemma_live(ink: Seq<Seq<Point>>, n: nat)
    requires
        n <= ink.len(),
    ensures
        super::raster::count_live(ink, n) == Seq::new(n, |i: int| i).filter(
            |i: int| ink[i].len() > 0,
        ).len(),
    decreases n,
{
    reveal(Seq::filter);
    if n > 0 {
        lemma_live(ink, (n - 1) as nat);
        assert(Seq::new(n, |i: int| i).drop_last() =~= Seq::new((n - 1) as nat, |i: int| i));
    }
}

/// The length of the ink is added up stroke by stroke, and within a stroke from point to point: with one
/// more point, a stroke is longer by the distance from the point before.
pub proof fn law_the_length_grows_by_each_step(start: F32, points: Seq<Point>, p: Point)
    requires
        points.len() > 0,
    ensures
        ({
            let q = points.last();
            let (dx, dy) = (p.x.minus(q.x), p.y.minus(q.y));
            let all = points.push(p);
            super::raster::arc_along(start, all, all.len()) == super::raster::arc_along(
                start,
                points,
                points.len(),
            ).plus(dx.times(dx).plus(dy.times(dy)).sqrt())
        }),
{
    lemma_arc_prefix(start, points, p, points.len());
    let all = points.push(p);
    assert(all[all.len() - 2] == points.last());
}

proof fn lemma_arc_prefix(start: F32, points: Seq<Point>, p: Point, n: nat)
    requires
        n <= points.len(),
    ensures
        super::raster::arc_along(start, points.push(p), n) == super::raster::arc_along(
            start,
            points,
            n,
        ),
    decreases n,
{
    if n > 1 {
        lemma_arc_prefix(start, points, p, (n - 1) as nat);
    }
}

// ---------------------------------------------------------------------------------------------
// The online channels
// ---------------------------------------------------------------------------------------------
/// The four channels, one behind the other: from each sample to the next, how far the pen goes to the right
/// and how far down; whether it is lifted behind the sample, which it is where the next belongs to another
/// stroke and at the end; and by how much of a half turn it turns there, from the step before to the step
/// behind.
pub proof fn law_the_channels_tell_the_steps(s: Seq<Rp>, angle: Fn2, i: int)
    requires
        0 < i && i + 1 < s.len(),
    ensures
        ({
            let c = super::online::channels(s, angle);
            let n = s.len() as int;
            let (p, q, r) = (s[i - 1], s[i], s[i + 1]);
            let (ax, ay) = (q.x.minus(p.x), q.y.minus(p.y));
            let (bx, by) = (r.x.minus(q.x), r.y.minus(q.y));
            &&& c.len() == 4 * n
            &&& c[i] == bx && c[n + i] == by
            &&& c[2 * n + i] == if q.stroke == r.stroke {
                num(0)
            } else {
                num(0x3f80_0000)
            }
            &&& c[3 * n + i] == angle(
                ax.times(by).minus(ay.times(bx)),
                ax.times(bx).plus(ay.times(by)),
            ).over(num(0x4049_0fdb))
            &&& c[0] == s[1].x.minus(s[0].x) && c[n] == s[1].y.minus(s[0].y)
            &&& c[n - 1] == num(0) && c[2 * n - 1] == num(0) && c[3 * n - 1] == num(0x3f80_0000)
        }),
{
}

/// Samples follow the pen: a later sample is taken from no earlier part of the trajectory.
pub proof fn law_samples_follow_the_pen(t: Seq<Rp>, n: int, i: nat, j: nat)
    requires
        i <= j,
        t.len() > 0,
    ensures
        super::online::knot(t, n, i) <= super::online::knot(t, n, j) < t.len(),
    decreases j,
{
    if j > 0 && i < j {
        law_samples_follow_the_pen(t, n, i, (j - 1) as nat);
        lemma_advance(t, super::online::knot(t, n, (j - 1) as nat), super::online::sample_at(t, n, j as int));
    } else if j > 0 {
        law_samples_follow_the_pen(t, n, (j - 1) as nat, (j - 1) as nat);
        lemma_advance(t, super::online::knot(t, n, (j - 1) as nat), super::online::sample_at(t, n, j as int));
    } else {
        lemma_advance(t, 0, super::online::sample_at(t, n, 0));
    }
}

proof fn lemma_advance(t: Seq<Rp>, k: nat, at: F32)
    requires
        k < t.len(),
    ensures
        k <= super::online::advance(t, k, at) < t.len(),
    decreases t.len() - k,
{
    if k + 1 < t.len() && super::online::arc_to(t, k + 1).lt(at) {
        lemma_advance(t, k + 1, at);
    }
}

/// A sample between two points of the trajectory lies on the way from the one to the other, as far along as
/// its arc length is between theirs, and belongs to the first one's stroke.
pub proof fn law_samples_lie_on_the_way(t: Seq<Rp>, k: nat, at: F32)
    requires
        k + 1 < t.len(),
        num(0x3089_705f).lt(super::online::arc_to(t, k + 1).minus(super::online::arc_to(t, k))),
    ensures
        ({
            let (a, b) = (t[k as int], t[k as int + 1]);
            let (from, to) = (super::online::arc_to(t, k), super::online::arc_to(t, k + 1));
            let f = at.minus(from).over(to.minus(from));
            let s = super::online::between(t, k, at);
            &&& s.stroke == a.stroke
            &&& num(0).le(f) && f.le(num(0x3f80_0000)) ==> s.x == a.x.plus(
                f.times(b.x.minus(a.x)),
            ) && s.y == a.y.plus(f.times(b.y.minus(a.y)))
        }),
{
    reveal(F32::clamp_spec);
    reveal(F32::lt_spec);
    reveal(F32::le_spec);
}

/// Samples are equally spaced along the arc, from its start to its end.
pub proof fn law_samples_are_equally_spaced(t: Seq<Rp>, n: int, i: int)
    requires
        n >= 2,
        t.len() > 0,
        0 <= i < n,
    ensures
        super::online::sample_at(t, n, i) == crate::float::convert::of_int(i).times(
            super::online::arc_to(t, (t.len() - 1) as nat),
        ).over(crate::float::convert::of_int(n).minus(num(0x3f80_0000))),
        super::online::resampled(t, n).len() == n,
{
}

/// A jump of the lifted pen adds nothing to the arc; a step on the glass adds its length.
pub proof fn law_jumps_add_nothing_to_the_arc(t: Seq<Rp>, k: nat)
    ensures
        ({
            let (a, b) = (t[k as int], t[k as int + 1]);
            let (dx, dy) = (b.x.minus(a.x), b.y.minus(a.y));
            super::online::arc_to(t, k + 1) == super::online::arc_to(t, k).plus(
                if a.stroke == b.stroke {
                    dx.times(dx).plus(dy.times(dy)).sqrt()
                } else {
                    num(0)
                },
            )
        }),
{
}

} // verus!
