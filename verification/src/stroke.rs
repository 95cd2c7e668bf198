//! The normalized ink data model. Plain data types, no I/O, no device coupling: everything here
//! is already in normalized coordinates.
use crate::float::{num, F32};
use vstd::prelude::*;

verus! {

/// 0.
pub const ZERO: u32 = 0;

/// 1.
pub const ONE: u32 = 0x3f80_0000;

/// One half.
pub const HALF: u32 = 0x3f00_0000;

/// 2.
pub const TWO: u32 = 0x4000_0000;

/// One millionth: what keeps a division by an extent finite.
pub const TINY: u32 = 0x3586_37bd;

/// The distance from 1 to the next number.
pub const EPSILON: u32 = 0x3400_0000;

/// The largest finite number.
pub const LARGEST: u32 = 0x7f7f_ffff;

/// The smallest finite number.
pub const SMALLEST: u32 = 0xff7f_ffff;

/// One digitizer sample, in normalized (canvas) coordinates, not raw device units. `x` and `y`
/// are typically in `[0, 1]` with `y` pointing down; `pressure` is in `[0, 1]`; the tilts are as
/// the pen reports them. `t_us` is microseconds since the start of the capture.
#[derive(Debug, Clone, Copy, PartialEq, Eq, Structural)]
pub struct Point {
    pub x: F32,
    pub y: F32,
    pub pressure: F32,
    pub tilt_x: F32,
    pub tilt_y: F32,
    pub t_us: u64,
}

impl Point {
    pub fn new(x: F32, y: F32, pressure: F32, tilt_x: F32, tilt_y: F32, t_us: u64) -> (r: Self)
        ensures
            r == (Point { x, y, pressure, tilt_x, tilt_y, t_us }),
    {
        Point { x, y, pressure, tilt_x, tilt_y, t_us }
    }
}

/// A single pen-down to pen-up trajectory.
#[derive(Debug, PartialEq, Eq)]
pub struct Stroke {
    pub points: Vec<Point>,
}

impl View for Stroke {
    type V = Seq<Point>;

    open spec fn view(&self) -> Seq<Point> {
        self.points@
    }
}

impl Clone for Stroke {
    fn clone(&self) -> (r: Self)
        ensures
            r@ == self@,
    {
        Stroke { points: copy_points(&self.points) }
    }
}

impl Default for Stroke {
    fn default() -> (r: Self)
        ensures
            r@ == Seq::<Point>::empty(),
    {
        Stroke { points: Vec::new() }
    }
}

/// The same points in a new vector.
pub fn copy_points(points: &Vec<Point>) -> (r: Vec<Point>)
    ensures
        r@ == points@,
{
    let mut out: Vec<Point> = Vec::new();
    let mut i: usize = 0;
    while i < points.len()
        invariant
            i <= points.len(),
            out@ == points@.take(i as int),
        decreases points.len() - i,
    {
        out.push(points[i]);
        i = i + 1;
    }
    out
}

impl Stroke {
    pub fn new() -> (r: Self)
        ensures
            r@ == Seq::<Point>::empty(),
    {
        Stroke { points: Vec::new() }
    }

    pub fn push(&mut self, p: Point)
        ensures
            final(self)@ == old(self)@.push(p),
    {
        self.points.push(p);
    }

    pub fn len(&self) -> (r: usize)
        ensures
            r == self@.len(),
    {
        self.points.len()
    }

    pub fn is_empty(&self) -> (r: bool)
        ensures
            r == (self@.len() == 0),
    {
        self.points.len() == 0
    }

    /// The stroke through the given points.
    pub fn from_points(points: Vec<Point>) -> (r: Self)
        ensures
            r@ == points@,
    {
        Stroke { points }
    }
}

/// The trajectories of a list of strokes.
pub open spec fn trajectories(strokes: Seq<Stroke>) -> Seq<Seq<Point>> {
    Seq::new(strokes.len(), |i: int| strokes[i]@)
}

/// The points of all trajectories, in drawing order.
pub open spec fn all_points(ink: Seq<Seq<Point>>) -> Seq<Point>
    decreases ink.len(),
{
    if ink.len() == 0 {
        Seq::empty()
    } else {
        all_points(ink.drop_last()) + ink.last()
    }
}

/// A captured drawing: its strokes, plus the native source dimensions that the normalization was
/// performed against. These exist so that a renderer can reproduce the aspect ratio; 0 means
/// "unknown, assume square pixels".
#[derive(Debug, PartialEq, Eq)]
pub struct Ink {
    pub source_width: F32,
    pub source_height: F32,
    pub strokes: Vec<Stroke>,
}

/// What an [`Ink`] holds.
#[verifier::ext_equal]
pub struct InkView {
    pub source_width: F32,
    pub source_height: F32,
    pub strokes: Seq<Seq<Point>>,
}

impl View for Ink {
    type V = InkView;

    open spec fn view(&self) -> InkView {
        InkView {
            source_width: self.source_width,
            source_height: self.source_height,
            strokes: trajectories(self.strokes@),
        }
    }
}

/// The drawing without strokes and of unknown dimensions.
pub open spec fn blank() -> InkView {
    InkView { source_width: num(ZERO), source_height: num(ZERO), strokes: Seq::empty() }
}

/// The same strokes in a new vector.
pub fn copy_strokes(strokes: &Vec<Stroke>) -> (r: Vec<Stroke>)
    ensures
        r.len() == strokes.len(),
        trajectories(r@) == trajectories(strokes@),
{
    let mut out: Vec<Stroke> = Vec::new();
    let mut i: usize = 0;
    while i < strokes.len()
        invariant
            i <= strokes.len(),
            trajectories(out@) == trajectories(strokes@).take(i as int),
        decreases strokes.len() - i,
    {
        let s = strokes[i].clone();
        proof {
            assert(trajectories(out@.push(s)) =~= trajectories(out@).push(s@));
            assert(trajectories(strokes@).take(i + 1) =~= trajectories(strokes@).take(
                i as int,
            ).push(s@));
        }
        out.push(s);
        i = i + 1;
    }
    assert(trajectories(strokes@).take(i as int) =~= trajectories(strokes@));
    out
}

impl Clone for Ink {
    fn clone(&self) -> (r: Self)
        ensures
            r@ == self@,
    {
        Ink {
            source_width: self.source_width,
            source_height: self.source_height,
            strokes: copy_strokes(&self.strokes),
        }
    }
}

impl Default for Ink {
    fn default() -> (r: Self)
        ensures
            r@ == blank(),
    {
        let strokes: Vec<Stroke> = Vec::new();
        assert(trajectories(strokes@) =~= Seq::<Seq<Point>>::empty());
        Ink { source_width: num(ZERO), source_height: num(ZERO), strokes }
    }
}

// ---------------------------------------------------------------------------------------------
// Extents
// ---------------------------------------------------------------------------------------------
/// An axis-aligned box in normalized coordinates, `y` down.
#[derive(Debug, Clone, Copy, PartialEq, Eq, Structural)]
pub struct BBox {
    pub min_x: F32,
    pub min_y: F32,
    pub max_x: F32,
    pub max_y: F32,
}

/// The box of a single point.
pub open spec fn point_box(p: Point) -> BBox {
    BBox { min_x: p.x, min_y: p.y, max_x: p.x, max_y: p.y }
}

/// The box that holds nothing: every finite point lies beyond its edges.
pub open spec fn void_box() -> BBox {
    BBox {
        min_x: num(LARGEST),
        min_y: num(LARGEST),
        max_x: num(SMALLEST),
        max_y: num(SMALLEST),
    }
}

/// A box grown to hold a point.
pub open spec fn grown(b: BBox, p: Point) -> BBox {
    BBox {
        min_x: b.min_x.min(p.x),
        min_y: b.min_y.min(p.y),
        max_x: b.max_x.max(p.x),
        max_y: b.max_y.max(p.y),
    }
}

/// A box grown to hold each of the points in turn.
pub open spec fn hull(start: BBox, points: Seq<Point>) -> BBox
    decreases points.len(),
{
    if points.len() == 0 {
        start
    } else {
        grown(hull(start, points.drop_last()), points.last())
    }
}

/// The extent of a non-empty list of points.
pub open spec fn extent(points: Seq<Point>) -> BBox {
    hull(point_box(points[0]), points)
}

/// Growing by a first part, then by the rest.
pub proof fn lemma_hull_parts(start: BBox, a: Seq<Point>, b: Seq<Point>)
    ensures
        hull(start, a + b) == hull(hull(start, a), b),
    decreases b.len(),
{
    if b.len() == 0 {
        assert(a + b =~= a);
    } else {
        assert((a + b).drop_last() =~= a + b.drop_last());
        lemma_hull_parts(start, a, b.drop_last());
    }
}

/// A box grown to hold a point.
pub fn grow(b: BBox, p: &Point) -> (r: BBox)
    ensures
        r == grown(b, *p),
{
    BBox {
        min_x: b.min_x.min(p.x),
        min_y: b.min_y.min(p.y),
        max_x: b.max_x.max(p.x),
        max_y: b.max_y.max(p.y),
    }
}

/// A box grown to hold every point of a stroke.
pub fn grow_all(start: BBox, points: &Vec<Point>) -> (r: BBox)
    ensures
        r == hull(start, points@),
{
    let mut b: BBox = start;
    let mut i: usize = 0;
    while i < points.len()
        invariant
            i <= points.len(),
            b == hull(start, points@.take(i as int)),
        decreases points.len() - i,
    {
        proof {
            assert(points@.take(i + 1).drop_last() =~= points@.take(i as int));
        }
        b = grow(b, &points[i]);
        i = i + 1;
    }
    assert(points@.take(i as int) =~= points@);
    b
}

/// The extent of a stroke, if it has a point.
pub open spec fn extent_of(points: Seq<Point>) -> Option<BBox> {
    if points.len() == 0 {
        None
    } else {
        Some(extent(points))
    }
}

/// The extent of all the points of the strokes, if there is one.
pub fn bounds(strokes: &[Stroke]) -> (r: Option<BBox>)
    ensures
        r == extent_of(all_points(trajectories(strokes@))),
{
    let ghost ink = trajectories(strokes@);
    let mut b: Option<BBox> = None;
    let mut i: usize = 0;
    while i < strokes.len()
        invariant
            i <= strokes.len(),
            ink == trajectories(strokes@),
            b == extent_of(all_points(ink.take(i as int))),
        decreases strokes.len() - i,
    {
        let points = &strokes[i].points;
        proof {
            assert(ink.take(i + 1).drop_last() =~= ink.take(i as int));
            assert(ink.take(i + 1).last() == points@);
        }
        let ghost before = all_points(ink.take(i as int));
        match b {
            Some(start) => {
                b = Some(grow_all(start, points));
                proof {
                    lemma_hull_parts(point_box(before[0]), before, points@);
                }
            },
            None => {
                proof {
                    assert(before + points@ =~= points@);
                }
                if points.len() > 0 {
                    let p = points[0];
                    let start = BBox { min_x: p.x, min_y: p.y, max_x: p.x, max_y: p.y };
                    b = Some(grow_all(start, points));
                }
            },
        }
        i = i + 1;
    }
    assert(ink.take(i as int) =~= ink);
    b
}

/// The number of points in all trajectories.
pub open spec fn count_points(ink: Seq<Seq<Point>>) -> nat {
    all_points(ink).len()
}

impl Ink {
    pub fn new() -> (r: Self)
        ensures
            r@ == blank(),
    {
        let strokes: Vec<Stroke> = Vec::new();
        assert(trajectories(strokes@) =~= Seq::<Seq<Point>>::empty());
        Ink { source_width: num(ZERO), source_height: num(ZERO), strokes }
    }

    /// Record the native source dimensions.
    pub fn with_source(self, w: F32, h: F32) -> (r: Self)
        ensures
            r@ == (InkView { source_width: w, source_height: h, ..self@ }),
    {
        Ink { source_width: w, source_height: h, strokes: self.strokes }
    }

    pub fn push(&mut self, s: Stroke)
        ensures
            final(self)@ == (InkView { strokes: old(self)@.strokes.push(s@), ..old(self)@ }),
    {
        let ghost before = self.strokes@;
        self.strokes.push(s);
        assert(trajectories(before.push(s)) =~= trajectories(before).push(s@));
    }

    /// Total sample count across all strokes.
    pub fn point_count(&self) -> (r: usize)
        requires
            count_points(self@.strokes) <= usize::MAX,
        ensures
            r == count_points(self@.strokes),
    {
        let ghost ink = self@.strokes;
        let mut total: usize = 0;
        let mut i: usize = 0;
        while i < self.strokes.len()
            invariant
                i <= self.strokes.len(),
                ink == trajectories(self.strokes@),
                total == count_points(ink.take(i as int)),
                count_points(ink) <= usize::MAX,
            decreases self.strokes.len() - i,
        {
            proof {
                assert(ink.take(i + 1).drop_last() =~= ink.take(i as int));
                lemma_count_prefix(ink, i + 1);
            }
            total = total + self.strokes[i].points.len();
            i = i + 1;
        }
        assert(ink.take(i as int) =~= ink);
        total
    }

    /// Axis-aligned bounding box over every point as `(min_x, min_y, max_x, max_y)`, or `None` if
    /// there are no points. Used by the renderer to frame the drawing.
    pub fn bounds(&self) -> (r: Option<(F32, F32, F32, F32)>)
        ensures
            r == match extent_of(all_points(self@.strokes)) {
                Some(b) => Some((b.min_x, b.min_y, b.max_x, b.max_y)),
                None => None,
            },
    {
        match bounds(self.strokes.as_slice()) {
            Some(b) => Some((b.min_x, b.min_y, b.max_x, b.max_y)),
            None => None,
        }
    }

    /// Source aspect ratio (width over height) if known and valid, else `None`.
    pub fn aspect_ratio(&self) -> (r: Option<F32>)
        ensures
            r == if self.source_width.gt(num(ZERO)) && self.source_height.gt(num(ZERO)) {
                Some(self.source_width.over(self.source_height))
            } else {
                None
            },
    {
        if self.source_width.gt(num(ZERO)) && self.source_height.gt(num(ZERO)) {
            Some(self.source_width.over(self.source_height))
        } else {
            None
        }
    }
}

proof fn lemma_count_prefix(ink: Seq<Seq<Point>>, n: int)
    requires
        0 <= n <= ink.len(),
    ensures
        count_points(ink.take(n)) <= count_points(ink),
    decreases ink.len() - n,
{
    if n < ink.len() {
        assert(ink.take(n + 1).drop_last() =~= ink.take(n));
        lemma_count_prefix(ink, n + 1);
    } else {
        assert(ink.take(n) =~= ink);
    }
}

/// The extent holds every point, if no coordinate is NaN.
pub proof fn law_extent_holds_every_point(points: Seq<Point>, i: int)
    requires
        0 <= i < points.len(),
        forall|k: int|
            0 <= k < points.len() ==> !(#[trigger] points[k]).x.nan() && !points[k].y.nan(),
    ensures
        extent(points).min_x.le(points[i].x),
        extent(points).min_y.le(points[i].y),
        points[i].x.le(extent(points).max_x),
        points[i].y.le(extent(points).max_y),
{
    lemma_hull_holds(point_box(points[0]), points, i);
}

proof fn lemma_hull_holds(start: BBox, points: Seq<Point>, i: int)
    requires
        0 <= i < points.len(),
        forall|k: int|
            0 <= k < points.len() ==> !(#[trigger] points[k]).x.nan() && !points[k].y.nan(),
    ensures
        hull(start, points).min_x.le(points[i].x),
        hull(start, points).min_y.le(points[i].y),
        points[i].x.le(hull(start, points).max_x),
        points[i].y.le(hull(start, points).max_y),
    decreases points.len(),
{
    let b = hull(start, points.drop_last());
    let p = points.last();
    let q = points[i];
    assert(!points[points.len() - 1].x.nan());
    crate::float::order::lemma_min_max(b.min_x, p.x);
    crate::float::order::lemma_min_max(b.min_y, p.y);
    crate::float::order::lemma_min_max(b.max_x, p.x);
    crate::float::order::lemma_min_max(b.max_y, p.y);
    if i < points.len() - 1 {
        assert forall|k: int| 0 <= k < points.drop_last().len() implies !(
        #[trigger] points.drop_last()[k]).x.nan() && !points.drop_last()[k].y.nan() by {
            assert(points.drop_last()[k] == points[k]);
        }
        lemma_hull_holds(start, points.drop_last(), i);
        assert(points.drop_last()[i] == q);
        reveal(F32::le_spec);
    }
}

/// The extent of finite points is finite.
pub proof fn lemma_extent_finite(points: Seq<Point>)
    requires
        points.len() > 0,
        forall|k: int|
            0 <= k < points.len() ==> (#[trigger] points[k]).x.finite() && points[k].y.finite(),
    ensures
        extent(points).min_x.finite(),
        extent(points).min_y.finite(),
        extent(points).max_x.finite(),
        extent(points).max_y.finite(),
{
    assert(points[0].x.finite());
    lemma_hull_finite(point_box(points[0]), points);
}

proof fn lemma_hull_finite(start: BBox, points: Seq<Point>)
    requires
        start.min_x.finite() && start.min_y.finite() && start.max_x.finite()
            && start.max_y.finite(),
        forall|k: int|
            0 <= k < points.len() ==> (#[trigger] points[k]).x.finite() && points[k].y.finite(),
    ensures
        hull(start, points).min_x.finite(),
        hull(start, points).min_y.finite(),
        hull(start, points).max_x.finite(),
        hull(start, points).max_y.finite(),
    decreases points.len(),
{
    reveal(F32::min_spec);
    reveal(F32::max_spec);
    if points.len() > 0 {
        let before = points.drop_last();
        assert forall|k: int| 0 <= k < before.len() implies (#[trigger] before[k]).x.finite()
            && before[k].y.finite() by {
            assert(before[k] == points[k]);
        }
        lemma_hull_finite(start, before);
        assert(points[points.len() - 1].x.finite());
    }
}

} // verus!
