//! The online input channel: the temporal signal that a bitmap throws away.
//!
//! A symbol's pen trajectory (its strokes, in order) is resampled to a fixed number of points by
//! arc length, then encoded as four channels: `dx` and `dy` (the step between consecutive
//! resampled points), `pen_up` (1 at a stroke boundary), and `curvature` (the turning angle).
//! Positions are normalized to the symbol's bounding box.
//!
//! The layout is channel-major: all of `dx`, then all of `dy`, `pen_up` and `curvature`.
use crate::elementary::Fn2;
use crate::float::{num, F32};
use crate::stroke::{BBox, Point, Stroke, HALF, ONE, TINY, ZERO};
use vstd::arithmetic::div_mod::*;
use vstd::prelude::*;

verus! {

/// Resampled sequence length.
pub const ONLINE_POINTS: usize = 64;

/// Channels: dx, dy, pen_up, curvature.
pub const ONLINE_CHANNELS: usize = 4;

/// Stride of the online convolution.
pub const ONLINE_STRIDE: usize = 2;

/// `1e-9`: a shorter segment is not interpolated.
pub const SHORT: u32 = 0x3089_705f;

/// Pi.
pub const PI: u32 = 0x4049_0fdb;

// ---------------------------------------------------------------------------------------------
// The trajectory
// ---------------------------------------------------------------------------------------------
/// A trajectory point: normalized position, and the stroke that it belongs to.
#[derive(Clone, Copy)]
pub struct Rp {
    pub x: F32,
    pub y: F32,
    pub stroke: usize,
}

/// The strokes of all points, in drawing order.
pub open spec fn owners(ink: Seq<Seq<Point>>) -> Seq<int>
    decreases ink.len(),
{
    if ink.len() == 0 {
        Seq::empty()
    } else {
        owners(ink.drop_last()) + Seq::new(ink.last().len(), |i: int| ink.len() - 1)
    }
}

/// The scale of the ink: its larger side.
pub open spec fn larger_side(b: BBox) -> F32 {
    b.max_x.minus(b.min_x).max(b.max_y.minus(b.min_y)).max(num(TINY))
}

/// The trajectory with positions relative to the center, the larger side being 1.
pub open spec fn normalized(ink: Seq<Seq<Point>>) -> Seq<Rp> {
    let points = crate::stroke::all_points(ink);
    let b = crate::stroke::extent(points);
    let s = larger_side(b);
    let cx = b.min_x.plus(b.max_x).times(num(HALF));
    let cy = b.min_y.plus(b.max_y).times(num(HALF));
    Seq::new(
        points.len(),
        |i: int|
            Rp {
                x: points[i].x.minus(cx).over(s),
                y: points[i].y.minus(cy).over(s),
                stroke: owners(ink)[i] as usize,
            },
    )
}

/// The way from one trajectory point to the next. A pen-up jump adds nothing.
pub open spec fn way(a: Rp, b: Rp) -> F32 {
    if a.stroke == b.stroke {
        let dx = b.x.minus(a.x);
        let dy = b.y.minus(a.y);
        dx.times(dx).plus(dy.times(dy)).sqrt()
    } else {
        num(ZERO)
    }
}

/// The arc length up to point `k`.
pub open spec fn arc_to(t: Seq<Rp>, k: nat) -> F32
    decreases k,
{
    if k == 0 {
        num(ZERO)
    } else {
        arc_to(t, (k - 1) as nat).plus(way(t[k - 1], t[k as int]))
    }
}

/// The arc length of the whole trajectory.
pub open spec fn arc_total(t: Seq<Rp>) -> F32 {
    arc_to(t, (t.len() - 1) as nat)
}

/// Where along the arc sample `i` of `n` lies.
pub open spec fn sample_at(t: Seq<Rp>, n: int, i: int) -> F32 {
    if n == 1 {
        num(ZERO)
    } else {
        crate::float::convert::of_int(i).times(arc_total(t)).over(
            crate::float::convert::of_int(n).minus(num(ONE)),
        )
    }
}

/// The first point from `k` on whose successor is not before `at` (or the last point).
pub open spec fn advance(t: Seq<Rp>, k: nat, at: F32) -> nat
    decreases t.len() - k,
{
    if k + 1 < t.len() && arc_to(t, k + 1).lt(at) {
        advance(t, k + 1, at)
    } else {
        k
    }
}

/// The trajectory point from which sample `i` of `n` is taken.
pub open spec fn knot(t: Seq<Rp>, n: int, i: nat) -> nat
    decreases i,
{
    advance(
        t,
        if i == 0 {
            0
        } else {
            knot(t, n, (i - 1) as nat)
        },
        sample_at(t, n, i as int),
    )
}

/// The point at arc length `at`, on the way from point `k` to the next.
pub open spec fn between(t: Seq<Rp>, k: nat, at: F32) -> Rp {
    let a = t[k as int];
    let b = t[k as int + 1];
    let seg = arc_to(t, k + 1).minus(arc_to(t, k));
    if k + 1 < t.len() && seg.gt(num(SHORT)) {
        let f = at.minus(arc_to(t, k)).over(seg).clamp(num(ZERO), num(ONE));
        Rp {
            x: a.x.plus(f.times(b.x.minus(a.x))),
            y: a.y.plus(f.times(b.y.minus(a.y))),
            stroke: a.stroke,
        }
    } else {
        a
    }
}

/// The trajectory resampled to `n` points, equally spaced by arc length.
pub open spec fn resampled(t: Seq<Rp>, n: int) -> Seq<Rp> {
    Seq::new(n as nat, |i: int| between(t, knot(t, n, i as nat), sample_at(t, n, i)))
}

// ---------------------------------------------------------------------------------------------
// The channels
// ---------------------------------------------------------------------------------------------
/// The step in x from sample `i` to the next; 0 at the end.
pub open spec fn step_x(s: Seq<Rp>, i: int) -> F32 {
    if i + 1 < s.len() {
        s[i + 1].x.minus(s[i].x)
    } else {
        num(ZERO)
    }
}

/// The step in y from sample `i` to the next; 0 at the end.
pub open spec fn step_y(s: Seq<Rp>, i: int) -> F32 {
    if i + 1 < s.len() {
        s[i + 1].y.minus(s[i].y)
    } else {
        num(ZERO)
    }
}

/// Is the pen lifted behind sample `i`? It is at a stroke boundary, and at the end.
pub open spec fn pen_up(s: Seq<Rp>, i: int) -> F32 {
    if i + 1 < s.len() && s[i + 1].stroke == s[i].stroke {
        num(ZERO)
    } else {
        num(ONE)
    }
}

/// The cross product of the steps before and behind sample `i`.
pub open spec fn turn_cross(s: Seq<Rp>, i: int) -> F32 {
    step_x(s, i - 1).times(step_y(s, i)).minus(step_y(s, i - 1).times(step_x(s, i)))
}

/// The dot product of the steps before and behind sample `i`.
pub open spec fn turn_dot(s: Seq<Rp>, i: int) -> F32 {
    step_x(s, i - 1).times(step_x(s, i)).plus(step_y(s, i - 1).times(step_y(s, i)))
}

/// The signed turning angle at sample `i`, in `[-1, 1]`; 0 at the ends. `angle` is the arctangent.
pub open spec fn curvature(s: Seq<Rp>, i: int, angle: Fn2) -> F32 {
    if 1 <= i && i + 1 < s.len() {
        angle(turn_cross(s, i), turn_dot(s, i)).over(num(PI))
    } else {
        num(ZERO)
    }
}

/// The steps and the pen lifts of a resampled trajectory, one channel behind the other.
pub open spec fn moves(s: Seq<Rp>) -> Seq<F32> {
    Seq::new(s.len(), |i: int| step_x(s, i)) + Seq::new(s.len(), |i: int| step_y(s, i)) + Seq::new(
        s.len(),
        |i: int| pen_up(s, i),
    )
}

/// The channels of a resampled trajectory, one behind the other.
pub open spec fn channels(s: Seq<Rp>, angle: Fn2) -> Seq<F32> {
    moves(s) + Seq::new(s.len(), |i: int| curvature(s, i, angle))
}

/// `n` zeros.
pub open spec fn zeros(n: int) -> Seq<F32> {
    Seq::new(n as nat, |i: int| num(ZERO))
}

/// Is there a path to resample: two points, and some arc length?
pub open spec fn has_path(ink: Seq<Seq<Point>>) -> bool {
    crate::stroke::all_points(ink).len() >= 2 && !arc_total(normalized(ink)).le(num(TINY))
}

/// The online features of a drawing: the channels of the trajectory resampled to `n` points, or
/// zeros where there is no path.
pub open spec fn online_of(ink: Seq<Seq<Point>>, n: int, angle: Fn2) -> Seq<F32> {
    if has_path(ink) {
        channels(resampled(normalized(ink), n), angle)
    } else {
        zeros(4 * n)
    }
}

/// The online features of a drawing but for the curvature: these take no arctangent.
pub open spec fn moves_of(ink: Seq<Seq<Point>>, n: int) -> Seq<F32> {
    if has_path(ink) {
        moves(resampled(normalized(ink), n))
    } else {
        zeros(3 * n)
    }
}

proof fn lemma_owners(ink: Seq<Seq<Point>>)
    ensures
        owners(ink).len() == crate::stroke::all_points(ink).len(),
        forall|i: int| 0 <= i < owners(ink).len() ==> 0 <= #[trigger] owners(ink)[i] < ink.len(),
    decreases ink.len(),
{
    if ink.len() > 0 {
        lemma_owners(ink.drop_last());
        let before = owners(ink.drop_last());
        assert forall|i: int| 0 <= i < owners(ink).len() implies 0 <= #[trigger] owners(ink)[i]
            < ink.len() by {
            if i < before.len() {
                assert(owners(ink)[i] == before[i]);
            }
        }
    }
}

/// All points with their strokes, in drawing order.
fn collect_points(strokes: &[Stroke]) -> (r: (Vec<Point>, Vec<usize>))
    ensures
        r.0@ == crate::stroke::all_points(crate::stroke::trajectories(strokes@)),
        r.1.len() == r.0.len(),
        forall|i: int|
            0 <= i < r.1.len() ==> #[trigger] r.1[i] == owners(
                crate::stroke::trajectories(strokes@),
            )[i],
{
    let ghost ink = crate::stroke::trajectories(strokes@);
    let mut points: Vec<Point> = Vec::new();
    let mut strokes_of: Vec<usize> = Vec::new();
    let mut i: usize = 0;
    while i < strokes.len()
        invariant
            i <= strokes.len(),
            ink == crate::stroke::trajectories(strokes@),
            points@ == crate::stroke::all_points(ink.take(i as int)),
            crate::sort::as_ints(strokes_of@) == owners(ink.take(i as int)),
            strokes_of.len() == points.len(),
        decreases strokes.len() - i,
    {
        let cur = &strokes[i].points;
        let ghost p0 = points@;
        let ghost s0 = strokes_of@;
        let mut k: usize = 0;
        assert(p0 + cur@.take(0) =~= p0);
        while k < cur.len()
            invariant
                k <= cur.len(),
                points@ == p0 + cur@.take(k as int),
                strokes_of@.len() == s0.len() + k,
                strokes_of.len() == points.len(),
                forall|j: int| 0 <= j < s0.len() ==> #[trigger] strokes_of@[j] == s0[j],
                forall|j: int| s0.len() <= j < strokes_of@.len() ==> #[trigger] strokes_of@[j] == i,
            decreases cur.len() - k,
        {
            points.push(cur[k]);
            strokes_of.push(i);
            k = k + 1;
            assert(points@ =~= p0 + cur@.take(k as int));
        }
        proof {
            assert(cur@.take(k as int) =~= cur@);
            let now = ink.take(i + 1);
            assert(now.drop_last() =~= ink.take(i as int));
            assert(now.last() == cur@);
            assert(crate::sort::as_ints(strokes_of@) =~= owners(now));
        }
        i = i + 1;
    }
    assert(ink.take(i as int) =~= ink);
    proof {
        assert forall|k: int| 0 <= k < strokes_of.len() implies #[trigger] strokes_of[k] == owners(
            ink,
        )[k] by {
            assert(crate::sort::as_ints(strokes_of@)[k] == strokes_of[k]);
        }
    }
    (points, strokes_of)
}

/// The normalized trajectory.
fn normalize(points: &Vec<Point>, strokes_of: &Vec<usize>, Ghost(ink): Ghost<Seq<Seq<Point>>>) -> (r:
    Vec<Rp>)
    requires
        points.len() >= 2,
        points@ == crate::stroke::all_points(ink),
        strokes_of.len() == points.len(),
        forall|i: int| 0 <= i < strokes_of.len() ==> #[trigger] strokes_of[i] == owners(ink)[i],
    ensures
        r@ == normalized(ink),
{
    let p = points[0];
    let b = crate::stroke::grow_all(
        BBox { min_x: p.x, min_y: p.y, max_x: p.x, max_y: p.y },
        points,
    );
    let s = b.max_x.minus(b.min_x).max(b.max_y.minus(b.min_y)).max(num(TINY));
    let cx = b.min_x.plus(b.max_x).times(num(HALF));
    let cy = b.min_y.plus(b.max_y).times(num(HALF));
    let mut out: Vec<Rp> = Vec::new();
    let mut i: usize = 0;
    while i < points.len()
        invariant
            i <= points.len(),
            points@ == crate::stroke::all_points(ink),
            strokes_of.len() == points.len(),
            forall|i: int| 0 <= i < strokes_of.len() ==> #[trigger] strokes_of[i] == owners(ink)[i],
            b == crate::stroke::extent(points@),
            s == larger_side(b),
            cx == b.min_x.plus(b.max_x).times(num(HALF)),
            cy == b.min_y.plus(b.max_y).times(num(HALF)),
            out.len() == i,
            forall|j: int| 0 <= j < i ==> #[trigger] out[j] == normalized(ink)[j],
        decreases points.len() - i,
    {
        out.push(
            Rp {
                x: points[i].x.minus(cx).over(s),
                y: points[i].y.minus(cy).over(s),
                stroke: strokes_of[i],
            },
        );
        i = i + 1;
    }
    assert(out@ =~= normalized(ink));
    out
}

/// The arc length up to each point.
fn arcs(t: &Vec<Rp>) -> (r: Vec<F32>)
    requires
        t.len() >= 1,
    ensures
        r.len() == t.len(),
        forall|k: int| 0 <= k < r.len() ==> #[trigger] r[k] == arc_to(t@, k as nat),
{
    let mut out: Vec<F32> = Vec::new();
    out.push(num(ZERO));
    let mut k: usize = 1;
    while k < t.len()
        invariant
            1 <= k <= t.len(),
            out.len() == k,
            forall|j: int| 0 <= j < k ==> #[trigger] out[j] == arc_to(t@, j as nat),
        decreases t.len() - k,
    {
        let a = t[k - 1];
        let b = t[k];
        let d = if b.stroke == a.stroke {
            let dx = b.x.minus(a.x);
            let dy = b.y.minus(a.y);
            dx.times(dx).plus(dy.times(dy)).sqrt()
        } else {
            num(ZERO)
        };
        let next = out[k - 1].plus(d);
        out.push(next);
        k = k + 1;
    }
    out
}

/// Resample to `n` points, equally spaced by arc length.
fn resample(t: &Vec<Rp>, cum: &Vec<F32>, n: usize) -> (r: Vec<Rp>)
    requires
        t.len() >= 1,
        cum.len() == t.len(),
        forall|k: int| 0 <= k < cum.len() ==> #[trigger] cum[k] == arc_to(t@, k as nat),
    ensures
        r@ == resampled(t@, n as int),
{
    let len: usize = t.len();
    let total = cum[len - 1];
    let last = F32::from_usize(n).minus(num(ONE));
    let mut out: Vec<Rp> = Vec::new();
    let mut k: usize = 0;
    let mut i: usize = 0;
    while i < n
        invariant
            i <= n,
            k < len,
            len == t.len(),
            cum.len() == len,
            forall|k: int| 0 <= k < cum.len() ==> #[trigger] cum[k] == arc_to(t@, k as nat),
            total == arc_total(t@),
            last == crate::float::convert::of_int(n as int).minus(num(ONE)),
            k == if i == 0 {
                0
            } else {
                knot(t@, n as int, (i - 1) as nat)
            },
            out.len() == i,
            forall|j: int| 0 <= j < i ==> #[trigger] out[j] == resampled(t@, n as int)[j],
        decreases n - i,
    {
        let at = if n == 1 {
            num(ZERO)
        } else {
            F32::from_usize(i).times(total).over(last)
        };
        assert(at == sample_at(t@, n as int, i as int));
        while k + 1 < len && cum[k + 1].lt(at)
            invariant
                i < n,
                k < len,
                len == t.len(),
                cum.len() == len,
                forall|k: int| 0 <= k < cum.len() ==> #[trigger] cum[k] == arc_to(t@, k as nat),
                at == sample_at(t@, n as int, i as int),
                knot(t@, n as int, i as nat) == advance(t@, k as nat, at),
            decreases len - k,
        {
            k = k + 1;
        }
        assert(k == knot(t@, n as int, i as nat));
        let a = t[k];
        let mut p: Rp = a;
        if k + 1 < len {
            let b = t[k + 1];
            let seg = cum[k + 1].minus(cum[k]);
            if seg.gt(num(SHORT)) {
                let f = at.minus(cum[k]).over(seg).clamp(num(ZERO), num(ONE));
                p =
                Rp {
                    x: a.x.plus(f.times(b.x.minus(a.x))),
                    y: a.y.plus(f.times(b.y.minus(a.y))),
                    stroke: a.stroke,
                };
            }
        }
        assert(p == between(t@, k as nat, at));
        out.push(p);
        i = i + 1;
    }
    assert(out@ =~= resampled(t@, n as int));
    out
}

fn find_step_x(s: &Vec<Rp>, i: usize) -> (r: F32)
    requires
        i < s.len(),
    ensures
        r == step_x(s@, i as int),
{
    if i + 1 < s.len() {
        s[i + 1].x.minus(s[i].x)
    } else {
        num(ZERO)
    }
}

fn find_step_y(s: &Vec<Rp>, i: usize) -> (r: F32)
    requires
        i < s.len(),
    ensures
        r == step_y(s@, i as int),
{
    if i + 1 < s.len() {
        s[i + 1].y.minus(s[i].y)
    } else {
        num(ZERO)
    }
}

/// The channels of a resampled trajectory.
fn encode<A: Fn(F32, F32) -> F32>(s: &Vec<Rp>, atan2: &A) -> (r: Vec<F32>)
    requires
        crate::elementary::callable2(*atan2),
    ensures
        r.len() == 4 * s.len(),
        r@.take(3 * s.len() as int) == moves(s@),
        s.len() > 0 ==> r[3 * s.len() as int] == num(ZERO) && r[4 * s.len() - 1] == num(ZERO),
        forall|h: Fn2| #[trigger]
            crate::elementary::computes2(*atan2, h) ==> r@ == channels(s@, h),
{
    let n: usize = s.len();
    let mut out: Vec<F32> = Vec::new();
    let mut ys: Vec<F32> = Vec::new();
    let mut ups: Vec<F32> = Vec::new();
    let mut turns: Vec<F32> = Vec::new();
    let mut i: usize = 0;
    while i < n
        invariant
            i <= n,
            n == s.len(),
            crate::elementary::callable2(*atan2),
            out.len() == i,
            ys.len() == i,
            ups.len() == i,
            turns.len() == i,
            forall|j: int| 0 <= j < i ==> #[trigger] out[j] == step_x(s@, j),
            forall|j: int| 0 <= j < i ==> #[trigger] ys[j] == step_y(s@, j),
            forall|j: int| 0 <= j < i ==> #[trigger] ups[j] == pen_up(s@, j),
            forall|j: int|
                0 <= j < i && (j == 0 || j == n - 1) ==> #[trigger] turns[j] == num(ZERO),
            forall|j: int, h: Fn2|
                #![trigger turns[j], crate::elementary::computes2(*atan2, h)]
                0 <= j < i && crate::elementary::computes2(*atan2, h) ==> turns[j] == curvature(
                    s@,
                    j,
                    h,
                ),
        decreases n - i,
    {
        let x = find_step_x(s, i);
        let y = find_step_y(s, i);
        let up = if i + 1 < n && s[i + 1].stroke == s[i].stroke {
            num(ZERO)
        } else {
            num(ONE)
        };
        let turn = if i >= 1 && i + 1 < n {
            let ax = find_step_x(s, i - 1);
            let ay = find_step_y(s, i - 1);
            let cross = ax.times(y).minus(ay.times(x));
            let dot = ax.times(x).plus(ay.times(y));
            let angle = atan2(cross, dot);
            angle.over(num(PI))
        } else {
            num(ZERO)
        };
        proof {
            assert forall|h: Fn2| #[trigger]
                crate::elementary::computes2(*atan2, h) implies turn == curvature(
                s@,
                i as int,
                h,
            ) by {}
        }
        out.push(x);
        ys.push(y);
        ups.push(up);
        turns.push(turn);
        i = i + 1;
    }
    let ghost all_turns = turns@;
    let ghost xs = out@;
    let ghost all_ys = ys@;
    let ghost all_ups = ups@;
    out.append(&mut ys);
    out.append(&mut ups);
    out.append(&mut turns);
    proof {
        assert(xs =~= Seq::new(s@.len(), |i: int| step_x(s@, i)));
        assert(all_ys =~= Seq::new(s@.len(), |i: int| step_y(s@, i)));
        assert(all_ups =~= Seq::new(s@.len(), |i: int| pen_up(s@, i)));
        assert(out@.take(3 * n as int) =~= moves(s@));
        if n > 0 {
            assert(out[3 * n as int] == all_turns[0]);
            assert(out[4 * n - 1] == all_turns[n - 1]);
        }
        assert forall|h: Fn2| #[trigger] crate::elementary::computes2(*atan2, h) implies out@
            == channels(s@, h) by {
            assert(all_turns =~= Seq::new(s@.len(), |i: int| curvature(s@, i, h))) by {
                assert forall|j: int| 0 <= j < all_turns.len() implies all_turns[j] == curvature(
                    s@,
                    j,
                    h,
                ) by {}
            }
        }
    }
    out
}

/// Compute the online channels, `4 * n` values, channel-major. All zeros for degenerate input: no
/// points, or no arc length. `atan2` is the arctangent of `y / x`; the curvature alone depends on it,
/// and is zero at both ends whatever it computes.
pub fn online_features<A: Fn(F32, F32) -> F32>(strokes: &[Stroke], n: usize, atan2: &A) -> (r: Vec<
    F32,
>)
    requires
        4 * n <= usize::MAX,
        crate::elementary::callable2(*atan2),
    ensures
        r.len() == 4 * n,
        r@.take(3 * n as int) == moves_of(crate::stroke::trajectories(strokes@), n as int),
        n > 0 ==> r[3 * n as int] == num(ZERO) && r[4 * n - 1] == num(ZERO),
        !has_path(crate::stroke::trajectories(strokes@)) ==> r@ == zeros(4 * n as int),
        forall|h: Fn2| #[trigger]
            crate::elementary::computes2(*atan2, h) ==> r@ == online_of(
                crate::stroke::trajectories(strokes@),
                n as int,
                h,
            ),
{
    let ghost ink = crate::stroke::trajectories(strokes@);
    let (points, strokes_of) = collect_points(strokes);
    proof {
        lemma_owners(ink);
    }
    if points.len() >= 2 {
        let t = normalize(&points, &strokes_of, Ghost(ink));
        let cum = arcs(&t);
        let total = cum[t.len() - 1];
        if !total.le(num(TINY)) {
            assert(has_path(ink));
            let s = resample(&t, &cum, n);
            assert(s@.len() == n);
            return encode(&s, atan2);
        }
    }
    let mut out: Vec<F32> = Vec::new();
    let mut k: usize = 0;
    while k < ONLINE_CHANNELS * n
        invariant
            k <= 4 * n,
            4 * n <= usize::MAX,
            out.len() == k,
            forall|j: int| 0 <= j < k ==> #[trigger] out[j] == num(ZERO),
        decreases 4 * n - k,
    {
        out.push(num(ZERO));
        k = k + 1;
    }
    assert(out@ =~= zeros(4 * n as int));
    assert(out@.take(3 * n as int) =~= zeros(3 * n as int));
    out
}

} // verus!
