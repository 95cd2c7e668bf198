//! A drawing made of formulas, for demonstrations and tests without a tablet. It is the same every
//! time.
use crate::elementary::Fn1;
use crate::float::{num, F32};
use crate::stroke::{Ink, InkView, Point, Stroke, HALF, TWO, ZERO};
use vstd::prelude::*;

verus! {

/// A full turn, in radians.
pub const TAU: u32 = 0x40c9_0fdb;

/// The tablet's screen: 1872 by 1404.
pub const SCREEN_WIDTH: u32 = 0x44ea_0000;
pub const SCREEN_HEIGHT: u32 = 0x44af_8000;

/// 0.1, 0.8, 0.45, 0.18 and 0.35: the wave.
pub const WAVE_LEFT: u32 = 0x3dcc_cccd;
pub const WAVE_LENGTH: u32 = 0x3f4c_cccd;
pub const WAVE_MIDDLE: u32 = 0x3ee6_6666;
pub const WAVE_HEIGHT: u32 = 0x3e38_51ec;
pub const WAVE_PRESSURE: u32 = 0x3eb3_3333;

/// 0.15, 0.75, 0.3 and 0.8: the diagonal.
pub const DIAGONAL_LEFT: u32 = 0x3e19_999a;
pub const DIAGONAL_BOTTOM: u32 = 0x3f40_0000;
pub const DIAGONAL_SIDE: u32 = 0x3e99_999a;
pub const DIAGONAL_PRESSURE: u32 = 0x3f4c_cccd;

/// 0.72, 0.7, 0.06, 0.08 and 0.6: the ring.
pub const RING_X: u32 = 0x3f38_51ec;
pub const RING_Y: u32 = 0x3f33_3333;
pub const RING_WIDTH: u32 = 0x3d75_c28f;
pub const RING_HEIGHT: u32 = 0x3da3_d70a;
pub const RING_PRESSURE: u32 = 0x3f19_999a;

/// How far along a stroke of `last + 1` points the point `i` is.
pub open spec fn along(i: int, last: int) -> F32 {
    crate::float::convert::of_int(i).over(crate::float::convert::of_int(last))
}

/// A point of the wave: a sine wave across the middle, with a pressure that varies along it.
pub open spec fn wave_point(i: int, sin: Fn1) -> Point {
    let u = along(i, 120);
    Point {
        x: num(WAVE_LEFT).plus(num(WAVE_LENGTH).times(u)),
        y: num(WAVE_MIDDLE).minus(num(WAVE_HEIGHT).times(sin(u.times(num(TWO)).times(num(TAU))))),
        pressure: num(WAVE_PRESSURE).plus(num(HALF).times(sin(u.times(num(TAU))).abs())),
        tilt_x: num(ZERO),
        tilt_y: num(ZERO),
        t_us: (i * 6000) as u64,
    }
}

/// A point of the diagonal.
pub open spec fn diagonal_point(i: int) -> Point {
    let u = along(i, 40);
    Point {
        x: num(DIAGONAL_LEFT).plus(num(DIAGONAL_SIDE).times(u)),
        y: num(DIAGONAL_BOTTOM).minus(num(DIAGONAL_SIDE).times(u)),
        pressure: num(DIAGONAL_PRESSURE),
        tilt_x: num(ZERO),
        tilt_y: num(ZERO),
        t_us: (800_000 + i * 4000) as u64,
    }
}

/// A point of the ring.
pub open spec fn ring_point(i: int, sin: Fn1, cos: Fn1) -> Point {
    let a = along(i, 60).times(num(TAU));
    Point {
        x: num(RING_X).plus(num(RING_WIDTH).times(cos(a))),
        y: num(RING_Y).plus(num(RING_HEIGHT).times(sin(a))),
        pressure: num(RING_PRESSURE),
        tilt_x: num(ZERO),
        tilt_y: num(ZERO),
        t_us: (1_200_000 + i * 5000) as u64,
    }
}

/// The drawing: a wave, a diagonal and a ring.
pub open spec fn sample_of(sin: Fn1, cos: Fn1) -> InkView {
    InkView {
        source_width: num(SCREEN_WIDTH),
        source_height: num(SCREEN_HEIGHT),
        strokes: seq![
            Seq::new(121, |i: int| wave_point(i, sin)),
            Seq::new(41, |i: int| diagonal_point(i)),
            Seq::new(61, |i: int| ring_point(i, sin, cos)),
        ],
    }
}

fn progress(i: u64, last: u64) -> (r: F32)
    requires
        i <= 120,
        last <= 120,
    ensures
        r == along(i as int, last as int),
{
    F32::from_i32(i as i32).over(F32::from_i32(last as i32))
}

fn wave<S: Fn(F32) -> F32>(sin: &S) -> (r: Stroke)
    requires
        crate::elementary::callable1(*sin),
    ensures
        r@.len() == 121,
        forall|s: Fn1| #[trigger]
            crate::elementary::computes1(*sin, s) ==> r@ == Seq::new(
                121,
                |i: int| wave_point(i, s),
            ),
{
    let mut points: Vec<Point> = Vec::new();
    let mut i: u64 = 0;
    while i < 121
        invariant
            i <= 121,
            points.len() == i,
            crate::elementary::callable1(*sin),
            forall|s: Fn1, k: int|
                #[trigger] crate::elementary::computes1(*sin, s) && 0 <= k < i
                    ==> #[trigger] points@[k] == wave_point(k, s),
        decreases 121 - i,
    {
        let u = progress(i, 120);
        let x = num(WAVE_LEFT).plus(num(WAVE_LENGTH).times(u));
        let high = sin(u.times(num(TWO)).times(num(TAU)));
        let hard = sin(u.times(num(TAU)));
        let y = num(WAVE_MIDDLE).minus(num(WAVE_HEIGHT).times(high));
        let pressure = num(WAVE_PRESSURE).plus(num(HALF).times(hard.abs()));
        points.push(Point::new(x, y, pressure, num(ZERO), num(ZERO), i * 6000));
        i = i + 1;
    }
    proof {
        assert forall|s: Fn1| #[trigger] crate::elementary::computes1(*sin, s) implies points@
            == Seq::new(121, |i: int| wave_point(i, s)) by {
            assert(points@ =~= Seq::new(121, |i: int| wave_point(i, s)));
        }
    }
    Stroke { points }
}

fn diagonal() -> (r: Stroke)
    ensures
        r@ == Seq::new(41, |i: int| diagonal_point(i)),
{
    let mut points: Vec<Point> = Vec::new();
    let mut i: u64 = 0;
    while i < 41
        invariant
            i <= 41,
            points@ == Seq::new(i as nat, |i: int| diagonal_point(i)),
        decreases 41 - i,
    {
        let u = progress(i, 40);
        let x = num(DIAGONAL_LEFT).plus(num(DIAGONAL_SIDE).times(u));
        let y = num(DIAGONAL_BOTTOM).minus(num(DIAGONAL_SIDE).times(u));
        let t: u64 = 800_000 + i * 4000;
        points.push(Point::new(x, y, num(DIAGONAL_PRESSURE), num(ZERO), num(ZERO), t));
        i = i + 1;
        assert(points@ =~= Seq::new(i as nat, |i: int| diagonal_point(i)));
    }
    Stroke { points }
}

fn ring<S: Fn(F32) -> F32, C: Fn(F32) -> F32>(sin: &S, cos: &C) -> (r: Stroke)
    requires
        crate::elementary::callable1(*sin),
        crate::elementary::callable1(*cos),
    ensures
        r@.len() == 61,
        forall|s: Fn1, c: Fn1| #[trigger]
            crate::elementary::computes1(*sin, s) && #[trigger] crate::elementary::computes1(
                *cos,
                c,
            ) ==> r@ == Seq::new(61, |i: int| ring_point(i, s, c)),
{
    let mut points: Vec<Point> = Vec::new();
    let mut i: u64 = 0;
    while i < 61
        invariant
            i <= 61,
            points.len() == i,
            crate::elementary::callable1(*sin),
            crate::elementary::callable1(*cos),
            forall|s: Fn1, c: Fn1, k: int|
                #[trigger] crate::elementary::computes1(*sin, s)
                    && #[trigger] crate::elementary::computes1(*cos, c) && 0 <= k < i
                    ==> #[trigger] points@[k] == ring_point(k, s, c),
        decreases 61 - i,
    {
        let a = progress(i, 60).times(num(TAU));
        let x = num(RING_X).plus(num(RING_WIDTH).times(cos(a)));
        let y = num(RING_Y).plus(num(RING_HEIGHT).times(sin(a)));
        let t: u64 = 1_200_000 + i * 5000;
        points.push(Point::new(x, y, num(RING_PRESSURE), num(ZERO), num(ZERO), t));
        i = i + 1;
    }
    proof {
        assert forall|s: Fn1, c: Fn1| #[trigger]
            crate::elementary::computes1(*sin, s) && #[trigger] crate::elementary::computes1(
                *cos,
                c,
            ) implies points@ == Seq::new(61, |i: int| ring_point(i, s, c)) by {
            assert(points@ =~= Seq::new(61, |i: int| ring_point(i, s, c)));
        }
    }
    Stroke { points }
}

/// The drawing. `sin` and `cos` are the sine and the cosine.
pub fn sample_ink<S: Fn(F32) -> F32, C: Fn(F32) -> F32>(sin: &S, cos: &C) -> (r: Ink)
    requires
        crate::elementary::callable1(*sin),
        crate::elementary::callable1(*cos),
    ensures
        forall|s: Fn1, c: Fn1| #[trigger]
            crate::elementary::computes1(*sin, s) && #[trigger] crate::elementary::computes1(
                *cos,
                c,
            ) ==> r@ == sample_of(s, c),
        r@.strokes.len() == 3,
        r@.strokes[0].len() == 121,
        r@.strokes[1] == Seq::new(41, |i: int| diagonal_point(i)),
        r@.strokes[2].len() == 61,
        r@.source_width == num(SCREEN_WIDTH),
        r@.source_height == num(SCREEN_HEIGHT),
{
    let mut ink = Ink::new().with_source(num(SCREEN_WIDTH), num(SCREEN_HEIGHT));
    let a = wave(sin);
    let b = diagonal();
    let c = ring(sin, cos);
    let ghost want = seq![a@, b@, c@];
    ink.push(a);
    ink.push(b);
    ink.push(c);
    assert(ink@.strokes =~= want);
    proof {
        assert forall|s: Fn1, t: Fn1| #[trigger]
            crate::elementary::computes1(*sin, s) && #[trigger] crate::elementary::computes1(
                *cos,
                t,
            ) implies ink@ == sample_of(s, t) by {
            assert(ink@.strokes =~= sample_of(s, t).strokes);
        }
    }
    ink
}

} // verus!
