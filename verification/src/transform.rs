//! From digitizer to normalized screen coordinates, and back. This is the one place that knows
//! the pen's raw axis geometry.
//!
//! The digitizer under the glass is rotated by a quarter turn: its X runs along the long edge of
//! the display, its Y along the short edge. So the screen's x comes from the digitizer's Y, and
//! the screen's y from its X, flipped.
use crate::evdev::AbsInfo;
use crate::float::{num, F32};
use crate::stroke::{ONE, TWO, ZERO};
use vstd::prelude::*;

verus! {

/// Minus one.
pub const MINUS_ONE: u32 = 0xbf80_0000;

/// The width of an axis' range.
pub open spec fn span_of(a: AbsInfo) -> F32 {
    crate::float::convert::of_int(a.maximum - a.minimum)
}

/// How far along its range an axis is, before it is clamped.
pub open spec fn portion(v: int, a: AbsInfo) -> F32 {
    crate::float::convert::of_int(v - a.minimum).over(span_of(a))
}

/// How far along its range an axis is, from 0 to 1. A range without an extent is always at 0.
pub open spec fn fraction(v: int, a: AbsInfo) -> F32 {
    if span_of(a).le(num(ZERO)) {
        num(ZERO)
    } else {
        portion(v, a).clamp(num(ZERO), num(ONE))
    }
}

/// How far along its range a symmetric axis is, from -1 to 1.
pub open spec fn signed_fraction(v: int, a: AbsInfo) -> F32 {
    if span_of(a).le(num(ZERO)) {
        num(ZERO)
    } else {
        num(TWO).times(portion(v, a)).minus(num(ONE)).clamp(num(MINUS_ONE), num(ONE))
    }
}

/// The mapping of a digitizer with the given axes.
#[derive(Debug, Clone, Copy, PartialEq, Eq, Structural)]
pub struct Transform {
    pub x: AbsInfo,
    pub y: AbsInfo,
}

pub(crate) fn frac(v: i32, a: &AbsInfo) -> (r: F32)
    ensures
        r == fraction(v as int, *a),
{
    let span = F32::from_i64(a.maximum as i64 - a.minimum as i64);
    if span.le(num(ZERO)) {
        return num(ZERO);
    }
    F32::from_i64(v as i64 - a.minimum as i64).over(span).clamp(num(ZERO), num(ONE))
}

/// Map a symmetric axis (such as tilt) to `[-1, 1]` against its range.
pub(crate) fn signed_frac(v: i32, a: &AbsInfo) -> (r: F32)
    ensures
        r == signed_fraction(v as int, *a),
{
    let span = F32::from_i64(a.maximum as i64 - a.minimum as i64);
    if span.le(num(ZERO)) {
        return num(ZERO);
    }
    num(TWO).times(F32::from_i64(v as i64 - a.minimum as i64).over(span)).minus(num(ONE)).clamp(
        num(MINUS_ONE),
        num(ONE),
    )
}

/// The raw count on an axis at a fraction of its range, as far as 32 bits reach.
pub open spec fn raw_count(f: F32, a: AbsInfo) -> int {
    let v = a.minimum + f.times(span_of(a)).to_i32();
    if v < i32::MIN {
        i32::MIN as int
    } else if v > i32::MAX {
        i32::MAX as int
    } else {
        v
    }
}

fn to_count(f: F32, a: &AbsInfo) -> (r: i32)
    ensures
        r == raw_count(f, *a),
{
    let span = F32::from_i64(a.maximum as i64 - a.minimum as i64);
    let v: i64 = a.minimum as i64 + f.times(span).to_i32() as i64;
    if v < -0x8000_0000 {
        i32::MIN
    } else if v > 0x7fff_ffff {
        i32::MAX
    } else {
        v as i32
    }
}

impl Transform {
    pub fn new(x: AbsInfo, y: AbsInfo) -> (r: Self)
        ensures
            r == (Transform { x, y }),
    {
        Transform { x, y }
    }

    /// Where a raw sample is on the screen.
    pub open spec fn on_screen(self, raw_x: int, raw_y: int) -> (F32, F32) {
        (fraction(raw_y, self.y), num(ONE).minus(fraction(raw_x, self.x)))
    }

    /// Map a raw digitizer sample to normalized screen coordinates, `y` down.
    pub fn to_norm(&self, raw_x: i32, raw_y: i32) -> (r: (F32, F32))
        ensures
            r == self.on_screen(raw_x as int, raw_y as int),
    {
        let fx = frac(raw_x, &self.x);
        let fy = frac(raw_y, &self.y);
        (fy, num(ONE).minus(fx))
    }

    /// Normalize a pressure against its axis' range.
    pub fn norm_pressure(&self, raw: i32, p: &AbsInfo) -> (r: F32)
        ensures
            r == fraction(raw as int, *p),
    {
        frac(raw, p)
    }

    /// The raw counts of a place on the screen.
    pub open spec fn on_digitizer(self, sx: F32, sy: F32) -> (int, int) {
        (
            raw_count(num(ONE).minus(sy).clamp(num(ZERO), num(ONE)), self.x),
            raw_count(sx.clamp(num(ZERO), num(ONE)), self.y),
        )
    }

    /// Map normalized screen coordinates to raw digitizer counts: the way back of
    /// [`Transform::to_norm`].
    pub fn to_raw(&self, sx: F32, sy: F32) -> (r: (i32, i32))
        ensures
            (r.0 as int, r.1 as int) == self.on_digitizer(sx, sy),
    {
        let fx = num(ONE).minus(sy).clamp(num(ZERO), num(ONE));
        let fy = sx.clamp(num(ZERO), num(ONE));
        (to_count(fx, &self.x), to_count(fy, &self.y))
    }
}

// ---------------------------------------------------------------------------------------------
// Laws
// ---------------------------------------------------------------------------------------------
/// Is the number between 0 and 1?
pub open spec fn in_unit_range(f: F32) -> bool {
    num(ZERO).le(f) && f.le(num(ONE))
}

/// A raw value on any axis is at a fraction between 0 and 1.
pub proof fn law_fractions_stay_in_range(v: int, a: AbsInfo)
    requires
        i32::MIN <= v <= i32::MAX,
    ensures
        in_unit_range(fraction(v, a)),
{
    reveal(F32::le_spec);
    crate::float::monotone::lemma_whole_finite(v - a.minimum);
    crate::float::monotone::lemma_whole_finite(a.maximum - a.minimum);
    if !span_of(a).le(num(ZERO)) {
        crate::float::monotone::lemma_quotient_is_number(
            crate::float::convert::of_int(v - a.minimum),
            span_of(a),
        );
        crate::float::order::lemma_clamp(portion(v, a), num(ZERO), num(ONE));
    }
}

/// A raw value on any symmetric axis is at a fraction between -1 and 1.
pub proof fn law_signed_fractions_stay_in_range(v: int, a: AbsInfo)
    requires
        i32::MIN <= v <= i32::MAX,
    ensures
        num(MINUS_ONE).le(signed_fraction(v, a)),
        signed_fraction(v, a).le(num(ONE)),
{
    reveal(F32::le_spec);
    crate::float::monotone::lemma_whole_finite(v - a.minimum);
    crate::float::monotone::lemma_whole_finite(a.maximum - a.minimum);
    if !span_of(a).le(num(ZERO)) {
        crate::float::monotone::lemma_quotient_is_number(
            crate::float::convert::of_int(v - a.minimum),
            span_of(a),
        );
        crate::float::monotone::lemma_product_is_number(num(TWO), portion(v, a));
        crate::float::monotone::lemma_opposite(num(ONE));
        let twice = num(TWO).times(portion(v, a));
        crate::float::monotone::lemma_sum_is_number(twice, num(ONE).neg());
        crate::float::order::lemma_clamp(twice.minus(num(ONE)), num(MINUS_ONE), num(ONE));
    }
}

/// Every raw sample lands in the unit square, whatever the ranges that the device reports.
pub proof fn law_samples_land_in_the_unit_square(t: Transform, raw_x: int, raw_y: int)
    requires
        i32::MIN <= raw_x <= i32::MAX,
        i32::MIN <= raw_y <= i32::MAX,
    ensures
        in_unit_range(t.on_screen(raw_x, raw_y).0),
        in_unit_range(t.on_screen(raw_x, raw_y).1),
{
    law_fractions_stay_in_range(raw_x, t.x);
    law_fractions_stay_in_range(raw_y, t.y);
    crate::float::monotone::lemma_complement(fraction(raw_x, t.x));
}

/// Does the axis have a range, of at most 2 to the power of 22 counts?
pub open spec fn fine(a: AbsInfo) -> bool {
    0 < a.maximum - a.minimum <= 0x40_0000
}

/// The whole part of a number near a whole number.
proof fn lemma_whole_part_near(g: F32, k: int)
    requires
        g.finite(),
        !g.negative(),
        0 <= k <= 0x40_0000,
        -crate::float::arith::one_units() <= 2 * (g.units() - k * crate::float::arith::one_units())
            <= crate::float::arith::one_units(),
    ensures
        0 <= g.to_i32() <= k <= g.to_i32() + 1,
{
    reveal(crate::float::convert::truncated);
    let one = crate::float::arith::one_units() as int;
    vstd::arithmetic::power2::lemma_pow2_pos(149);
    vstd::arithmetic::power2::lemma2_to64();
    let v = g.size() as int;
    crate::float::bound::lemma_size_ordered(0, g.magnitude());
    assert(crate::float::mag(0) == 0);
    let w = v / one;
    vstd::arithmetic::div_mod::lemma_fundamental_div_mod(v, one);
    vstd::arithmetic::div_mod::lemma_mod_bound(v, one);
    assert(w <= k <= w + 1) by (nonlinear_arith)
        requires
            v == one * w + v % one,
            0 <= v % one < one,
            -one <= 2 * (v - k * one) <= one,
            one > 0,
    ;
    assert(w >= 0) by (nonlinear_arith)
        requires
            v == one * w + v % one,
            0 <= v % one < one,
            v >= 0,
            one > 0,
    ;
}

/// The count at a fraction near that of count `v`. `f` misses the fraction by at most the distance
/// between the numbers next to 1.
proof fn lemma_count_near(v: int, a: AbsInfo, f: F32)
    requires
        fine(a),
        a.minimum <= v <= a.maximum,
        !f.negative(),
        f.magnitude() <= ONE,
        -vstd::arithmetic::power2::pow2(125) <= f.units() - portion(v, a).units()
            <= vstd::arithmetic::power2::pow2(125),
    ensures
        v - 1 <= raw_count(f, a) <= v,
{
    let m = a.maximum - a.minimum;
    let k = v - a.minimum;
    let one = crate::float::arith::one_units() as int;
    let q = portion(v, a);
    crate::float::error::lemma_ratio(k, m);
    crate::float::error::lemma_part_of(f, m);
    let g = f.times(span_of(a));
    let p = vstd::arithmetic::power2::pow2(125) as int;
    vstd::arithmetic::power2::lemma_pow2_pos(125);
    vstd::arithmetic::power2::lemma_pow2_adds(22, 125);
    vstd::arithmetic::power2::lemma_pow2_adds(2, 147);
    vstd::arithmetic::power2::lemma2_to64();
    let (x, y) = (f.units(), q.units());
    assert(-(2 * (m * p)) <= 2 * (x * m - y * m) <= 2 * (m * p)) by (nonlinear_arith)
        requires
            -p <= x - y <= p,
            m > 0,
    ;
    assert(m * p <= 0x40_0000 * p) by (nonlinear_arith)
        requires
            m <= 0x40_0000,
            p > 0,
    ;
    lemma_whole_part_near(g, k);
}

/// A fraction of a range.
proof fn lemma_fraction(v: int, a: AbsInfo)
    requires
        fine(a),
        a.minimum <= v <= a.maximum,
    ensures
        fraction(v, a) == portion(v, a),
        !portion(v, a).negative(),
        portion(v, a).magnitude() <= ONE,
{
    let m = a.maximum - a.minimum;
    crate::float::error::lemma_ratio(v - a.minimum, m);
    crate::float::error::lemma_whole_is_exact(m);
    reveal(F32::le_spec);
    crate::float::order::lemma_clamp(portion(v, a), num(ZERO), num(ONE));
}

/// A number between 0 and 1 is not clamped.
proof fn lemma_unclamped(f: F32)
    requires
        !f.negative(),
        f.magnitude() <= ONE,
    ensures
        f.clamp(num(ZERO), num(ONE)) == f,
{
    reveal(F32::le_spec);
    crate::float::order::lemma_clamp(f, num(ZERO), num(ONE));
}

/// Where a sample is on the screen leads back to the sample, or to the count next to it, on axes
/// of at most 2 to the power of 22 counts.
pub proof fn law_samples_come_back(t: Transform, raw_x: int, raw_y: int)
    requires
        fine(t.x),
        fine(t.y),
        t.x.minimum <= raw_x <= t.x.maximum,
        t.y.minimum <= raw_y <= t.y.maximum,
    ensures
        ({
            let s = t.on_screen(raw_x, raw_y);
            let back = t.on_digitizer(s.0, s.1);
            &&& raw_x - 1 <= back.0 <= raw_x
            &&& raw_y - 1 <= back.1 <= raw_y
        }),
{
    let (fx, fy) = (portion(raw_x, t.x), portion(raw_y, t.y));
    lemma_fraction(raw_x, t.x);
    lemma_fraction(raw_y, t.y);
    lemma_unclamped(fy);
    vstd::arithmetic::power2::lemma_pow2_pos(125);
    lemma_count_near(raw_y, t.y, fy);
    let sy = num(ONE).minus(fx);
    crate::float::error::lemma_one_minus(fx);
    crate::float::error::lemma_one_minus(sy);
    let back = num(ONE).minus(sy);
    lemma_unclamped(back);
    lemma_count_near(raw_x, t.x, back);
}

/// Are two places on the screen at most two counts of the axis apart?
pub open spec fn two_counts_apart(p: F32, q: F32, a: AbsInfo) -> bool {
    let two = 2 * crate::float::arith::one_units();
    -two <= (p.units() - q.units()) * (a.maximum - a.minimum) <= two
}

/// The fraction of the count at a fraction. They are five quarters of a count apart, or less.
proof fn lemma_fraction_near(f: F32, a: AbsInfo)
    requires
        fine(a),
        in_unit_range(f),
    ensures
        ({
            let q = fraction(raw_count(f, a), a);
            let one = crate::float::arith::one_units();
            &&& !q.negative()
            &&& q.magnitude() <= ONE
            &&& -(5 * one) <= 4 * ((q.units() - f.units()) * (a.maximum - a.minimum)) <= 5 * one
        }),
{
    reveal(F32::le_spec);
    reveal(crate::float::convert::truncated);
    let m = a.maximum - a.minimum;
    let one = crate::float::arith::one_units() as int;
    let g = f.times(span_of(a));
    let n = g.to_i32() as int;
    let p = vstd::arithmetic::power2::pow2(125) as int;
    vstd::arithmetic::power2::lemma_pow2_pos(149);
    vstd::arithmetic::power2::lemma_pow2_pos(125);
    vstd::arithmetic::power2::lemma_pow2_adds(22, 125);
    vstd::arithmetic::power2::lemma_pow2_adds(2, 147);
    vstd::arithmetic::power2::lemma2_to64();
    assert(crate::float::mag(0) == 0);
    crate::float::error::lemma_whole_is_exact(m);
    crate::float::bound::lemma_product_shrinks(f, span_of(a));
    if !f.negative() {
        crate::float::error::lemma_part_of(f, m);
    }
    let v = g.size() as int;
    let x = f.units();
    assert(0 <= v <= m * one && -(2 * one) <= 8 * (v - x * m) <= 2 * one) by {
        if f.negative() {
            assert(x * m == 0) by (nonlinear_arith)
                requires
                    x == 0,
            ;
            assert(m * one >= 0) by (nonlinear_arith)
                requires
                    m > 0,
                    one > 0,
            ;
        }
    }
    let w = v / one;
    vstd::arithmetic::div_mod::lemma_fundamental_div_mod(v, one);
    vstd::arithmetic::div_mod::lemma_mod_bound(v, one);
    assert(0 <= w <= m) by (nonlinear_arith)
        requires
            v == one * w + v % one,
            0 <= v % one < one,
            0 <= v <= m * one,
            one > 0,
    ;
    assert(n == w) by {
        if f.negative() {
            assert(w == 0) by (nonlinear_arith)
                requires
                    v == one * w + v % one,
                    0 <= v % one < one,
                    v == 0,
                    one > 0,
            ;
        }
    }
    lemma_fraction(a.minimum + n, a);
    crate::float::error::lemma_ratio(n, m);
    let y = portion(a.minimum + n, a).units();
    assert(m * p <= 0x40_0000 * p) by (nonlinear_arith)
        requires
            m <= 0x40_0000,
            p > 0,
    ;
    assert(one * w == n * one) by (nonlinear_arith)
        requires
            n == w,
    ;
    assert((y - x) * m == y * m - x * m) by (nonlinear_arith);
}

/// The counts of a place on the screen lead back to the place, or no more than two counts away, on
/// axes of at most 2 to the power of 22 counts.
pub proof fn law_places_come_back(t: Transform, sx: F32, sy: F32)
    requires
        fine(t.x),
        fine(t.y),
        in_unit_range(sx),
        in_unit_range(sy),
    ensures
        ({
            let raw = t.on_digitizer(sx, sy);
            let back = t.on_screen(raw.0, raw.1);
            &&& two_counts_apart(back.0, sx, t.y)
            &&& two_counts_apart(back.1, sy, t.x)
        }),
{
    reveal(F32::le_spec);
    crate::float::order::lemma_clamp(sx, num(ZERO), num(ONE));
    lemma_fraction_near(sx, t.y);
    crate::float::error::lemma_one_minus(sy);
    let f = num(ONE).minus(sy);
    lemma_unclamped(f);
    lemma_fraction_near(f, t.x);
    let q = fraction(raw_count(f, t.x), t.x);
    crate::float::error::lemma_one_minus(q);
    let one = crate::float::arith::one_units() as int;
    let m = t.x.maximum - t.x.minimum;
    let p = vstd::arithmetic::power2::pow2(125) as int;
    vstd::arithmetic::power2::lemma_pow2_pos(125);
    vstd::arithmetic::power2::lemma_pow2_adds(22, 125);
    vstd::arithmetic::power2::lemma_pow2_adds(2, 147);
    vstd::arithmetic::power2::lemma2_to64();
    assert(m * p <= 0x40_0000 * p) by (nonlinear_arith)
        requires
            m <= 0x40_0000,
            p > 0,
    ;
    let (x, y, z, u) = (f.units(), q.units(), num(ONE).minus(q).units(), sy.units());
    // the two flips together miss by at most the distance between the numbers next to 1
    assert(-p <= (z - u) - (x - y) <= p);
    assert(-(m * p) <= (z - u) * m - (x - y) * m <= m * p) by (nonlinear_arith)
        requires
            -p <= (z - u) - (x - y) <= p,
            m > 0,
    ;
    assert((x - y) * m == -((y - x) * m)) by (nonlinear_arith);
}

proof fn lemma_fraction_rises(v: int, u: int, a: AbsInfo)
    requires
        i32::MIN <= v <= u <= i32::MAX,
    ensures
        fraction(v, a).le(fraction(u, a)),
{
    let s = span_of(a);
    crate::float::monotone::lemma_whole_finite(v - a.minimum);
    crate::float::monotone::lemma_whole_finite(u - a.minimum);
    crate::float::monotone::lemma_whole_finite(a.maximum - a.minimum);
    if s.le(num(ZERO)) {
        reveal(F32::le_spec);
    } else {
        let (p, q) = (
            crate::float::convert::of_int(v - a.minimum),
            crate::float::convert::of_int(u - a.minimum),
        );
        assert(!s.negative() && s.magnitude() != 0) by {
            reveal(F32::le_spec);
        }
        crate::float::monotone::lemma_wholes_keep_order(v - a.minimum, u - a.minimum);
        crate::float::monotone::lemma_quotient_keeps_order(p, q, s);
        reveal(F32::le_spec);
        reveal(F32::lt_spec);
        reveal(F32::clamp_spec);
    }
}

/// The digitizer is mounted sideways: as its first axis rises the pen goes up the screen, and as its second
/// rises the pen goes to the right. The ends of the ranges are the edges of the screen.
pub proof fn law_the_digitizer_lies_sideways(t: Transform, x: int, y: int, u: int, v: int)
    requires
        i32::MIN <= x <= u <= i32::MAX,
        i32::MIN <= y <= v <= i32::MAX,
    ensures
        t.on_screen(x, y).0.le(t.on_screen(u, v).0),
        t.on_screen(u, v).1.le(t.on_screen(x, y).1),
        t.on_screen(x, y).0 == t.on_screen(u, y).0,
        t.on_screen(x, y).1 == t.on_screen(x, v).1,
        t.y.minimum < t.y.maximum && y == t.y.minimum ==> t.on_screen(x, y).0 == num(0),
        t.y.minimum < t.y.maximum && v == t.y.maximum ==> t.on_screen(x, v).0 == num(0x3f80_0000),
        t.x.minimum < t.x.maximum && x == t.x.minimum ==> t.on_screen(x, y).1 == num(0x3f80_0000),
{
    lemma_fraction_rises(x, u, t.x);
    lemma_fraction_rises(y, v, t.y);
    law_fractions_stay_in_range(x, t.x);
    law_fractions_stay_in_range(u, t.x);
    let (p, q) = (fraction(x, t.x), fraction(u, t.x));
    let one = num(0x3f80_0000);
    assert(p.finite() && q.finite()) by {
        reveal(F32::le_spec);
    }
    crate::float::monotone::lemma_opposite(p);
    crate::float::monotone::lemma_opposite(q);
    crate::float::monotone::lemma_units_ordered(p, q);
    crate::float::monotone::lemma_sum_monotone(one, q.neg(), one, p.neg());
    if t.y.minimum < t.y.maximum {
        lemma_ends(t.y);
    }
    if t.x.minimum < t.x.maximum {
        lemma_ends(t.x);
        assert(one.minus(num(0)) == one) by {
            reveal(F32::plus_spec);
            crate::float::monotone::lemma_opposite(num(0));
            assert(crate::float::mag(0) == 0);
            crate::float::lemma_mag_ordered(0, 0x3f80_0000);
            crate::float::lemma_nearest_exact(0x3f80_0000);
        }
    }
}

/// The ends of a range are at 0 and at 1.
proof fn lemma_ends(a: AbsInfo)
    requires
        a.minimum < a.maximum,
    ensures
        fraction(a.minimum as int, a) == num(0),
        fraction(a.maximum as int, a) == num(0x3f80_0000),
{
    let s = span_of(a);
    let w = a.maximum - a.minimum;
    let one = crate::float::arith::one_units();
    vstd::arithmetic::power2::lemma_pow2_pos(149);
    vstd::arithmetic::power2::lemma2_to64();
    crate::float::monotone::lemma_whole_ordered(w, w);
    crate::float::monotone::lemma_wholes_keep_order(0, w);
    crate::float::lemma_mag_ordered(0, s.magnitude());
    reveal(F32::le_spec);
    reveal(F32::lt_spec);
    reveal(F32::clamp_spec);
    assert(crate::float::mag(0) == 0);
    assert(num(0).over(s) == num(0)) by {
        reveal(F32::over_spec);
        assert(0 * one == 0);
        crate::float::lemma_nearest_zero(s.size());
    }
    assert(s.over(s) == num(0x3f80_0000)) by {
        reveal(F32::over_spec);
        crate::float::monotone::lemma_power(0x3f80_0000, 0);
        crate::float::monotone::lemma_nearest_multiple(0x3f80_0000, s.size());
        assert(s.size() * one == one * s.size()) by (nonlinear_arith);
    }
}

} // verus!
