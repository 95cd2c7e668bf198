//! Doubling: binary numbers are doubled without rounding, and the operations go along with it.
use super::{num, F32, HIDDEN, INF_BITS};
use vstd::arithmetic::power2::*;
use vstd::prelude::*;

verus! {

/// Twice a number.
pub open spec fn twice(a: F32) -> F32 {
    a.times(num(0x4000_0000))
}

/// The magnitude bits of twice a number.
pub open spec fn doubled(b: int) -> int {
    if b < HIDDEN {
        2 * b
    } else {
        b + HIDDEN
    }
}

/// Is twice the number still finite?
pub open spec fn doubles(a: F32) -> bool {
    a.finite() && doubled(a.magnitude()) < INF_BITS
}

proof fn lemma_mag_doubled(b: int)
    requires
        b >= 0,
    ensures
        super::mag(doubled(b)) == 2 * super::mag(b),
        super::mag(b) >= 0,
{
    let h = HIDDEN as int;
    super::lemma_mag_step(b);
    lemma2_to64();
    if b < h {
        lemma_mag_small(2 * b);
        lemma_mag_small(b);
    } else {
        let (e, q) = super::lemma_mag_split(b);
        assert(q >= h) by {
            if e == 0 {
                assert(0 * h == 0);
            }
        }
        super::lemma_mag_parts(e + 1, q);
        assert((e + 1) * h + q == b + h) by (nonlinear_arith)
            requires
                b == e * h + q,
        ;
        lemma_pow2_adds(e as nat, 1);
        assert(q * (2 * pow2(e as nat)) == 2 * (q * pow2(e as nat))) by (nonlinear_arith);
    }
}

/// Magnitudes up to the first power of two above the hidden bit are whole.
proof fn lemma_mag_small(b: int)
    requires
        0 <= b <= 2 * HIDDEN,
    ensures
        super::mag(b) == b,
{
    lemma2_to64();
    super::lemma_mag_parts(0, b);
    assert(0 * (HIDDEN as int) + b == b);
    assert(b * pow2(0) == b) by (nonlinear_arith)
        requires
            pow2(0) == 1,
    ;
}

/// The nearest magnitude goes along with doubling, where nothing is lost to the smallest numbers.
proof fn lemma_nearest_doubled(n: nat, d: nat)
    requires
        d > 0,
        d == 1 || n == 0 || n >= HIDDEN * d,
        doubled(super::nearest(n, d)) < INF_BITS,
    ensures
        super::nearest(2 * n, d) == doubled(super::nearest(n, d)),
{
    let h = HIDDEN as int;
    let b = super::nearest(n, d);
    let c = doubled(b);
    super::monotone::lemma_nearest(n, d);
    if n == 0 {
        super::lemma_nearest_zero(d);
        return ;
    }
    lemma_mag_doubled(b);
    lemma_mag_doubled(b + 1);
    if b < h {
        lemma_mag_small(b);
        lemma_mag_small(b + 1);
        if b > 0 {
            lemma_mag_small(b - 1);
        }
        if d == 1 {
            assert((b + (b + 1)) * 1 == 2 * b + 1);
            assert(b > 0 ==> ((b - 1) + b) * 1 == 2 * b - 1);
            assert(n == b);
            super::lemma_nearest_exact(c);
        } else {
            assert((b + (b + 1)) * d <= (2 * h - 1) * d) by (nonlinear_arith)
                requires
                    b < h,
                    d > 0,
            ;
            assert((2 * h - 1) * d < 2 * (h * d)) by (nonlinear_arith)
                requires
                    d > 0,
            ;
            assert(false);
        }
    } else {
        let low = super::mag(b - 1) + super::mag(b);
        let high = super::mag(b) + super::mag(b + 1);
        assert(super::mag(c + 1) == 2 * super::mag(b + 1));
        assert((2 * high) * d == 2 * (high * d)) by (nonlinear_arith);
        if b > h {
            lemma_mag_doubled(b - 1);
            assert(super::mag(c - 1) == 2 * super::mag(b - 1));
            assert((2 * low) * d == 2 * (low * d)) by (nonlinear_arith);
        } else {
            lemma_mag_small(2 * h - 1);
            lemma_mag_small(2 * h);
            lemma_mag_small(h - 1);
            lemma_mag_small(h);
            assert((2 * h - 1 + 2 * h) * d < 4 * (h * d)) by (nonlinear_arith)
                requires
                    d > 0,
            ;
            if d == 1 {
                assert((h - 1 + h) * 1 == 2 * h - 1);
                assert(n >= h);
                assert(h * 1 == h);
            }
        }
        assert(super::is_nearest(2 * n, d, c));
        super::lemma_nearest_range(2 * n, d, c);
    }
}

/// A common factor of two does not matter to a quotient.
proof fn lemma_nearest_common(n: nat, d: nat)
    requires
        d > 0,
    ensures
        super::nearest(2 * n, 2 * d) == super::nearest(n, d),
{
    let b = super::nearest(n, d);
    super::monotone::lemma_nearest(n, d);
    let low = super::mag(b - 1) + super::mag(b);
    let high = super::mag(b) + super::mag(b + 1);
    assert(low * (2 * d) == 2 * (low * d)) by (nonlinear_arith);
    assert(high * (2 * d) == 2 * (high * d)) by (nonlinear_arith);
    super::lemma_nearest_range(2 * n, 2 * d, b);
}

/// Twice a number has twice the units, and the same sign.
pub proof fn lemma_twice(a: F32)
    requires
        doubles(a),
    ensures
        twice(a) == super::signed(a.negative(), doubled(a.magnitude())),
        twice(a).finite(),
        twice(a).negative() == a.negative(),
        twice(a).magnitude() == doubled(a.magnitude()),
        twice(a).units() == 2 * a.units(),
        twice(a).size() == 2 * a.size(),
{
    reveal(F32::times_spec);
    let one = super::arith::one_units();
    let b = doubled(a.magnitude());
    lemma_mag_doubled(a.magnitude());
    super::monotone::lemma_power(0x4000_0000, 1);
    lemma2_to64();
    lemma_pow2_pos(149);
    super::monotone::lemma_nearest_multiple(b, one);
    assert(a.size() * (2 * one) == (2 * a.size()) * one) by (nonlinear_arith);
}

/// Twice a finite number that is too large to be doubled is infinite.
pub proof fn lemma_too_large(a: F32)
    requires
        a.finite(),
        !doubles(a),
    ensures
        !twice(a).finite(),
{
    reveal(F32::times_spec);
    let one = super::arith::one_units();
    let b = doubled(a.magnitude());
    lemma_mag_doubled(a.magnitude());
    super::monotone::lemma_power(0x4000_0000, 1);
    lemma2_to64();
    lemma_pow2_pos(149);
    let n = a.size() * (2 * one);
    super::monotone::lemma_nearest(n, one);
    let r = super::nearest(n, one);
    if r < INF_BITS {
        // the value lies at or beyond the next power of two
        super::lemma_bounds_ordered(r, b);
        assert(n == super::mag(b) * one) by (nonlinear_arith)
            requires
                n == a.size() * (2 * one),
                super::mag(b) == 2 * a.size(),
        ;
        super::lemma_mag_step(b - 1);
        let high = super::mag(r) + super::mag(r + 1);
        assert(high * one < 2 * (super::mag(b) * one)) by (nonlinear_arith)
            requires
                high <= super::mag(b - 1) + super::mag(b),
                super::mag(b - 1) < super::mag(b),
                one > 0,
        ;
    }
}

/// Half of twice a number is the number.
pub proof fn lemma_half_of_twice(a: F32)
    requires
        doubles(a),
    ensures
        twice(a).times(num(0x3f00_0000)) == a,
{
    reveal(F32::times_spec);
    let one = super::arith::one_units();
    lemma_twice(a);
    lemma_pow2_pos(149);
    super::monotone::lemma_nearest_multiple(a.magnitude(), one);
    // one half is 2^148 units
    let h = HIDDEN as int;
    vstd::arithmetic::div_mod::lemma_fundamental_div_mod_converse(0x3f00_0000, h, 126, 0);
    lemma2_to64();
    lemma_pow2_adds(23, 125);
    lemma_pow2_adds(148, 1);
    assert(num(0x3f00_0000).size() == pow2(148));
    assert((2 * a.size()) * pow2(148) == a.size() * one) by (nonlinear_arith)
        requires
            one == 2 * pow2(148),
    ;
    super::lemma_mag_step(a.magnitude());
}

/// Doubling goes through a sum.
pub proof fn lemma_twice_plus(a: F32, b: F32)
    requires
        doubles(a),
        doubles(b),
        doubles(a.plus(b)),
    ensures
        twice(a).plus(twice(b)) == twice(a.plus(b)),
{
    reveal(F32::plus_spec);
    lemma_twice(a);
    lemma_twice(b);
    lemma_twice(a.plus(b));
    let s = a.units() + b.units();
    if s > 0 {
        super::monotone::lemma_nearest(s as nat, 1);
        lemma_nearest_doubled(s as nat, 1);
    } else if s < 0 {
        super::monotone::lemma_nearest((-s) as nat, 1);
        lemma_nearest_doubled((-s) as nat, 1);
    }
}

/// Where the sum of two doubles is finite, the sum can be doubled.
pub proof fn lemma_sum_doubles(a: F32, b: F32)
    requires
        doubles(a),
        doubles(b),
        twice(a).plus(twice(b)).finite(),
    ensures
        doubles(a.plus(b)),
{
    reveal(F32::plus_spec);
    lemma_twice(a);
    lemma_twice(b);
    let s = a.units() + b.units();
    let n: nat = if s < 0 {
        (-s) as nat
    } else {
        s as nat
    };
    let c = super::nearest(n, 1);
    let r = super::nearest(2 * n, 1);
    super::monotone::lemma_nearest(n, 1);
    super::monotone::lemma_nearest(2 * n, 1);
    if s != 0 && doubled(c) >= INF_BITS {
        // from halfway below the power of two on, the double is halfway below the end of the range
        let top = INF_BITS - HIDDEN;
        super::lemma_bounds_ordered(r, INF_BITS as int);
        super::lemma_bounds_ordered(top - 1, c);
        lemma_mag_doubled(top - 1);
        lemma_mag_doubled(top);
        assert(r < INF_BITS);
        assert(4 * n >= super::mag(INF_BITS - 1) + super::mag(INF_BITS as int));
        assert(false);
    }
}

/// Doubling goes through a change of sign.
pub proof fn lemma_twice_neg(a: F32)
    requires
        doubles(a),
    ensures
        doubles(a.neg()),
        twice(a.neg()) == twice(a).neg(),
{
    reveal(F32::neg_spec);
    lemma_twice(a);
    lemma_twice(a.neg());
}

/// Doubling goes through a difference.
pub proof fn lemma_twice_minus(a: F32, b: F32)
    requires
        doubles(a),
        doubles(b),
        doubles(a.minus(b)),
    ensures
        twice(a).minus(twice(b)) == twice(a.minus(b)),
{
    lemma_twice_neg(b);
    lemma_twice_plus(a, b.neg());
}

/// Doubling keeps the order, and so goes through the smaller and the larger of two numbers.
pub proof fn lemma_twice_order(a: F32, b: F32)
    requires
        doubles(a),
        doubles(b),
    ensures
        twice(a).lt(twice(b)) == a.lt(b),
        twice(a).min(twice(b)) == twice(a.min(b)),
        twice(a).max(twice(b)) == twice(a.max(b)),
{
    reveal(F32::lt_spec);
    reveal(F32::min_spec);
    reveal(F32::max_spec);
    lemma_twice(a);
    lemma_twice(b);
}

/// A quotient does not change when both numbers are doubled.
pub proof fn lemma_twice_over(a: F32, b: F32)
    requires
        doubles(a),
        doubles(b),
    ensures
        twice(a).over(twice(b)) == a.over(b),
{
    reveal(F32::over_spec);
    lemma_twice(a);
    lemma_twice(b);
    let one = super::arith::one_units();
    if b.magnitude() != 0 {
        super::lemma_mag_ordered(0, b.magnitude());
        lemma_nearest_common(a.size() * one, b.size());
        assert((2 * a.size()) * one == 2 * (a.size() * one)) by (nonlinear_arith);
    }
}

/// A product does not change when one factor is doubled and the other halved.
pub proof fn lemma_shifted_product(a: F32, b: F32)
    requires
        doubles(a),
        doubles(b),
    ensures
        twice(a).times(b) == a.times(twice(b)),
{
    reveal(F32::times_spec);
    lemma_twice(a);
    lemma_twice(b);
    assert((2 * a.size()) * b.size() == a.size() * (2 * b.size())) by (nonlinear_arith);
}

/// Is the number at least 2 to the power of -125, and can it be doubled? Its sign does not matter.
pub open spec fn ordinary(a: F32) -> bool {
    2 * HIDDEN <= a.magnitude() && doubles(a)
}

/// What is rounded to an ordinary number is no smaller than the ordinary ones.
proof fn lemma_ordinary(n: nat, d: nat)
    requires
        d > 0,
        super::nearest(n, d) >= 2 * HIDDEN,
    ensures
        n >= HIDDEN * d,
{
    let b = super::nearest(n, d);
    let h = HIDDEN as int;
    super::monotone::lemma_nearest(n, d);
    lemma_mag_small(2 * h - 1);
    super::lemma_mag_step(2 * h - 1);
    if b > 2 * h {
        super::lemma_mag_ordered(2 * h - 1, b - 1);
        super::lemma_mag_ordered(2 * h - 1, b);
    }
    let low = super::mag(b - 1) + super::mag(b);
    assert(low >= 2 * h);
    assert(low * d >= 2 * h * d) by (nonlinear_arith)
        requires
            low >= 2 * h,
            d > 0,
    ;
    assert(2 * h * d == 2 * (h * d)) by (nonlinear_arith);
}

/// Twice a factor gives twice the product, where nothing is lost to the smallest numbers.
pub proof fn lemma_times_twice(a: F32, b: F32)
    requires
        a.finite(),
        doubles(b),
        ordinary(a.times(b)),
    ensures
        a.times(twice(b)) == twice(a.times(b)),
        twice(b).times(a) == twice(a.times(b)),
{
    reveal(F32::times_spec);
    let one = super::arith::one_units();
    lemma_pow2_pos(149);
    let n = a.size() * b.size();
    lemma_twice(b);
    lemma_twice(a.times(b));
    super::monotone::lemma_nearest(n, one);
    lemma_ordinary(n, one);
    lemma_nearest_doubled(n, one);
    assert(a.size() * (2 * b.size()) == 2 * n) by (nonlinear_arith)
        requires
            n == a.size() * b.size(),
    ;
    assert((2 * b.size()) * a.size() == 2 * n) by (nonlinear_arith)
        requires
            n == a.size() * b.size(),
    ;
}

/// Half the inverse is the inverse of twice as much, where nothing is lost to the smallest numbers.
pub proof fn lemma_inverse_twice(b: F32)
    requires
        doubles(b),
        b.magnitude() != 0,
        ordinary(num(0x3f80_0000).over(twice(b))),
    ensures
        twice(num(0x3f80_0000).over(twice(b))) == num(0x3f80_0000).over(b),
{
    let a = num(0x3f80_0000);
    let one = super::arith::one_units();
    lemma_twice(b);
    super::lemma_mag_ordered(0, b.magnitude());
    super::lemma_mag_ordered(0, twice(b).magnitude());
    let n = a.size() * one;
    let d = 2 * b.size();
    assert(num(0x3f80_0000).over(twice(b)).magnitude() == super::nearest(n, d)) by {
        reveal(F32::over_spec);
        super::monotone::lemma_nearest(n, d);
    }
    lemma_ordinary(n, d);
    lemma_over_twice(a, b);
}

/// Dividing by twice as much gives half as much, where nothing is lost to the smallest numbers.
pub proof fn lemma_over_twice(a: F32, b: F32)
    requires
        a.finite(),
        doubles(b),
        b.magnitude() != 0,
        a.size() * super::arith::one_units() >= HIDDEN * (2 * b.size()),
        doubles(a.over(twice(b))),
    ensures
        twice(a.over(twice(b))) == a.over(b),
{
    reveal(F32::over_spec);
    let one = super::arith::one_units();
    lemma_twice(b);
    lemma_twice(a.over(twice(b)));
    super::lemma_mag_ordered(0, b.magnitude());
    let n = a.size() * one;
    super::monotone::lemma_nearest(n, 2 * b.size());
    lemma_nearest_doubled(n, 2 * b.size());
    lemma_nearest_common(n, b.size());
    super::monotone::lemma_nearest(n, b.size());
}

/// The square of twice a number is four times its square, where nothing is lost to the smallest
/// numbers.
pub proof fn lemma_twice_square(a: F32)
    requires
        doubles(a),
        a.magnitude() == 0 || a.size() * a.size() >= HIDDEN * super::arith::one_units(),
        doubles(a.times(a)),
        doubles(twice(a.times(a))),
    ensures
        twice(a).times(twice(a)) == twice(twice(a.times(a))),
{
    reveal(F32::times_spec);
    let one = super::arith::one_units();
    let n = a.size() * a.size();
    lemma_twice(a);
    lemma_twice(a.times(a));
    lemma_twice(twice(a.times(a)));
    lemma_pow2_pos(149);
    assert((2 * a.size()) * (2 * a.size()) == 2 * (2 * n)) by (nonlinear_arith)
        requires
            n == a.size() * a.size(),
    ;
    if a.magnitude() == 0 {
        assert(super::mag(0) == 0);
        assert(n == 0) by (nonlinear_arith)
            requires
                n == a.size() * a.size(),
                a.size() == 0,
        ;
    }
    super::monotone::lemma_nearest(n, one);
    lemma_nearest_doubled(n, one);
    super::monotone::lemma_nearest(2 * n, one);
    lemma_nearest_doubled(2 * n, one);
}

// ---------------------------------------------------------------------------------------------
// Roots
// ---------------------------------------------------------------------------------------------
/// Does the root of `n` lie far enough up to be nearest to `b`, or above?
spec fn root_reaches(n: nat, b: int) -> bool {
    b > 0 ==> {
        let low = super::mag(b - 1) + super::mag(b);
        low * low < 4 * n || low * low == 4 * n && b % 2 == 0
    }
}

proof fn lemma_root_from(n: nat, b: int) -> (r: int)
    requires
        0 <= b <= INF_BITS,
        root_reaches(n, b),
    ensures
        super::is_nearest_root(n, r),
    decreases INF_BITS - b,
{
    if super::is_nearest_root(n, b) {
        b
    } else {
        assert(b < INF_BITS);
        assert(root_reaches(n, b + 1));
        lemma_root_from(n, b + 1)
    }
}

/// There is a magnitude nearest to any root.
pub(super) proof fn lemma_nearest_root(n: nat)
    ensures
        super::is_nearest_root(n, super::nearest_root(n)),
{
    let b = lemma_root_from(n, 0);
}

/// The root of four times a number is twice its root.
pub proof fn lemma_twice_root(a: F32)
    requires
        doubles(a),
        doubles(twice(a)),
        !a.negative(),
        a.magnitude() == 0 || a.magnitude() >= HIDDEN,
        doubles(a.sqrt()),
    ensures
        twice(twice(a)).sqrt() == twice(a.sqrt()),
{
    reveal(F32::sqrt_spec);
    let h = HIDDEN as int;
    let one = super::arith::one_units();
    lemma_twice(a);
    lemma_twice(twice(a));
    lemma_twice(a.sqrt());
    if a.magnitude() != 0 {
        let n = a.size() * one;
        let b = super::nearest_root(n);
        lemma_nearest_root(n);
        assert((4 * a.size()) * one == 4 * n) by (nonlinear_arith)
            requires
                n == a.size() * one,
        ;
        // the root is far above the smallest numbers
        lemma_mag_small(h);
        if a.magnitude() > h {
            super::lemma_mag_ordered(h, a.magnitude());
        }
        lemma2_to64();
        lemma_pow2_adds(64, 85);
        lemma_pow2_pos(85);
        assert(one >= pow2(64)) by (nonlinear_arith)
            requires
                one == pow2(64) * pow2(85),
                pow2(85) >= 1,
        ;
        assert(n >= h * pow2(64)) by (nonlinear_arith)
            requires
                n == a.size() * one,
                a.size() >= h,
                one >= pow2(64),
        ;
        if b <= h {
            lemma_mag_small(b);
            lemma_mag_small(b + 1);
            let high = b + (b + 1);
            assert(high * high <= (2 * h + 1) * (2 * h + 1)) by (nonlinear_arith)
                requires
                    0 <= high <= 2 * h + 1,
            ;
            assert(false);
        }
        lemma_mag_doubled(b - 1);
        lemma_mag_doubled(b);
        lemma_mag_doubled(b + 1);
        let low = super::mag(b - 1) + super::mag(b);
        let high = super::mag(b) + super::mag(b + 1);
        let c = doubled(b);
        assert((2 * low) * (2 * low) == 4 * (low * low)) by (nonlinear_arith);
        assert((2 * high) * (2 * high) == 4 * (high * high)) by (nonlinear_arith);
        assert(super::is_nearest_root(4 * n, c));
        super::lemma_nearest_root_unique(4 * n, c, super::nearest_root(4 * n));
    }
}

// ---------------------------------------------------------------------------------------------
// Bounds
// ---------------------------------------------------------------------------------------------
/// Is the number finite, with magnitude bits of at most `b`?
pub open spec fn within(a: F32, b: int) -> bool {
    a.magnitude() <= b < INF_BITS
}

/// The sum of two numbers is at most twice as large as their bound.
pub proof fn lemma_plus_within(a: F32, b: F32, bound: int)
    requires
        within(a, bound),
        within(b, bound),
        doubled(bound) < INF_BITS,
    ensures
        within(a.plus(b), doubled(bound)),
        within(a.neg(), bound),
{
    reveal(F32::plus_spec);
    reveal(F32::neg_spec);
    let s = a.units() + b.units();
    lemma_mag_doubled(bound);
    if a.magnitude() < bound {
        super::lemma_mag_ordered(a.magnitude(), bound);
    }
    if b.magnitude() < bound {
        super::lemma_mag_ordered(b.magnitude(), bound);
    }
    super::lemma_mag_step(a.magnitude());
    super::lemma_mag_step(b.magnitude());
    let n: nat = if s < 0 {
        (-s) as nat
    } else {
        s as nat
    };
    let top = super::mag(doubled(bound)) as nat;
    super::monotone::lemma_nearest_monotone(n, top, 1);
    super::lemma_nearest_exact(doubled(bound));
    super::monotone::lemma_nearest(n, 1);
}

/// A number within a bound can be doubled if the bound can.
pub proof fn lemma_within_doubles(a: F32, bound: int)
    requires
        within(a, bound),
        doubled(bound) < INF_BITS,
    ensures
        doubles(a),
        within(twice(a), doubled(bound)),
{
    lemma_twice(a);
}

// ---------------------------------------------------------------------------------------------
// Whole numbers of units
// ---------------------------------------------------------------------------------------------
/// The magnitude of half a number.
pub open spec fn halved(b: int) -> int {
    if b < 2 * HIDDEN {
        b / 2
    } else {
        b - HIDDEN
    }
}

/// Half of a number of an even number of units.
pub open spec fn half_of(a: F32) -> F32 {
    super::signed(a.negative(), halved(a.magnitude()))
}

/// A number of an even number of units is twice another, and that is its half.
pub proof fn lemma_half(a: F32)
    requires
        a.finite(),
        a.units() % 2 == 0,
    ensures
        doubles(half_of(a)),
        twice(half_of(a)) == a,
        a.times(num(0x3f00_0000)) == half_of(a),
        half_of(a).magnitude() <= a.magnitude(),
{
    let b = a.magnitude();
    let h = HIDDEN as int;
    super::lemma_mag_step(b);
    if b < 2 * h {
        lemma_mag_small(b);
        assert(b % 2 == 0);
    }
    assert(doubled(halved(b)) == b);
    lemma_twice(half_of(a));
    lemma_half_of_twice(half_of(a));
}

/// A number at least as large as 2 to the power of -125 has an even number of units.
pub proof fn lemma_large_is_even(a: F32)
    requires
        a.finite(),
        a.magnitude() == 0 || a.magnitude() >= 2 * HIDDEN,
    ensures
        a.units() % 2 == 0,
{
    let b = a.magnitude();
    if b >= 2 * HIDDEN {
        lemma_mag_doubled(b - HIDDEN);
    } else {
        assert(super::mag(0) == 0);
    }
}

/// The sum of two numbers of an even number of units has an even number of units.
pub proof fn lemma_even_sum(a: F32, b: F32)
    requires
        a.finite(),
        b.finite(),
        a.plus(b).finite(),
        a.units() % 2 == 0,
        b.units() % 2 == 0,
    ensures
        a.plus(b).units() % 2 == 0,
{
    reveal(F32::plus_spec);
    let s = a.units() + b.units();
    let n: nat = if s < 0 {
        (-s) as nat
    } else {
        s as nat
    };
    let c = super::nearest(n, 1);
    super::monotone::lemma_nearest(n, 1);
    assert(super::mag(0) == 0);
    if s != 0 {
        if n <= 2 * HIDDEN {
            lemma_mag_small(n as int);
            super::lemma_nearest_exact(n as int);
        } else {
            lemma_mag_small(2 * HIDDEN);
            super::monotone::lemma_nearest_monotone((2 * HIDDEN) as nat, n, 1);
            super::lemma_nearest_exact(2 * HIDDEN);
            assert(c >= 2 * HIDDEN);
        }
        if c >= 2 * HIDDEN {
            lemma_mag_doubled(c - HIDDEN);
        }
    }
}

// ---------------------------------------------------------------------------------------------
// Ranges
// ---------------------------------------------------------------------------------------------
/// A whole number from 4 to 2 to the power of 32, as a number.
pub proof fn lemma_whole_between(v: int)
    requires
        4 <= v <= 0x1_0000_0000,
    ensures
        !super::convert::of_int(v).negative(),
        0x4080_0000 <= super::convert::of_int(v).magnitude() <= 0x4f80_0000,
{
    reveal(super::convert::of_int);
    let one = super::arith::one_units();
    super::monotone::lemma_power(0x4080_0000, 2);
    super::monotone::lemma_power(0x4f80_0000, 32);
    lemma2_to64();
    lemma2_to64_rest();
    assert(4 * one <= v * one <= 0x1_0000_0000 * one) by (nonlinear_arith)
        requires
            4 <= v <= 0x1_0000_0000,
            one >= 0,
    ;
    super::lemma_nearest_exact(0x4080_0000);
    super::lemma_nearest_exact(0x4f80_0000);
    super::monotone::lemma_nearest_monotone(4 * one, v as nat * one, 1);
    super::monotone::lemma_nearest_monotone(v as nat * one, 0x1_0000_0000nat * one, 1);
}

/// A whole number from 0 to 16, as a number.
pub proof fn lemma_whole_up_to_sixteen(v: int)
    requires
        0 <= v <= 16,
    ensures
        !super::convert::of_int(v).negative(),
        super::convert::of_int(v).magnitude() <= 0x4180_0000,
{
    reveal(super::convert::of_int);
    let one = super::arith::one_units();
    super::monotone::lemma_power(0x4180_0000, 4);
    lemma2_to64();
    assert(0 <= v * one <= 16 * one) by (nonlinear_arith)
        requires
            0 <= v <= 16,
            one >= 0,
    ;
    super::lemma_nearest_exact(0x4180_0000);
    super::monotone::lemma_nearest(v as nat * one, 1);
    super::monotone::lemma_nearest_monotone(v as nat * one, 16 * one, 1);
}

/// A number from 4 to 2 to the power of 32, times one from one half to 1.
pub proof fn lemma_part_between(a: F32, b: F32)
    requires
        !a.negative(),
        !b.negative(),
        0x4080_0000 <= a.magnitude() <= 0x4f80_0000,
        0x3f00_0000 <= b.magnitude() <= 0x3f80_0000,
    ensures
        !a.times(b).negative(),
        0x4000_0000 <= a.times(b).magnitude() <= 0x4f80_0000,
{
    reveal(F32::times_spec);
    let one = super::arith::one_units();
    lemma2_to64();
    lemma2_to64_rest();
    lemma_pow2_pos(149);
    super::monotone::lemma_power(0x4080_0000, 2);
    super::monotone::lemma_power(0x4f80_0000, 32);
    super::monotone::lemma_power(0x4000_0000, 1);
    super::monotone::lemma_power(0x3f80_0000, 0);
    lemma_sizes_ordered(0x4080_0000, a.magnitude());
    lemma_sizes_ordered(a.magnitude(), 0x4f80_0000);
    lemma_sizes_ordered(0x3f00_0000, b.magnitude());
    lemma_sizes_ordered(b.magnitude(), 0x3f80_0000);
    lemma_mag_doubled(0x3f00_0000);
    let n = a.size() * b.size();
    assert((2 * one) * one <= n) by (nonlinear_arith)
        requires
            n == a.size() * b.size(),
            a.size() >= 4 * one,
            2 * b.size() >= one,
    ;
    assert(n <= (0x1_0000_0000 * one) * one) by (nonlinear_arith)
        requires
            n == a.size() * b.size(),
            a.size() <= 0x1_0000_0000 * one,
            b.size() <= one,
    ;
    super::monotone::lemma_nearest_multiple(0x4000_0000, one);
    super::monotone::lemma_nearest_multiple(0x4f80_0000, one);
    super::monotone::lemma_nearest_monotone((2 * one) * one, n, one);
    super::monotone::lemma_nearest_monotone(n, (0x1_0000_0000nat * one) * one, one);
}

proof fn lemma_sizes_ordered(a: int, b: int)
    requires
        0 <= a <= b,
    ensures
        0 <= super::mag(a) <= super::mag(b),
{
    super::lemma_mag_step(a);
    if a < b {
        super::lemma_mag_ordered(a, b);
    }
}

/// A number from 2 to 2 to the power of 32, divided by one from 2 to the power of -23 to 2 to the
/// power of 61: half as much comes out where the divisor is doubled.
pub proof fn lemma_quotient_halves(a: F32, b: F32)
    requires
        !a.negative(),
        !b.negative(),
        0x4000_0000 <= a.magnitude() <= 0x4f80_0000,
        0x3400_0000 <= b.magnitude() <= 0x5e00_0000,
    ensures
        doubles(a.over(twice(b))),
        twice(a.over(twice(b))) == a.over(b),
{
    reveal(F32::over_spec);
    let one = super::arith::one_units();
    lemma2_to64();
    lemma2_to64_rest();
    lemma_pow2_pos(149);
    lemma_twice(b);
    super::monotone::lemma_power(0x4000_0000, 1);
    super::monotone::lemma_power(0x4f80_0000, 32);
    super::monotone::lemma_power(0x5e00_0000, 61);
    super::monotone::lemma_power(0x5d80_0000, 60);
    lemma_sizes_ordered(0x4000_0000, a.magnitude());
    lemma_sizes_ordered(a.magnitude(), 0x4f80_0000);
    lemma_sizes_ordered(0x3400_0000, b.magnitude());
    lemma_sizes_ordered(b.magnitude(), 0x5e00_0000);
    // 2^-23 is 2^126 units
    let h = HIDDEN as int;
    vstd::arithmetic::div_mod::lemma_fundamental_div_mod_converse(0x3400_0000, h, 104, 0);
    lemma_pow2_adds(23, 103);
    lemma_pow2_adds(23, 126);
    let least = pow2(126);
    lemma_pow2_pos(126);
    lemma_pow2_adds(64, 62);
    lemma_pow2_pos(62);
    assert(least >= pow2(64)) by (nonlinear_arith)
        requires
            least == pow2(64) * pow2(62),
            pow2(62) >= 1,
    ;
    assert(super::mag(0x3400_0000) == least);
    let n = a.size() * one;
    let d = 2 * b.size();
    assert(n >= HIDDEN * d) by (nonlinear_arith)
        requires
            n == a.size() * one,
            d == 2 * b.size(),
            a.size() >= 2 * one,
            b.size() <= pow2(61) * one,
            2 * one >= 2 * (0x0080_0000 * pow2(61)),
            HIDDEN == 0x0080_0000,
    ;
    let top = super::mag(0x5d80_0000) as nat;
    assert(n <= top * d) by (nonlinear_arith)
        requires
            n == a.size() * one,
            d == 2 * b.size(),
            a.size() <= 0x1_0000_0000 * one,
            b.size() >= least,
            one == 0x0080_0000 * least,
            top == pow2(60) * one,
            pow2(60) == 0x1000_0000_0000_0000,
    ;
    super::monotone::lemma_nearest_multiple(0x5d80_0000, d);
    super::monotone::lemma_nearest_monotone(n, top * d, d);
    super::monotone::lemma_nearest(n, d);
    lemma_over_twice(a, b);
}

// ---------------------------------------------------------------------------------------------
// Lengths
// ---------------------------------------------------------------------------------------------
/// Is it a number that is not negative?
pub open spec fn positive(a: F32) -> bool {
    !a.nan() && !a.negative()
}

/// The sum of two numbers that are not negative is not negative, and not smaller than either.
pub proof fn lemma_positive_plus(a: F32, b: F32)
    requires
        positive(a),
        positive(b),
    ensures
        positive(a.plus(b)),
        a.magnitude() <= a.plus(b).magnitude(),
        b.magnitude() <= a.plus(b).magnitude(),
{
    reveal(F32::plus_spec);
    if a.finite() && b.finite() {
        let s = (a.units() + b.units()) as nat;
        super::lemma_mag_step(a.magnitude());
        super::lemma_mag_step(b.magnitude());
        super::lemma_nearest_exact(a.magnitude());
        super::lemma_nearest_exact(b.magnitude());
        super::monotone::lemma_nearest(s, 1);
        super::monotone::lemma_nearest_monotone(a.size(), s, 1);
        super::monotone::lemma_nearest_monotone(b.size(), s, 1);
        if s == 0 {
            assert(super::mag(0) == 0);
            if a.magnitude() > 0 {
                super::lemma_mag_ordered(0, a.magnitude());
            }
            if b.magnitude() > 0 {
                super::lemma_mag_ordered(0, b.magnitude());
            }
        }
    }
}

/// The units of a number of at least 2 to the power of -36 are a multiple of 2 to the power of 90.
proof fn lemma_coarse(b: int)
    requires
        b >= 0x2d80_0000,
    ensures
        super::mag(b) % (pow2(90) as int) == 0,
        super::mag(b) >= 0,
{
    let h = HIDDEN as int;
    let (e, q) = super::lemma_mag_split(b);
    assert(e >= 90) by (nonlinear_arith)
        requires
            b == e * h + q,
            q < 2 * h,
            b >= 0x2d80_0000,
            h == 0x0080_0000,
    ;
    lemma_pow2_adds((e - 90) as nat, 90);
    lemma_pow2_pos(90);
    let k = q * pow2((e - 90) as nat);
    assert(q * pow2(e as nat) == k * pow2(90)) by (nonlinear_arith)
        requires
            pow2(e as nat) == pow2((e - 90) as nat) * pow2(90),
            k == q * pow2((e - 90) as nat),
    ;
    vstd::arithmetic::div_mod::lemma_mod_multiples_basic(k, pow2(90) as int);
    super::lemma_mag_step(b);
}

/// The difference of two numbers that are zero or at least 2 to the power of -36 is zero or at
/// least 2 to the power of -59.
pub proof fn lemma_coarse_minus(a: F32, b: F32)
    requires
        a.finite(),
        b.finite(),
        a.magnitude() == 0 || a.magnitude() >= 0x2d80_0000,
        b.magnitude() == 0 || b.magnitude() >= 0x2d80_0000,
        a.minus(b).finite(),
    ensures
        a.minus(b).magnitude() == 0 || a.minus(b).magnitude() >= 0x2200_0000,
{
    reveal(F32::plus_spec);
    reveal(F32::neg_spec);
    let p = pow2(90) as int;
    lemma_pow2_pos(90);
    assert(super::mag(0) == 0);
    if a.magnitude() != 0 {
        lemma_coarse(a.magnitude());
    }
    if b.magnitude() != 0 {
        lemma_coarse(b.magnitude());
    }
    let x = a.units();
    let y = b.units();
    let s = x - y;
    assert(b.neg().units() == -y);
    assert(x % p == 0 && y % p == 0) by {
        vstd::arithmetic::div_mod::lemma_small_mod(0, p as nat);
        lemma_multiple_neg(super::mag(a.magnitude()), p);
        lemma_multiple_neg(super::mag(b.magnitude()), p);
    }
    if s != 0 {
        let n: nat = if s < 0 {
            (-s) as nat
        } else {
            s as nat
        };
        assert(n >= p) by {
            vstd::arithmetic::div_mod::lemma_fundamental_div_mod(x, p);
            vstd::arithmetic::div_mod::lemma_fundamental_div_mod(y, p);
            let k = x / p - y / p;
            assert(s == p * k) by (nonlinear_arith)
                requires
                    s == x - y,
                    x == p * (x / p),
                    y == p * (y / p),
                    k == x / p - y / p,
            ;
            assert(k != 0) by (nonlinear_arith)
                requires
                    s == p * k,
                    s != 0,
            ;
            assert(k > 0 ==> p * k >= p) by (nonlinear_arith)
                requires
                    p > 0,
            ;
            assert(k < 0 ==> -(p * k) >= p) by (nonlinear_arith)
                requires
                    p > 0,
            ;
        }
        // 2^90 units
        let h = HIDDEN as int;
        vstd::arithmetic::div_mod::lemma_fundamental_div_mod_converse(0x2200_0000, h, 68, 0);
        lemma2_to64();
        lemma_pow2_adds(23, 67);
        assert(super::mag(0x2200_0000) == p);
        super::lemma_nearest_exact(0x2200_0000);
        super::monotone::lemma_nearest_monotone(p as nat, n, 1);
        super::monotone::lemma_nearest(n, 1);
    }
}

proof fn lemma_multiple_neg(x: int, p: int)
    requires
        p > 0,
        x % p == 0,
    ensures
        (-x) % p == 0,
{
    vstd::arithmetic::div_mod::lemma_fundamental_div_mod(x, p);
    let k = x / p;
    assert(-x == (-k) * p) by (nonlinear_arith)
        requires
            x == p * k,
    ;
    vstd::arithmetic::div_mod::lemma_mod_multiples_basic(-k, p);
}

/// The square of a difference of moderate numbers: zero, or neither very small nor very large, and
/// four times as large for twice the difference.
pub proof fn lemma_square(d: F32)
    requires
        within(d, 0x5e00_0000),
        d.magnitude() == 0 || d.magnitude() >= 0x2200_0000,
    ensures
        positive(d.times(d)),
        within(d.times(d), 0x7c80_0000),
        d.times(d).magnitude() == 0 || d.times(d).magnitude() >= 0x0480_0000,
        twice(d).times(twice(d)) == twice(twice(d.times(d))),
{
    reveal(F32::times_spec);
    let one = super::arith::one_units();
    let p = pow2(90);
    let n = d.size() * d.size();
    lemma2_to64();
    lemma2_to64_rest();
    lemma_pow2_pos(149);
    lemma_pow2_pos(31);
    assert(super::mag(0) == 0);
    super::monotone::lemma_power(0x5e00_0000, 61);
    super::monotone::lemma_power(0x7c80_0000, 122);
    lemma_sizes_ordered(d.magnitude(), 0x5e00_0000);
    lemma_pow2_adds(61, 61);
    let top = super::mag(0x7c80_0000) as nat;
    assert(n <= top * one) by (nonlinear_arith)
        requires
            n == d.size() * d.size(),
            d.size() <= pow2(61) * one,
            top == pow2(122) * one,
            pow2(122) == pow2(61) * pow2(61),
    ;
    super::monotone::lemma_nearest_multiple(0x7c80_0000, one);
    super::monotone::lemma_nearest_monotone(n, top * one, one);
    super::monotone::lemma_nearest(n, one);
    if d.magnitude() == 0 {
        assert(n == 0) by (nonlinear_arith)
            requires
                n == d.size() * d.size(),
                d.size() == 0,
        ;
        super::lemma_nearest_zero(one);
    } else {
        let h = HIDDEN as int;
        vstd::arithmetic::div_mod::lemma_fundamental_div_mod_converse(0x2200_0000, h, 68, 0);
        vstd::arithmetic::div_mod::lemma_fundamental_div_mod_converse(0x0480_0000, h, 9, 0);
        lemma_pow2_adds(23, 67);
        lemma_pow2_adds(23, 8);
        lemma_sizes_ordered(0x2200_0000, d.magnitude());
        assert(d.size() >= p);
        lemma_pow2_adds(90, 90);
        lemma_pow2_adds(31, 149);
        let low = super::mag(0x0480_0000) as nat;
        assert(low == pow2(31));
        assert(n >= low * one) by (nonlinear_arith)
            requires
                n == d.size() * d.size(),
                d.size() >= p,
                p * p == low * one,
        ;
        super::monotone::lemma_nearest_multiple(0x0480_0000, one);
        super::monotone::lemma_nearest_monotone(low * one, n, one);
        assert(n >= HIDDEN * one) by (nonlinear_arith)
            requires
                n >= low * one,
                low >= 0x0080_0000,
                HIDDEN == 0x0080_0000,
        ;
    }
    lemma_within_doubles(d.times(d), 0x7c80_0000);
    lemma_within_doubles(twice(d.times(d)), 0x7d00_0000);
    lemma_twice_square(d);
}

/// The root of a number up to 2 to the power of 123 is one that can be doubled.
proof fn lemma_root_doubles(a: F32)
    requires
        positive(a),
        within(a, 0x7d00_0000),
    ensures
        positive(a.sqrt()),
        doubles(a.sqrt()),
{
    reveal(F32::sqrt_spec);
    let one = super::arith::one_units();
    if a.magnitude() != 0 {
        let n = a.size() * one;
        let b = super::nearest_root(n);
        lemma_nearest_root(n);
        if b >= 0x7f00_0000 {
            super::monotone::lemma_power(0x7f00_0000, 127);
            super::monotone::lemma_power(0x7d00_0000, 123);
            lemma_sizes_ordered(0x7f00_0000, b);
            lemma_sizes_ordered(0, b - 1);
            lemma_sizes_ordered(a.magnitude(), 0x7d00_0000);
            assert(super::mag(0) == 0);
            let low = super::mag(b - 1) + super::mag(b);
            let k = pow2(127);
            lemma_pow2_adds(123, 4);
            lemma2_to64();
            lemma_pow2_pos(123);
            lemma_pow2_pos(149);
            assert(low >= k * one);
            assert(low * low >= (k * one) * (k * one)) by (nonlinear_arith)
                requires
                    low >= k * one,
                    k * one >= 0,
            ;
            assert((k * one) * (k * one) > 4 * n) by (nonlinear_arith)
                requires
                    n == a.size() * one,
                    a.size() <= pow2(123) * one,
                    k == 16 * pow2(123),
                    pow2(123) >= 1,
                    one >= 1,
            ;
            assert(false);
        }
    }
}

/// The length of a way of moderate steps, and that of the way twice as long.
pub proof fn lemma_twice_length(dx: F32, dy: F32)
    requires
        within(dx, 0x5e00_0000),
        within(dy, 0x5e00_0000),
        dx.magnitude() == 0 || dx.magnitude() >= 0x2200_0000,
        dy.magnitude() == 0 || dy.magnitude() >= 0x2200_0000,
    ensures
        ({
            let r = dx.times(dx).plus(dy.times(dy)).sqrt();
            &&& positive(r)
            &&& doubles(r)
            &&& twice(dx).times(twice(dx)).plus(twice(dy).times(twice(dy))).sqrt() == twice(r)
        }),
{
    let x = dx.times(dx);
    let y = dy.times(dy);
    let s = x.plus(y);
    lemma_square(dx);
    lemma_square(dy);
    lemma_plus_within(x, y, 0x7c80_0000);
    lemma_positive_plus(x, y);
    lemma_within_doubles(x, 0x7c80_0000);
    lemma_within_doubles(y, 0x7c80_0000);
    lemma_within_doubles(s, 0x7d00_0000);
    lemma_within_doubles(twice(x), 0x7d00_0000);
    lemma_within_doubles(twice(y), 0x7d00_0000);
    lemma_within_doubles(twice(s), 0x7d80_0000);
    lemma_twice_plus(x, y);
    lemma_twice_plus(twice(x), twice(y));
    lemma_root_doubles(s);
    if x.magnitude() == 0 && y.magnitude() == 0 {
        reveal(F32::plus_spec);
        assert(super::mag(0) == 0);
        assert(s.magnitude() == 0);
    }
    lemma_twice_root(s);
}

} // verus!
