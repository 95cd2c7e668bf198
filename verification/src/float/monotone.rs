//! Rounding keeps the order of exact results.
use super::{num, F32, HIDDEN, INF_BITS};
use vstd::arithmetic::div_mod::*;
use vstd::arithmetic::power2::*;
use vstd::prelude::*;

verus! {

/// Does `n / d` lie far enough up to be nearest to `b`, or above?
spec fn reaches(n: nat, d: nat, b: int) -> bool {
    b > 0 ==> {
        ||| (super::mag(b - 1) + super::mag(b)) * d < 2 * n
        ||| (super::mag(b - 1) + super::mag(b)) * d == 2 * n && b % 2 == 0
    }
}

proof fn lemma_nearest_from(n: nat, d: nat, b: int) -> (r: int)
    requires
        0 <= b <= INF_BITS,
        reaches(n, d, b),
    ensures
        super::is_nearest(n, d, r),
    decreases INF_BITS - b,
{
    if super::is_nearest(n, d, b) {
        b
    } else {
        assert(b < INF_BITS);
        assert(reaches(n, d, b + 1));
        lemma_nearest_from(n, d, b + 1)
    }
}

/// There is a magnitude nearest to any quotient.
pub proof fn lemma_nearest(n: nat, d: nat)
    requires
        d > 0,
    ensures
        super::is_nearest(n, d, super::nearest(n, d)),
{
    let b = lemma_nearest_from(n, d, 0);
}

/// Of two quotients by the same number, the larger is not rounded to less.
pub proof fn lemma_nearest_monotone(n: nat, m: nat, d: nat)
    requires
        d > 0,
        n <= m,
    ensures
        super::nearest(n, d) <= super::nearest(m, d),
{
    let a = super::nearest(n, d);
    let b = super::nearest(m, d);
    lemma_nearest(n, d);
    lemma_nearest(m, d);
    if a > b {
        super::lemma_bounds_ordered(b, a);
        let high = super::mag(b) + super::mag(b + 1);
        let low = super::mag(a - 1) + super::mag(a);
        assert(high * d <= low * d && (high < low ==> high * d < low * d)) by (nonlinear_arith)
            requires
                high <= low,
                d > 0,
        ;
        assert(high == low);
        assert(b + 1 == a);
    }
}

/// Finite numbers are ordered as their values are.
pub proof fn lemma_units_ordered(a: F32, b: F32)
    requires
        a.finite(),
        b.finite(),
    ensures
        a.le(b) <==> a.units() <= b.units(),
        a.lt(b) <==> a.units() < b.units(),
{
    reveal(F32::le_spec);
    reveal(F32::lt_spec);
    let (x, y) = (a.magnitude(), b.magnitude());
    assert(super::mag(0) == 0);
    if x > 0 {
        super::lemma_mag_ordered(0, x);
    }
    if y > 0 {
        super::lemma_mag_ordered(0, y);
    }
    if x < y {
        super::lemma_mag_ordered(x, y);
    } else if y < x {
        super::lemma_mag_ordered(y, x);
    }
}

/// A rounded sum of finite numbers is a number, and of two sums the larger is not rounded to less.
pub proof fn lemma_sum_monotone(a: F32, b: F32, c: F32, d: F32)
    requires
        a.finite(),
        b.finite(),
        c.finite(),
        d.finite(),
        a.units() + b.units() <= c.units() + d.units(),
    ensures
        !a.plus(b).nan(),
        !c.plus(d).nan(),
        a.plus(b).le(c.plus(d)),
{
    reveal(F32::le_spec);
    reveal(F32::plus_spec);
    let s = a.units() + b.units();
    let t = c.units() + d.units();
    if s != 0 {
        lemma_nearest(if s > 0 {
            s as nat
        } else {
            (-s) as nat
        }, 1);
    }
    if t != 0 {
        lemma_nearest(if t > 0 {
            t as nat
        } else {
            (-t) as nat
        }, 1);
    }
    if s > 0 {
        lemma_nearest_monotone(s as nat, t as nat, 1);
    } else if t < 0 {
        lemma_nearest_monotone((-t) as nat, (-s) as nat, 1);
    }
}

/// The opposite of a finite number has the opposite value.
pub proof fn lemma_opposite(a: F32)
    ensures
        a.finite() ==> a.neg().finite() && a.neg().units() == -a.units(),
        a.nan() == a.neg().nan(),
{
    reveal(F32::neg_spec);
}

/// What is subtracted from two numbers keeps their order, and a number minus itself is zero.
pub proof fn lemma_difference(a: F32, b: F32, c: F32)
    requires
        a.finite(),
        b.finite(),
        c.finite(),
        a.le(b),
    ensures
        !a.minus(c).nan(),
        !b.minus(c).nan(),
        a.minus(c).le(b.minus(c)),
        c.minus(c).rank() == 0,
{
    lemma_opposite(c);
    lemma_units_ordered(a, b);
    lemma_sum_monotone(a, c.neg(), b, c.neg());
    reveal(F32::plus_spec);
}

/// One minus a number between 0 and 1 lies between 0 and 1.
pub proof fn lemma_complement(f: F32)
    requires
        num(0).le(f),
        f.le(num(0x3f80_0000)),
    ensures
        num(0).le(num(0x3f80_0000).minus(f)),
        num(0x3f80_0000).minus(f).le(num(0x3f80_0000)),
{
    let one = num(0x3f80_0000);
    let zero = num(0);
    reveal(F32::le_spec);
    assert(f.finite());
    lemma_opposite(f);
    lemma_opposite(one);
    lemma_opposite(zero);
    lemma_units_ordered(zero, f);
    lemma_units_ordered(f, one);
    assert(super::mag(0) == 0);
    super::lemma_mag_ordered(0, 0x3f80_0000);
    lemma_sum_monotone(one, one.neg(), one, f.neg());
    lemma_sum_monotone(one, f.neg(), one, zero);
    reveal(F32::plus_spec);
    super::lemma_nearest_exact(0x3f80_0000);
    lemma_nearest(one.units() as nat, 1);
    super::lemma_nearest_range(one.units() as nat, 1, 0x3f80_0000);
}

/// A quotient of finite numbers is a number, unless both are zero.
pub proof fn lemma_quotient_is_number(a: F32, b: F32)
    requires
        a.finite(),
        b.finite(),
        b.magnitude() != 0,
    ensures
        !a.over(b).nan(),
{
    reveal(F32::over_spec);
    super::lemma_mag_ordered(0, b.magnitude());
    lemma_nearest(a.size() * super::arith::one_units(), b.size());
}

/// Whole numbers of up to 64 bits are finite.
pub proof fn lemma_whole_finite(v: int)
    requires
        -0x1_0000_0000_0000_0000 < v < 0x1_0000_0000_0000_0000,
    ensures
        super::convert::of_int(v).finite(),
{
    reveal(super::convert::of_int);
    let n: nat = if v < 0 {
        (-v) as nat
    } else {
        v as nat
    };
    let top = 0x1_0000_0000_0000_0000nat;
    let one = super::arith::one_units();
    assert(n * one <= top * one) by (nonlinear_arith)
        requires
            n <= top,
            one >= 0,
    ;
    lemma_nearest_monotone(n * one, top * one, 1);
    // 2^64 is the number with these bits
    lemma_power(0x5f80_0000, 64);
    lemma2_to64();
    assert(super::mag(0x5f80_0000) == top * one);
    super::lemma_nearest_exact(0x5f80_0000);
    lemma_nearest(n * one, 1);
}

/// Positive whole numbers of up to 64 bits are positive, and in their order.
pub proof fn lemma_whole_ordered(m: int, n: int)
    requires
        1 <= m <= n < 0x1_0000_0000_0000_0000,
    ensures
        ({
            let (a, b) = (super::convert::of_int(m), super::convert::of_int(n));
            &&& a.finite() && !a.negative()
            &&& b.finite() && !b.negative()
            &&& 0 < a.magnitude() <= b.magnitude()
        }),
{
    let one = super::arith::one_units();
    lemma_whole_finite(m);
    lemma_whole_finite(n);
    reveal(super::convert::of_int);
    lemma_power(0x3f80_0000, 0);
    lemma2_to64();
    assert(super::mag(0x3f80_0000) == one);
    super::lemma_nearest_exact(0x3f80_0000);
    assert(one <= m * one && m * one <= n * one) by (nonlinear_arith)
        requires
            1 <= m <= n,
            one >= 0,
    ;
    lemma_nearest_monotone(one, (m * one) as nat, 1);
    lemma_nearest_monotone((m * one) as nat, (n * one) as nat, 1);
    lemma_nearest((m * one) as nat, 1);
    lemma_nearest((n * one) as nat, 1);
}

/// Of two quotients of the same number, the one by the smaller number is not rounded to less.
proof fn lemma_nearest_divisor(n: nat, d: nat, e: nat)
    requires
        0 < d <= e,
    ensures
        super::nearest(n, e) <= super::nearest(n, d),
{
    let a = super::nearest(n, e);
    let b = super::nearest(n, d);
    lemma_nearest(n, e);
    lemma_nearest(n, d);
    if a > b {
        super::lemma_bounds_ordered(b, a);
        super::lemma_mag_step(a - 1);
        let high = super::mag(b) + super::mag(b + 1);
        let low = super::mag(a - 1) + super::mag(a);
        assert(high * d <= low * e && (high < low || d < e ==> high * d < low * e))
            by (nonlinear_arith)
            requires
                0 <= high <= low,
                low > 0,
                0 < d <= e,
        ;
        assert(high == low && d == e);
        assert(b + 1 == a);
    }
}

/// A number that is not negative, divided by less, does not give less.
pub proof fn lemma_smaller_divisor(a: F32, b: F32, c: F32)
    requires
        a.finite() && !a.negative(),
        b.finite() && !b.negative(),
        c.finite() && !c.negative(),
        0 < b.magnitude() <= c.magnitude(),
    ensures
        a.over(c).le(a.over(b)),
{
    reveal(F32::over_spec);
    reveal(F32::le_spec);
    super::lemma_mag_ordered(0, b.magnitude());
    if b.magnitude() < c.magnitude() {
        super::lemma_mag_ordered(b.magnitude(), c.magnitude());
    }
    let n = a.size() * super::arith::one_units();
    lemma_nearest(n, b.size());
    lemma_nearest(n, c.size());
    lemma_nearest_divisor(n, b.size(), c.size());
}

proof fn lemma_exact_at(q: nat, e: nat)
    requires
        1 <= q <= 2 * HIDDEN,
        e <= 149,
        q >= HIDDEN || 149 - e <= 30 && q >= pow2((149 - e) as nat),
    ensures
        ({
            let b = super::nearest(q * pow2(e), 1);
            super::mag(b) == q * pow2(e) && b < INF_BITS
        }),
    decreases e,
{
    lemma2_to64();
    if q >= HIDDEN {
        super::lemma_mag_parts(e as int, q as int);
        let b = e * HIDDEN + q;
        assert(b < INF_BITS);
        super::lemma_nearest_exact(b as int);
    } else {
        lemma_pow2_adds((149 - e) as nat, 1);
        lemma_pow2_adds((e - 1) as nat, 1);
        assert(149 - e < 23) by {
            if 149 - e > 23 {
                lemma_pow2_strictly_increases(23, (149 - e) as nat);
            }
        }
        assert((2 * q) * pow2((e - 1) as nat) == q * pow2(e)) by (nonlinear_arith)
            requires
                pow2(e) == 2 * pow2((e - 1) as nat),
        ;
        lemma_exact_at(2 * q, (e - 1) as nat);
    }
}

/// Whole numbers of up to 24 bits are numbers.
pub proof fn lemma_whole_exact(v: nat)
    requires
        v <= 0x100_0000,
    ensures
        super::mag(super::convert::whole_magnitude(v)) == v * super::arith::one_units(),
        0 <= super::convert::whole_magnitude(v) < INF_BITS,
{
    let one = super::arith::one_units();
    lemma_pow2_pos(149);
    lemma2_to64();
    lemma_nearest(v * one, 1);
    if v == 0 {
        assert(0 * one == 0);
        super::lemma_nearest_zero(1);
        assert(super::mag(0) == 0);
    } else {
        lemma_exact_at(v, 149);
    }
}

/// A magnitude with an empty significand is a power of two.
pub proof fn lemma_power(b: int, k: nat)
    requires
        b == (k + 127) * 0x0080_0000,
    ensures
        super::mag(b) == pow2(k) * super::arith::one_units(),
{
    let h = super::HIDDEN as int;
    lemma_fundamental_div_mod_converse(b, h, k as int + 127, 0);
    lemma2_to64();
    lemma_pow2_adds(23, k + 126);
    lemma_pow2_adds(k, 149);
}

/// A product with a finite factor other than zero is a number.
pub proof fn lemma_product_is_number(a: F32, b: F32)
    requires
        a.finite(),
        a.magnitude() != 0,
        !b.nan(),
    ensures
        !a.times(b).nan(),
{
    reveal(F32::times_spec);
    if b.finite() {
        lemma2_to64();
        lemma_pow2_pos(149);
        lemma_nearest(a.size() * b.size(), super::arith::one_units());
    }
}

/// A sum with a finite number is a number.
pub proof fn lemma_sum_is_number(a: F32, b: F32)
    requires
        !a.nan(),
        b.finite(),
    ensures
        !a.plus(b).nan(),
{
    reveal(F32::plus_spec);
    if a.finite() {
        lemma_sum_monotone(a, b, a, b);
    }
}

/// A multiple of `d` of a magnitude's value, divided by `d`, is that magnitude.
pub proof fn lemma_nearest_multiple(b: int, d: nat)
    requires
        0 <= b < INF_BITS,
        d > 0,
    ensures
        super::nearest((super::mag(b) * d) as nat, d) == b,
        super::mag(b) >= 0,
{
    let m = super::mag(b);
    if b > 0 {
        super::lemma_mag_ordered(b - 1, b);
    }
    super::lemma_mag_ordered(b, b + 1);
    super::lemma_nearest_exact(b);
    if b > 0 {
        assert((super::mag(b - 1) + m) * d < 2 * (m * d)) by (nonlinear_arith)
            requires
                super::mag(b - 1) < m,
                d > 0,
        ;
    }
    assert(m == 0 || m > 0) by {
        if b > 0 {
            super::lemma_mag_ordered(0, b);
        }
    }
    assert(2 * (m * d) < (m + super::mag(b + 1)) * d) by (nonlinear_arith)
        requires
            m < super::mag(b + 1),
            d > 0,
    ;
    assert(m * d >= 0) by (nonlinear_arith)
        requires
            m >= 0,
            d > 0,
    ;
    super::lemma_nearest_range((m * d) as nat, d, b);
}

/// A number between 0 and `b`, divided by `b`, lies between 0 and 1.
pub proof fn lemma_unit_quotient(a: F32, b: F32)
    requires
        a.finite(),
        b.finite(),
        num(0).le(a),
        a.le(b),
        b.magnitude() != 0,
    ensures
        num(0).le(a.over(b)),
        a.over(b).le(num(0x3f80_0000)),
{
    reveal(F32::over_spec);
    reveal(F32::le_spec);
    let one = super::arith::one_units();
    lemma_units_ordered(num(0), a);
    lemma_units_ordered(a, b);
    assert(super::mag(0) == 0);
    super::lemma_mag_ordered(0, b.magnitude());
    if a.magnitude() > 0 {
        super::lemma_mag_ordered(0, a.magnitude());
    }
    assert(a.size() <= b.size());
    assert(a.size() * one <= b.size() * one) by (nonlinear_arith)
        requires
            a.size() <= b.size(),
    ;
    lemma_nearest_monotone(a.size() * one, b.size() * one, b.size());
    lemma_power(0x3f80_0000, 0);
    lemma2_to64();
    lemma_nearest_multiple(0x3f80_0000, b.size());
    assert(super::mag(0x3f80_0000) * b.size() == b.size() * one) by (nonlinear_arith)
        requires
            super::mag(0x3f80_0000) == one,
    ;
    lemma_nearest(a.size() * one, b.size());
    if a.magnitude() == 0 {
        lemma_nearest_multiple(0, b.size());
        assert(a.size() * one == 0) by (nonlinear_arith)
            requires
                a.size() == 0,
        ;
        assert(super::mag(0) * b.size() == 0) by (nonlinear_arith)
            requires
                super::mag(0) == 0,
        ;
    }
}

/// A number between 0 and 1, multiplied by `b`, lies between 0 and `b`.
pub proof fn lemma_unit_product(a: F32, b: F32)
    requires
        num(0).le(a),
        a.le(num(0x3f80_0000)),
        b.finite(),
        num(0).le(b),
    ensures
        num(0).le(a.times(b)),
        a.times(b).le(b),
{
    reveal(F32::times_spec);
    reveal(F32::le_spec);
    let one = super::arith::one_units();
    assert(a.finite());
    lemma_units_ordered(num(0), a);
    lemma_units_ordered(a, num(0x3f80_0000));
    lemma_units_ordered(num(0), b);
    assert(super::mag(0) == 0);
    if a.magnitude() > 0 {
        super::lemma_mag_ordered(0, a.magnitude());
    }
    if b.magnitude() > 0 {
        super::lemma_mag_ordered(0, b.magnitude());
    }
    lemma_power(0x3f80_0000, 0);
    lemma2_to64();
    lemma_pow2_pos(149);
    assert(a.size() <= one);
    assert(a.size() * b.size() <= b.size() * one) by (nonlinear_arith)
        requires
            a.size() <= one,
    ;
    lemma_nearest_monotone(a.size() * b.size(), b.size() * one, one);
    lemma_nearest_multiple(b.magnitude(), one);
    lemma_nearest(a.size() * b.size(), one);
    if a.magnitude() == 0 || b.magnitude() == 0 {
        assert(a.size() * b.size() == 0) by (nonlinear_arith)
            requires
                a.size() == 0 || b.size() == 0,
        ;
        lemma_nearest_multiple(0, one);
    }
}

/// The whole part of a number between 0 and 4 is at most 4.
pub proof fn lemma_whole_up_to_four(a: F32)
    requires
        num(0).le(a),
        a.le(num(0x4080_0000)),
    ensures
        0 <= super::convert::truncated(a, 0, usize::MAX as int) <= 4,
{
    reveal(F32::le_spec);
    reveal(super::convert::truncated);
    let one = super::arith::one_units();
    assert(a.finite());
    lemma_units_ordered(num(0), a);
    lemma_units_ordered(a, num(0x4080_0000));
    assert(super::mag(0) == 0);
    if a.magnitude() > 0 {
        super::lemma_mag_ordered(0, a.magnitude());
    }
    lemma_power(0x4080_0000, 2);
    lemma2_to64();
    lemma_pow2_pos(149);
    assert(a.size() <= 4 * one);
    assert(a.size() / one <= 4) by {
        lemma_div_is_ordered(a.size() as int, 4 * one as int, one as int);
        lemma_div_multiples_vanish(4, one as int);
        assert(one as int * 4 == 4 * one as int);
    }
}

/// A product with a number that is not negative keeps the order.
pub proof fn lemma_product_keeps_order(a: F32, b: F32, k: F32)
    requires
        a.finite() && b.finite(),
        k.finite() && !k.negative(),
        a.le(b),
    ensures
        a.times(k).le(b.times(k)),
{
    reveal(F32::le_spec);
    reveal(F32::times_spec);
    let one = super::arith::one_units();
    lemma_pow2_pos(149);
    let (n, m) = (a.size() * k.size(), b.size() * k.size());
    lemma_nearest(n, one);
    lemma_nearest(m, one);
    assert(super::mag(0) == 0);
    if a.magnitude() <= b.magnitude() {
        super::bound::lemma_size_ordered(a.magnitude(), b.magnitude());
        assert(n <= m) by (nonlinear_arith)
            requires
                n == a.size() * k.size(),
                m == b.size() * k.size(),
                a.size() <= b.size(),
        ;
        lemma_nearest_monotone(n, m, one);
    }
    if b.magnitude() <= a.magnitude() {
        super::bound::lemma_size_ordered(b.magnitude(), a.magnitude());
        assert(m <= n) by (nonlinear_arith)
            requires
                n == a.size() * k.size(),
                m == b.size() * k.size(),
                b.size() <= a.size(),
        ;
        lemma_nearest_monotone(m, n, one);
    }
    if a.magnitude() == 0 {
        assert(0 * k.size() == 0) by (nonlinear_arith);
        super::lemma_nearest_zero(one);
    }
    if b.magnitude() == 0 {
        assert(0 * k.size() == 0) by (nonlinear_arith);
        super::lemma_nearest_zero(one);
    }
}

/// What is added to a finite number keeps its order.
pub proof fn lemma_plus_keeps_order(x: F32, a: F32, b: F32)
    requires
        x.finite(),
        a.le(b),
    ensures
        x.plus(a).le(x.plus(b)),
        a.plus(x).le(b.plus(x)),
{
    reveal(F32::le_spec);
    if a.finite() && b.finite() {
        lemma_units_ordered(a, b);
        lemma_sum_monotone(x, a, x, b);
        lemma_sum_monotone(a, x, b, x);
    } else {
        if a.finite() {
            lemma_sum_monotone(x, a, x, a);
            lemma_sum_monotone(a, x, a, x);
        }
        if b.finite() {
            lemma_sum_monotone(x, b, x, b);
            lemma_sum_monotone(b, x, b, x);
        }
        reveal(F32::plus_spec);
    }
}

/// A place at a scale that is not negative keeps its order.
pub proof fn lemma_place_keeps_order(x: F32, a: F32, b: F32, k: F32)
    requires
        x.finite() && a.finite() && b.finite(),
        k.finite() && !k.negative(),
        a.le(b),
    ensures
        x.plus(a.times(k)).le(x.plus(b.times(k))),
        a.times(k).plus(x).le(b.times(k).plus(x)),
{
    lemma_product_keeps_order(a, b, k);
    lemma_plus_keeps_order(x, a.times(k), b.times(k));
}

/// A quotient by a number above zero keeps the order.
pub proof fn lemma_quotient_keeps_order(a: F32, b: F32, s: F32)
    requires
        a.finite() && b.finite(),
        s.finite() && !s.negative() && s.magnitude() != 0,
        a.le(b),
    ensures
        a.over(s).le(b.over(s)),
{
    reveal(F32::le_spec);
    reveal(F32::over_spec);
    let one = super::arith::one_units();
    let d = s.size();
    super::lemma_mag_ordered(0, s.magnitude());
    let (n, m) = (a.size() * one, b.size() * one);
    lemma_nearest(n, d);
    lemma_nearest(m, d);
    assert(super::mag(0) == 0);
    if a.magnitude() <= b.magnitude() {
        super::bound::lemma_size_ordered(a.magnitude(), b.magnitude());
        assert(n <= m) by (nonlinear_arith)
            requires
                n == a.size() * one,
                m == b.size() * one,
                a.size() <= b.size(),
        ;
        lemma_nearest_monotone(n, m, d);
    }
    if b.magnitude() <= a.magnitude() {
        super::bound::lemma_size_ordered(b.magnitude(), a.magnitude());
        assert(m <= n) by (nonlinear_arith)
            requires
                n == a.size() * one,
                m == b.size() * one,
                b.size() <= a.size(),
        ;
        lemma_nearest_monotone(m, n, d);
    }
    if a.magnitude() == 0 {
        assert(0 * one == 0);
        super::lemma_nearest_zero(d);
    }
    if b.magnitude() == 0 {
        assert(0 * one == 0);
        super::lemma_nearest_zero(d);
    }
}

/// Whole numbers of up to 64 bits keep their order.
pub proof fn lemma_wholes_keep_order(m: int, n: int)
    requires
        -0x1_0000_0000_0000_0000 < m <= n < 0x1_0000_0000_0000_0000,
    ensures
        super::convert::of_int(m).le(super::convert::of_int(n)),
        m == 0 ==> super::convert::of_int(m) == num(0),
        n > 0 ==> super::convert::of_int(n).magnitude() > 0 && !super::convert::of_int(n).negative(),
{
    let one = super::arith::one_units();
    lemma_whole_finite(m);
    lemma_whole_finite(n);
    if n > 0 {
        lemma_whole_ordered(n, n);
    }
    if 1 <= m {
        lemma_whole_ordered(m, n);
    }
    reveal(super::convert::of_int);
    reveal(F32::le_spec);
    let (p, q): (nat, nat) = (
        if m < 0 { (-m) as nat } else { m as nat },
        if n < 0 { (-n) as nat } else { n as nat },
    );
    lemma_nearest(p * one, 1);
    lemma_nearest(q * one, 1);
    assert(0 * one == 0);
    super::lemma_nearest_zero(1);
    if m < 0 && n < 0 {
        assert(q * one <= p * one) by (nonlinear_arith)
            requires
                q <= p,
        ;
        lemma_nearest_monotone(q * one, p * one, 1);
    }
}

} // verus!
