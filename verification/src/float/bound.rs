//! Bounds: how large a rounded result can be.
use super::{num, F32, HIDDEN};
use vstd::arithmetic::power2::*;
use vstd::prelude::*;

verus! {

/// The bits of 1, 2, 4, 8 and 2 to the power of 27.
pub const ONE_BITS: u32 = 0x3f80_0000;
pub const TWO_BITS: u32 = 0x4000_0000;
pub const FOUR_BITS: u32 = 0x4080_0000;
pub const EIGHT_BITS: u32 = 0x4100_0000;
pub const FAR_BITS: u32 = 0x4d00_0000;

/// Does the number lie between `-b` and `b`?
pub open spec fn between(a: F32, b: F32) -> bool {
    b.neg().le(a) && a.le(b)
}

/// A number lies between the opposites of a bound if its magnitude bits are at most those of the
/// bound.
pub proof fn lemma_between(a: F32, b: F32)
    requires
        b.finite(),
        !b.negative(),
    ensures
        between(a, b) <==> a.magnitude() <= b.magnitude(),
{
    reveal(F32::le_spec);
    reveal(F32::neg_spec);
}

/// Magnitudes of values that are ordered are ordered.
pub proof fn lemma_size_ordered(a: int, b: int)
    requires
        0 <= a,
        0 <= b,
    ensures
        a <= b <==> super::mag(a) <= super::mag(b),
        super::mag(a) >= 0,
{
    super::lemma_mag_step(a);
    if a < b {
        super::lemma_mag_ordered(a, b);
    } else if b < a {
        super::lemma_mag_ordered(b, a);
    }
}

/// A sum between two finite numbers is rounded to a number between them.
pub proof fn lemma_sum_between(a: F32, b: F32, low: F32, high: F32)
    requires
        a.finite(),
        b.finite(),
        low.finite(),
        high.finite(),
        low.units() <= a.units() + b.units() <= high.units(),
    ensures
        a.plus(b).finite(),
        low.units() <= a.plus(b).units() <= high.units(),
{
    reveal(F32::plus_spec);
    let s = a.units() + b.units();
    assert(super::mag(0) == 0);
    lemma_size_ordered(0, low.magnitude());
    lemma_size_ordered(0, high.magnitude());
    if s > 0 {
        super::monotone::lemma_nearest(s as nat, 1);
        super::monotone::lemma_nearest_monotone(s as nat, high.units() as nat, 1);
        super::lemma_nearest_exact(high.magnitude());
        let r = super::nearest(s as nat, 1);
        lemma_size_ordered(r, high.magnitude());
        lemma_size_ordered(0, r);
        if low.units() > 0 {
            super::monotone::lemma_nearest_monotone(low.units() as nat, s as nat, 1);
            super::lemma_nearest_exact(low.magnitude());
            lemma_size_ordered(low.magnitude(), r);
        }
    } else if s < 0 {
        let n = (-s) as nat;
        super::monotone::lemma_nearest(n, 1);
        super::monotone::lemma_nearest_monotone(n, (-low.units()) as nat, 1);
        super::lemma_nearest_exact(low.magnitude());
        let r = super::nearest(n, 1);
        lemma_size_ordered(r, low.magnitude());
        lemma_size_ordered(0, r);
        if high.units() < 0 {
            super::monotone::lemma_nearest_monotone((-high.units()) as nat, n, 1);
            super::lemma_nearest_exact(high.magnitude());
            lemma_size_ordered(high.magnitude(), r);
        }
    }
}

/// A number divided by one that is at least as large lies between -1 and 1.
pub proof fn lemma_quotient_up_to_one(a: F32, b: F32)
    requires
        a.magnitude() <= b.magnitude(),
        b.finite(),
        b.magnitude() != 0,
    ensures
        a.over(b).magnitude() <= ONE_BITS,
{
    reveal(F32::over_spec);
    let one = super::arith::one_units();
    assert(super::mag(0) == 0);
    lemma_size_ordered(a.magnitude(), b.magnitude());
    super::lemma_mag_ordered(0, b.magnitude());
    assert(a.size() * one <= b.size() * one) by (nonlinear_arith)
        requires
            a.size() <= b.size(),
    ;
    super::monotone::lemma_nearest_monotone(a.size() * one, b.size() * one, b.size());
    super::monotone::lemma_power(ONE_BITS as int, 0);
    lemma2_to64();
    super::monotone::lemma_nearest_multiple(ONE_BITS as int, b.size());
    assert(super::mag(ONE_BITS as int) * b.size() == b.size() * one) by (nonlinear_arith)
        requires
            super::mag(ONE_BITS as int) == one,
    ;
    super::monotone::lemma_nearest(a.size() * one, b.size());
}

/// A number multiplied by one between -1 and 1 does not grow, and a factor that is not negative
/// keeps its sign.
pub proof fn lemma_product_shrinks(f: F32, v: F32)
    requires
        f.magnitude() <= ONE_BITS,
        v.finite(),
    ensures
        f.times(v).magnitude() <= v.magnitude(),
        f.times(v).finite(),
        f.times(v).negative() == (f.negative() != v.negative()),
        f.magnitude() == 0 ==> f.times(v).magnitude() == 0,
{
    reveal(F32::times_spec);
    let one = super::arith::one_units();
    super::monotone::lemma_power(ONE_BITS as int, 0);
    lemma2_to64();
    lemma_pow2_pos(149);
    lemma_size_ordered(f.magnitude(), ONE_BITS as int);
    lemma_size_ordered(v.magnitude(), v.magnitude());
    assert(f.size() * v.size() <= v.size() * one) by (nonlinear_arith)
        requires
            f.size() <= one,
    ;
    super::monotone::lemma_nearest_monotone(f.size() * v.size(), v.size() * one, one);
    super::monotone::lemma_nearest_multiple(v.magnitude(), one);
    super::monotone::lemma_nearest(f.size() * v.size(), one);
    if f.magnitude() == 0 {
        assert(f.size() * v.size() == 0) by (nonlinear_arith)
            requires
                f.size() == 0,
        ;
        super::lemma_nearest_zero(one);
    }
}

/// The product of two numbers up to 2 is at most 4.
pub proof fn lemma_product_up_to_four(a: F32, b: F32)
    requires
        a.magnitude() <= TWO_BITS,
        b.magnitude() <= TWO_BITS,
    ensures
        a.times(b).magnitude() <= FOUR_BITS,
        a.negative() == b.negative() ==> !a.times(b).negative(),
{
    reveal(F32::times_spec);
    let one = super::arith::one_units();
    super::monotone::lemma_power(TWO_BITS as int, 1);
    super::monotone::lemma_power(FOUR_BITS as int, 2);
    lemma2_to64();
    lemma_pow2_pos(149);
    lemma_size_ordered(a.magnitude(), TWO_BITS as int);
    lemma_size_ordered(b.magnitude(), TWO_BITS as int);
    assert(a.size() * b.size() <= (4 * one) * one) by (nonlinear_arith)
        requires
            a.size() <= 2 * one,
            b.size() <= 2 * one,
    ;
    super::monotone::lemma_nearest_monotone(a.size() * b.size(), (4 * one) * one, one);
    super::monotone::lemma_nearest_multiple(FOUR_BITS as int, one);
    super::monotone::lemma_nearest(a.size() * b.size(), one);
}

/// The root of a number up to 8 is at most 4.
pub proof fn lemma_root_up_to_four(a: F32)
    requires
        a.magnitude() <= EIGHT_BITS,
        !a.negative(),
    ensures
        a.sqrt().magnitude() <= FOUR_BITS,
{
    reveal(F32::sqrt_spec);
    let one = super::arith::one_units();
    let n = a.size() * one;
    let b = super::nearest_root(n);
    super::scale::lemma_nearest_root(n);
    super::monotone::lemma_power(EIGHT_BITS as int, 3);
    super::monotone::lemma_power(FOUR_BITS as int, 2);
    lemma2_to64();
    lemma_pow2_pos(149);
    lemma_size_ordered(a.magnitude(), EIGHT_BITS as int);
    if b > FOUR_BITS {
        lemma_size_ordered(FOUR_BITS as int, b - 1);
        lemma_size_ordered(FOUR_BITS as int, b);
        let low = super::mag(b - 1) + super::mag(b);
        assert(low * low > 4 * n) by (nonlinear_arith)
            requires
                low >= 8 * one,
                n == a.size() * one,
                a.size() <= 8 * one,
                one > 0,
        ;
    }
}

/// Steps of at most 4 do not lead further than 2 to the power of 27: from there on, they are lost
/// in the rounding.
pub proof fn lemma_steps_stay_near(a: F32, b: F32)
    requires
        a.magnitude() <= FAR_BITS,
        b.magnitude() <= FOUR_BITS,
    ensures
        a.plus(b).magnitude() <= FAR_BITS,
{
    reveal(F32::plus_spec);
    let one = super::arith::one_units();
    let far = FAR_BITS as int;
    super::monotone::lemma_power(far, 27);
    super::monotone::lemma_power(FOUR_BITS as int, 2);
    lemma2_to64();
    lemma_pow2_pos(149);
    lemma_size_ordered(a.magnitude(), far);
    lemma_size_ordered(b.magnitude(), FOUR_BITS as int);
    let top = (super::mag(far) + 4 * one) as nat;
    // the next number is 16 further on
    let h = HIDDEN as int;
    vstd::arithmetic::div_mod::lemma_fundamental_div_mod_converse(far + 1, h, 154, 1);
    lemma_pow2_adds(4, 149);
    lemma_pow2_adds(23, 153);
    lemma_pow2_adds(27, 149);
    assert(super::mag(far + 1) == (h + 1) * pow2(153));
    assert((h + 1) * pow2(153) == h * pow2(153) + pow2(153)) by (nonlinear_arith);
    assert(super::mag(far + 1) == super::mag(far) + 16 * one);
    super::lemma_mag_step(far - 1);
    assert(super::is_nearest(top, 1, far));
    super::lemma_nearest_range(top, 1, far);
    let s = a.units() + b.units();
    let n: nat = if s < 0 {
        (-s) as nat
    } else {
        s as nat
    };
    super::monotone::lemma_nearest_monotone(n, top, 1);
    super::monotone::lemma_nearest(n, 1);
}

/// The distance of a number from 1, rounded, added to the number: it misses 1 by at most half of
/// the distance to the next number.
proof fn lemma_up_to_one(a: F32)
    requires
        a.magnitude() <= ONE_BITS,
    ensures
        num(ONE_BITS).minus(a).magnitude() <= TWO_BITS,
        0 <= num(ONE_BITS).minus(a).units(),
        a.units() + num(ONE_BITS).minus(a).units() <= super::arith::one_units() + pow2(125),
{
    reveal(F32::plus_spec);
    reveal(F32::neg_spec);
    let one = super::arith::one_units();
    super::monotone::lemma_opposite(a);
    super::monotone::lemma_power(ONE_BITS as int, 0);
    super::monotone::lemma_power(TWO_BITS as int, 1);
    lemma2_to64();
    lemma_pow2_pos(149);
    lemma_pow2_pos(125);
    assert(super::mag(0) == 0);
    lemma_size_ordered(a.magnitude(), ONE_BITS as int);
    super::scale::lemma_plus_within(num(ONE_BITS), a.neg(), ONE_BITS as int);
    let n = (one - a.units()) as nat;
    let b = super::nearest(n, 1);
    super::monotone::lemma_nearest(n, 1);
    if n > 0 && b > 0 {
        let h = HIDDEN as int;
        let (e, q) = super::lemma_mag_split(b - 1);
        super::lemma_mag_parts(e, q + 1);
        assert(e <= 126) by (nonlinear_arith)
            requires
                b - 1 == e * h + q,
                b <= TWO_BITS,
                TWO_BITS == 128 * h,
                q >= h || e == 0,
                h > 0,
        ;
        let p = pow2(e as nat) as int;
        if e < 126 {
            lemma_pow2_strictly_increases(e as nat, 126);
        }
        lemma_pow2_adds(125, 1);
        assert((q + 1) * p == q * p + p) by (nonlinear_arith);
        assert(super::mag(b) == super::mag(b - 1) + p);
    }
    lemma_size_ordered(0, b);
}

/// What misses 1 by at most half of the distance to the next number is rounded to at most 1.
proof fn lemma_rounds_to_one(a: F32, b: F32)
    requires
        a.finite(),
        b.finite(),
        -(super::arith::one_units() + pow2(125)) <= a.units() + b.units()
            <= super::arith::one_units() + pow2(125),
    ensures
        a.plus(b).magnitude() <= ONE_BITS,
{
    reveal(F32::plus_spec);
    let one = super::arith::one_units();
    let h = HIDDEN as int;
    let top = one + pow2(125);
    super::monotone::lemma_power(ONE_BITS as int, 0);
    lemma2_to64();
    lemma_pow2_pos(125);
    lemma_pow2_adds(125, 1);
    lemma_pow2_adds(23, 126);
    vstd::arithmetic::div_mod::lemma_fundamental_div_mod_converse(ONE_BITS + 1, h, 127, 1);
    assert((h + 1) * pow2(126) == h * pow2(126) + pow2(126)) by (nonlinear_arith);
    assert(super::mag(ONE_BITS + 1) == one + pow2(126));
    super::lemma_mag_step(ONE_BITS - 1);
    assert(super::is_nearest(top, 1, ONE_BITS as int));
    super::lemma_nearest_range(top, 1, ONE_BITS as int);
    let s = a.units() + b.units();
    let n: nat = if s < 0 {
        (-s) as nat
    } else {
        s as nat
    };
    super::monotone::lemma_nearest_monotone(n, top, 1);
    super::monotone::lemma_nearest(n, 1);
}

/// A point on the way from one number between -1 and 1 to another lies between -1 and 1.
pub proof fn lemma_on_the_way(a: F32, b: F32, f: F32)
    requires
        a.magnitude() <= ONE_BITS,
        b.magnitude() <= ONE_BITS,
        num(0).le(f),
        f.le(num(ONE_BITS)),
    ensures
        a.plus(f.times(b.minus(a))).magnitude() <= ONE_BITS,
{
    reveal(F32::le_spec);
    reveal(F32::neg_spec);
    let one = num(ONE_BITS);
    let v = b.minus(a);
    let g = f.times(v);
    let back = a.neg();
    super::monotone::lemma_opposite(a);
    super::monotone::lemma_opposite(b);
    super::monotone::lemma_opposite(back);
    super::monotone::lemma_power(ONE_BITS as int, 0);
    lemma2_to64();
    lemma_pow2_pos(125);
    assert(super::mag(0) == 0);
    lemma_size_ordered(a.magnitude(), ONE_BITS as int);
    lemma_size_ordered(b.magnitude(), ONE_BITS as int);
    super::scale::lemma_plus_within(b, back, ONE_BITS as int);
    super::scale::lemma_plus_within(a, b.neg(), ONE_BITS as int);
    super::scale::lemma_plus_within(a, a, ONE_BITS as int);
    lemma_product_shrinks(f, v);
    lemma_size_ordered(g.magnitude(), v.magnitude());
    lemma_size_ordered(0, g.magnitude());
    lemma_size_ordered(0, v.magnitude());
    if !v.negative() {
        let h = one.minus(a);
        lemma_up_to_one(a);
        super::monotone::lemma_sum_monotone(b, back, one, back);
        super::monotone::lemma_units_ordered(v, h);
    } else {
        // the same, seen from the other side
        let h = one.minus(back);
        lemma_up_to_one(back);
        let w = a.minus(b);
        super::monotone::lemma_sum_monotone(a, b.neg(), a, one);
        let d = a.units() - b.units();
        if d != 0 {
            super::monotone::lemma_nearest(if d > 0 {
                d as nat
            } else {
                (-d) as nat
            }, 1);
        }
        assert(w.units() == -v.units()) by {
            reveal(F32::plus_spec);
        }
        assert(h.units() == a.plus(one).units()) by {
            reveal(F32::plus_spec);
        }
        super::scale::lemma_plus_within(a, one, ONE_BITS as int);
        super::monotone::lemma_units_ordered(w, a.plus(one));
    }
    lemma_rounds_to_one(a, g);
}

/// A whole number from 2 on is rounded to at least 2.
pub proof fn lemma_two_or_more(n: int)
    requires
        2 <= n < 0x1_0000_0000_0000_0000,
    ensures
        super::convert::of_int(n).finite(),
        super::convert::of_int(n).units() >= 2 * super::arith::one_units(),
        num(ONE_BITS).units() == super::arith::one_units(),
        super::arith::one_units() > 0,
{
    reveal(super::convert::of_int);
    let one = super::arith::one_units();
    super::monotone::lemma_whole_finite(n);
    super::monotone::lemma_power(ONE_BITS as int, 0);
    super::monotone::lemma_power(TWO_BITS as int, 1);
    lemma2_to64();
    lemma_pow2_pos(149);
    assert(2 * one <= n * one) by (nonlinear_arith)
        requires
            2 <= n,
            one > 0,
    ;
    super::monotone::lemma_nearest_monotone(2 * one, (n * one) as nat, 1);
    super::lemma_nearest_exact(TWO_BITS as int);
    super::monotone::lemma_nearest((n * one) as nat, 1);
    lemma_size_ordered(TWO_BITS as int, super::nearest((n * one) as nat, 1));
}

/// The root of the square of a magnitude, or of more, is not rounded to less than the magnitude.
proof fn lemma_root_at_least(n: nat, b: int)
    requires
        0 <= b < super::INF_BITS,
        super::mag(b) * super::mag(b) <= n,
    ensures
        b <= super::nearest_root(n) <= super::INF_BITS,
{
    let r = super::nearest_root(n);
    super::scale::lemma_nearest_root(n);
    if r < b {
        super::lemma_mag_step(b - 1);
        super::lemma_mag_step(r);
        super::lemma_bounds_ordered(r, b);
        let high = super::mag(r) + super::mag(r + 1);
        let m = super::mag(b);
        assert(high * high < 4 * (m * m)) by (nonlinear_arith)
            requires
                0 <= high < 2 * m,
        ;
    }
}

/// The hypotenuse is at least as long as each of the sides.
pub proof fn lemma_hypotenuse(a: F32, b: F32)
    requires
        !a.nan(),
        !b.nan(),
    ensures
        !a.hypot(b).nan(),
        !a.hypot(b).negative(),
        a.magnitude() <= a.hypot(b).magnitude(),
        b.magnitude() <= a.hypot(b).magnitude(),
{
    reveal(F32::hypot_spec);
    if a.finite() && b.finite() {
        let n = a.size() * a.size() + b.size() * b.size();
        lemma_size_ordered(0, a.magnitude());
        lemma_size_ordered(0, b.magnitude());
        lemma_size_ordered(a.magnitude(), a.magnitude());
        lemma_size_ordered(b.magnitude(), b.magnitude());
        assert(a.size() * a.size() >= 0 && b.size() * b.size() >= 0) by (nonlinear_arith);
        lemma_root_at_least(n, a.magnitude());
        lemma_root_at_least(n, b.magnitude());
    }
}

/// A difference is as large as the difference the other way round.
pub proof fn lemma_difference_size(a: F32, b: F32)
    requires
        a.finite(),
        b.finite(),
    ensures
        !a.minus(b).nan(),
        a.minus(b).magnitude() == b.minus(a).magnitude(),
{
    super::monotone::lemma_opposite(a);
    super::monotone::lemma_opposite(b);
    let d = a.units() - b.units();
    if d != 0 {
        super::monotone::lemma_nearest(if d > 0 {
            d as nat
        } else {
            (-d) as nat
        }, 1);
    }
    reveal(F32::plus_spec);
}

/// The hypotenuse over no sides is zero.
pub proof fn lemma_no_hypotenuse(a: F32, b: F32)
    requires
        a.magnitude() == 0,
        b.magnitude() == 0,
    ensures
        a.hypot(b) == num(0),
{
    reveal(F32::hypot_spec);
    assert(super::mag(0) == 0);
    super::lemma_mag_step(0);
    assert(0nat * 0nat + 0nat * 0nat == 0) by (nonlinear_arith);
    assert(super::is_nearest_root(0, 0)) by {
        let h = super::mag(0) + super::mag(1);
        assert(h * h > 0) by (nonlinear_arith)
            requires
                h > 0,
        ;
    }
    super::lemma_nearest_root_unique(0, 0, super::nearest_root(0));
}

} // verus!
