//! How far a rounded result is from the exact one.
use super::bound::ONE_BITS;
use super::{num, F32, HIDDEN};
use vstd::arithmetic::power2::*;
use vstd::prelude::*;

verus! {

/// The distance between neighbours, up to a power of two.
pub proof fn lemma_neighbours(b: int, e: nat)
    requires
        0 < b <= (e + 2) * HIDDEN,
    ensures
        0 <= super::mag(b - 1) < super::mag(b),
        super::mag(b) - super::mag(b - 1) <= pow2(e),
{
    let h = HIDDEN as int;
    super::lemma_mag_step(b - 1);
    let (k, q) = super::lemma_mag_split(b - 1);
    super::lemma_mag_parts(k, q + 1);
    assert(k <= e) by (nonlinear_arith)
        requires
            b - 1 == k * h + q,
            b <= (e + 2) * h,
            q >= h || k == 0,
            h > 0,
    ;
    if k < e {
        lemma_pow2_strictly_increases(k as nat, e);
    }
    let p = pow2(k as nat) as int;
    assert((q + 1) * p == q * p + p) by (nonlinear_arith);
}

/// A quotient up to a power of two is rounded by at most half of the distance between neighbours
/// below it.
pub proof fn lemma_rounding(n: nat, d: nat, e: nat)
    requires
        d > 0,
        e < 252,
        n <= super::mag((e + 2) * HIDDEN) * d,
    ensures
        0 <= super::nearest(n, d) <= (e + 2) * HIDDEN,
        super::mag(super::nearest(n, d)) >= 0,
        -(pow2(e) * d) <= 2 * (super::mag(super::nearest(n, d)) * d) - 2 * n <= pow2(e) * d,
{
    let top = (e + 2) * HIDDEN;
    let b = super::nearest(n, d);
    super::monotone::lemma_nearest(n, d);
    super::monotone::lemma_nearest_multiple(top, d);
    super::monotone::lemma_nearest_monotone(n, (super::mag(top) * d) as nat, d);
    let m = super::mag(b);
    super::bound::lemma_size_ordered(0, b);
    lemma_pow2_pos(e);
    assert(super::mag(0) == 0);
    if b > 0 {
        lemma_neighbours(b, e);
        let low = super::mag(b - 1);
        assert(2 * (m * d) <= (low + m) * d + pow2(e) * d) by (nonlinear_arith)
            requires
                m - low <= pow2(e),
                d > 0,
        ;
    } else {
        assert(m * d == 0) by (nonlinear_arith)
            requires
                m == 0,
        ;
        assert(pow2(e) * d >= 0) by (nonlinear_arith);
    }
    if b < top {
        lemma_neighbours(b + 1, e);
        let high = super::mag(b + 1);
        assert((m + high) * d <= 2 * (m * d) + pow2(e) * d) by (nonlinear_arith)
            requires
                high - m <= pow2(e),
                d > 0,
        ;
    } else {
        assert(pow2(e) * d >= 0) by (nonlinear_arith);
    }
}

/// A whole number of at most 24 bits whose leading bit is bit `e` is a number.
proof fn lemma_whole_with_bits(k: int, e: nat)
    requires
        e <= 23,
        pow2(e) <= k < 2 * pow2(e),
    ensures
        super::nearest((k * super::arith::one_units()) as nat, 1) < super::INF_BITS,
        super::mag(super::nearest((k * super::arith::one_units()) as nat, 1)) == k
            * super::arith::one_units(),
{
    let h = HIDDEN as int;
    let one = super::arith::one_units() as int;
    let up = pow2((23 - e) as nat) as int;
    let q = k * up;
    lemma2_to64();
    lemma_pow2_adds(e, (23 - e) as nat);
    lemma_pow2_pos((23 - e) as nat);
    lemma_pow2_pos(e);
    assert(h <= q < 2 * h) by (nonlinear_arith)
        requires
            q == k * up,
            pow2(e) <= k < 2 * pow2(e),
            pow2(e) * up == h,
            up > 0,
    ;
    let f = 126 + e as int;
    super::lemma_mag_parts(f, q);
    lemma_pow2_adds((23 - e) as nat, f as nat);
    assert(q * pow2(f as nat) == k * (up * pow2(f as nat))) by (nonlinear_arith)
        requires
            q == k * up,
    ;
    let b = f * h + q;
    assert(b < super::INF_BITS) by (nonlinear_arith)
        requires
            b == f * h + q,
            f <= 149,
            q < 2 * h,
            h == 0x80_0000,
    ;
    assert(b >= 0) by (nonlinear_arith)
        requires
            b == f * h + q,
            f >= 0,
            q >= 0,
            h > 0,
    ;
    super::lemma_nearest_exact(b);
}

/// A whole number of at most 24 bits is a number.
pub proof fn lemma_whole_is_exact(k: int)
    requires
        0 <= k < 0x100_0000,
    ensures
        super::convert::of_int(k).finite(),
        !super::convert::of_int(k).negative(),
        super::convert::of_int(k).units() == k * super::arith::one_units(),
        super::convert::of_int(k).size() == k * super::arith::one_units(),
        k > 0 ==> super::convert::of_int(k).magnitude() > 0,
        super::arith::one_units() > 0,
{
    reveal(super::convert::of_int);
    let one = super::arith::one_units();
    lemma2_to64();
    lemma_pow2_pos(149);
    assert(super::mag(0) == 0);
    if k == 0 {
        assert(0 * one == 0);
        super::lemma_nearest_zero(1);
    } else {
        let e = lemma_leading_bit(k, 23);
        lemma_whole_with_bits(k, e);
        super::monotone::lemma_nearest((k * one) as nat, 1);
        assert(k * one > 0) by (nonlinear_arith)
            requires
                k > 0,
                one > 0,
        ;
    }
}

/// The leading bit of a whole number of at most `e + 1` bits.
proof fn lemma_leading_bit(k: int, e: nat) -> (r: nat)
    requires
        0 < k < 2 * pow2(e),
    ensures
        r <= e,
        pow2(r) <= k < 2 * pow2(r),
    decreases e,
{
    if pow2(e) <= k {
        e
    } else {
        lemma2_to64();
        assert(e > 0);
        lemma_pow2_adds((e - 1) as nat, 1);
        lemma_leading_bit(k, (e - 1) as nat)
    }
}

/// A whole number divided by one that is not smaller.
pub proof fn lemma_ratio(k: int, m: int)
    requires
        0 <= k <= m < 0x100_0000,
        m > 0,
    ensures
        ({
            let q = super::convert::of_int(k).over(super::convert::of_int(m));
            let one = super::arith::one_units();
            &&& !q.negative()
            &&& q.magnitude() <= ONE_BITS
            &&& 0 <= q.units() <= one
            &&& -(m * pow2(125)) <= 2 * (q.units() * m - k * one) <= m * pow2(125)
        }),
{
    reveal(F32::over_spec);
    let one = super::arith::one_units();
    let (a, b) = (super::convert::of_int(k), super::convert::of_int(m));
    lemma_whole_is_exact(k);
    lemma_whole_is_exact(m);
    super::monotone::lemma_power(ONE_BITS as int, 0);
    lemma2_to64();
    let n = a.size() * one;
    let d = b.size();
    assert(d > 0) by (nonlinear_arith)
        requires
            d == m * one,
            m > 0,
            one > 0,
    ;
    assert(n <= one * d) by (nonlinear_arith)
        requires
            n == (k * one) * one,
            d == m * one,
            0 <= k <= m,
            one > 0,
    ;
    lemma_rounding(n, d, 125);
    let v = super::mag(super::nearest(n, d));
    super::bound::lemma_size_ordered(super::nearest(n, d), ONE_BITS as int);
    // both sides are multiples of one
    let x = 2 * (v * m - k * one);
    let y = m * pow2(125);
    assert(x * one == 2 * (v * d) - 2 * n) by (nonlinear_arith)
        requires
            x == 2 * (v * m - k * one),
            n == (k * one) * one,
            d == m * one,
    ;
    assert(y * one == pow2(125) * d) by (nonlinear_arith)
        requires
            y == m * pow2(125),
            d == m * one,
    ;
    assert(-y <= x <= y) by (nonlinear_arith)
        requires
            -(y * one) <= x * one <= y * one,
            one > 0,
    ;
}

/// One minus a number between 0 and 1.
pub proof fn lemma_one_minus(q: F32)
    requires
        !q.negative() || q.magnitude() == 0,
        q.magnitude() <= ONE_BITS,
    ensures
        ({
            let s = num(ONE_BITS).minus(q);
            let one = super::arith::one_units();
            &&& !s.negative()
            &&& s.magnitude() <= ONE_BITS
            &&& 0 <= s.units() <= one
            &&& -pow2(125) <= 2 * (s.units() - (one - q.units())) <= pow2(125)
        }),
        num(ONE_BITS).units() == super::arith::one_units(),
{
    reveal(F32::plus_spec);
    let one = super::arith::one_units();
    super::monotone::lemma_power(ONE_BITS as int, 0);
    lemma2_to64();
    lemma_pow2_pos(125);
    assert(super::mag(0) == 0);
    super::bound::lemma_size_ordered(q.magnitude(), ONE_BITS as int);
    super::monotone::lemma_opposite(q);
    let n = (one - q.units()) as nat;
    lemma_rounding(n, 1, 125);
    super::bound::lemma_size_ordered(super::nearest(n, 1), ONE_BITS as int);
}

/// A part of a whole number of at most 22 bits.
pub proof fn lemma_part_of(f: F32, m: int)
    requires
        !f.negative(),
        f.magnitude() <= ONE_BITS,
        0 < m <= 0x40_0000,
    ensures
        ({
            let g = f.times(super::convert::of_int(m));
            let one = super::arith::one_units();
            &&& !g.negative()
            &&& g.finite()
            &&& 0 <= g.units() <= m * one
            &&& -pow2(147) <= 2 * (g.units() - f.units() * m) <= pow2(147)
        }),
{
    reveal(F32::times_spec);
    let one = super::arith::one_units();
    let b = super::convert::of_int(m);
    lemma_whole_is_exact(m);
    super::monotone::lemma_power(ONE_BITS as int, 0);
    super::monotone::lemma_power(149 * HIDDEN as int, 22);
    lemma2_to64();
    super::bound::lemma_size_ordered(f.magnitude(), ONE_BITS as int);
    let n = f.size() * b.size();
    assert(n == (f.units() * m) * one) by (nonlinear_arith)
        requires
            n == f.size() * b.size(),
            f.size() == f.units(),
            b.size() == m * one,
    ;
    assert(n <= (0x40_0000 * one) * one) by (nonlinear_arith)
        requires
            n == (f.units() * m) * one,
            0 <= f.units() <= one,
            0 < m <= 0x40_0000,
    ;
    lemma_rounding(n, one, 147);
    super::bound::lemma_product_shrinks(f, b);
    super::bound::lemma_size_ordered(f.times(b).magnitude(), b.magnitude());
    let v = super::mag(super::nearest(n, one));
    let x = 2 * (v - f.units() * m);
    let y = pow2(147) as int;
    assert(x * one == 2 * (v * one) - 2 * n) by (nonlinear_arith)
        requires
            x == 2 * (v - f.units() * m),
            n == (f.units() * m) * one,
    ;
    assert(-y <= x <= y) by (nonlinear_arith)
        requires
            -(y * one) <= x * one <= y * one,
            one > 0,
    ;
}

/// A quotient that is not tiny is rounded by at most one part in 2 to the power of 24.
pub proof fn lemma_relative(n: nat, d: nat)
    requires
        d > 0,
        HIDDEN <= super::nearest(n, d) < super::INF_BITS,
    ensures
        0x100_0000 * n <= 0x100_0001 * (super::mag(super::nearest(n, d)) * d),
{
    let b = super::nearest(n, d);
    super::monotone::lemma_nearest(n, d);
    let h = HIDDEN as int;
    let (k, q) = super::lemma_mag_split(b);
    super::lemma_mag_parts(k, q + 1);
    assert(q >= h) by {
        if k == 0 {
            assert(0 * h == 0);
        }
    }
    let p = pow2(k as nat) as int;
    lemma_pow2_pos(k as nat);
    let m = super::mag(b);
    assert((q + 1) * p == q * p + p) by (nonlinear_arith);
    assert(h * p <= m) by (nonlinear_arith)
        requires
            m == q * p,
            q >= h,
            p > 0,
    ;
    assert((m + (m + p)) * d == 2 * (m * d) + p * d) by (nonlinear_arith);
    assert(h * (p * d) <= m * d) by (nonlinear_arith)
        requires
            h * p <= m,
            d > 0,
    ;
}

/// A number up to 2 to the power of 23, as the whole number of steps that reaches it.
pub proof fn lemma_steps_reach(r: F32)
    requires
        r.finite(),
        !r.negative(),
        r.units() <= 0x80_0000 * super::arith::one_units(),
    ensures
        ({
            let n = r.ceil().max(num(ONE_BITS)).to_usize();
            1 <= n <= 0x80_0001 && r.units() <= n * super::arith::one_units()
        }),
{
    reveal(F32::ceil_spec);
    reveal(F32::max_spec);
    reveal(F32::lt_spec);
    reveal(super::convert::truncated);
    reveal(super::convert::of_int);
    let one = super::arith::one_units() as int;
    lemma_pow2_pos(149);
    let v = r.size() as int;
    assert(super::mag(0) == 0);
    super::bound::lemma_size_ordered(0, r.magnitude());
    let w = v / one;
    vstd::arithmetic::div_mod::lemma_fundamental_div_mod(v, one);
    vstd::arithmetic::div_mod::lemma_mod_bound(v, one);
    assert(0 <= w <= 0x80_0000) by (nonlinear_arith)
        requires
            v == one * w + v % one,
            0 <= v % one < one,
            0 <= v <= 0x80_0000 * one,
            one > 0,
    ;
    let k: int = if super::convert::fractional(r) {
        w + 1
    } else {
        w
    };
    assert(v <= k * one) by (nonlinear_arith)
        requires
            v == one * w + v % one,
            v % one < one,
            k == w + 1 || (k == w && v % one == 0),
            one > 0,
    ;
    let c = r.ceil();
    assert(c == super::convert::of_int(k));
    lemma_whole_is_exact(k);
    super::monotone::lemma_power(ONE_BITS as int, 0);
    lemma2_to64();
    let top = c.max(num(ONE_BITS));
    if k == 0 {
        assert(k * one == 0) by (nonlinear_arith)
            requires
                k == 0,
        ;
        super::bound::lemma_size_ordered(c.magnitude(), 0);
        assert(top == num(ONE_BITS));
        vstd::arithmetic::div_mod::lemma_div_by_self(one);
    } else {
        assert(k * one >= one) by (nonlinear_arith)
            requires
                k >= 1,
                one > 0,
        ;
        super::bound::lemma_size_ordered(ONE_BITS as int, c.magnitude());
        assert(top.size() == k * one);
        vstd::arithmetic::div_mod::lemma_div_multiples_vanish(k, one);
        assert(one * k == k * one) by (nonlinear_arith);
    }
}

/// The product of a number up to 4 and one between 0 and 1.
pub proof fn lemma_product_error(d: F32, t: F32)
    requires
        d.magnitude() <= super::bound::FOUR_BITS,
        !t.negative(),
        t.magnitude() <= ONE_BITS,
    ensures
        ({
            let w = d.times(t);
            let one = super::arith::one_units();
            &&& w.magnitude() <= super::bound::FOUR_BITS
            &&& -(pow2(127) * one) <= 2 * (w.units() * one - d.units() * t.units()) <= pow2(127) * one
        }),
{
    reveal(F32::times_spec);
    let one = super::arith::one_units();
    super::monotone::lemma_power(ONE_BITS as int, 0);
    super::monotone::lemma_power(super::bound::FOUR_BITS as int, 2);
    lemma2_to64();
    lemma_pow2_pos(149);
    super::bound::lemma_size_ordered(t.magnitude(), ONE_BITS as int);
    super::bound::lemma_size_ordered(d.magnitude(), super::bound::FOUR_BITS as int);
    let n = d.size() * t.size();
    assert(n <= (4 * one) * one) by (nonlinear_arith)
        requires
            n == d.size() * t.size(),
            d.size() <= 4 * one,
            t.size() <= one,
    ;
    lemma_rounding(n, one, 127);
    let v = super::mag(super::nearest(n, one));
    let w = d.times(t);
    let (x, y) = (d.units(), t.units());
    if d.negative() {
        assert(x * y == -n) by (nonlinear_arith)
            requires
                x == -d.size(),
                y == t.size(),
                n == d.size() * t.size(),
        ;
        assert(w.units() * one == -(v * one)) by (nonlinear_arith)
            requires
                w.units() == -v,
        ;
    } else {
        assert(x * y == n);
        assert(w.units() == v);
    }
}

/// A sum up to 8.
pub proof fn lemma_sum_error(a: F32, b: F32)
    requires
        a.magnitude() <= super::bound::FOUR_BITS,
        b.magnitude() <= super::bound::FOUR_BITS,
    ensures
        -pow2(128) <= 2 * (a.plus(b).units() - (a.units() + b.units())) <= pow2(128),
{
    reveal(F32::plus_spec);
    let one = super::arith::one_units();
    super::monotone::lemma_power(super::bound::FOUR_BITS as int, 2);
    super::monotone::lemma_power(super::bound::EIGHT_BITS as int, 3);
    lemma2_to64();
    lemma_pow2_pos(128);
    assert(super::mag(0) == 0);
    super::bound::lemma_size_ordered(a.magnitude(), super::bound::FOUR_BITS as int);
    super::bound::lemma_size_ordered(b.magnitude(), super::bound::FOUR_BITS as int);
    let s = a.units() + b.units();
    let n: nat = if s < 0 {
        (-s) as nat
    } else {
        s as nat
    };
    lemma_rounding(n, 1, 128);
}

/// The hypotenuse of sides up to 4.
pub proof fn lemma_hypotenuse_error(a: F32, b: F32)
    requires
        a.magnitude() <= super::bound::FOUR_BITS,
        b.magnitude() <= super::bound::FOUR_BITS,
    ensures
        ({
            let r = a.hypot(b);
            let reach = r.units() + pow2(127);
            &&& !r.negative()
            &&& r.magnitude() < super::bound::EIGHT_BITS
            &&& 0 <= r.units() <= 8 * super::arith::one_units()
            &&& a.units() * a.units() + b.units() * b.units() <= reach * reach
        }),
{
    reveal(F32::hypot_spec);
    let one = super::arith::one_units() as int;
    super::monotone::lemma_power(super::bound::FOUR_BITS as int, 2);
    super::monotone::lemma_power(super::bound::EIGHT_BITS as int, 3);
    lemma2_to64();
    lemma_pow2_pos(149);
    lemma_pow2_adds(127, 1);
    super::bound::lemma_size_ordered(a.magnitude(), super::bound::FOUR_BITS as int);
    super::bound::lemma_size_ordered(b.magnitude(), super::bound::FOUR_BITS as int);
    let n = a.size() * a.size() + b.size() * b.size();
    assert(a.size() * a.size() <= 16 * (one * one)) by (nonlinear_arith)
        requires
            0 <= a.size() <= 4 * one,
    ;
    assert(b.size() * b.size() <= 16 * (one * one)) by (nonlinear_arith)
        requires
            0 <= b.size() <= 4 * one,
    ;
    assert(a.units() * a.units() == a.size() * a.size()) by (nonlinear_arith)
        requires
            a.units() == a.size() || a.units() == -a.size(),
    ;
    assert(b.units() * b.units() == b.size() * b.size()) by (nonlinear_arith)
        requires
            b.units() == b.size() || b.units() == -b.size(),
    ;
    assert(n >= 0) by (nonlinear_arith)
        requires
            n == a.size() * a.size() + b.size() * b.size(),
    ;
    let r = super::nearest_root(n);
    super::scale::lemma_nearest_root(n);
    let top = super::bound::EIGHT_BITS as int;
    if r >= top {
        super::bound::lemma_size_ordered(super::bound::FOUR_BITS as int, r - 1);
        super::bound::lemma_size_ordered(top, r);
        let low = super::mag(r - 1) + super::mag(r);
        assert(low * low > 4 * (32 * (one * one))) by (nonlinear_arith)
            requires
                low >= 12 * one,
                one > 0,
        ;
    }
    super::bound::lemma_size_ordered(r, top);
    lemma_neighbours(r + 1, 128);
    let m = super::mag(r);
    let high = m + super::mag(r + 1);
    let reach = m + pow2(127);
    assert(high * high <= 4 * (reach * reach)) by (nonlinear_arith)
        requires
            0 <= high <= 2 * reach,
    ;
}

} // verus!
