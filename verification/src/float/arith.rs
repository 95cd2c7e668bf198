//! Addition, multiplication, division and square roots, each rounded once.
use super::{bit_length, num, round, round_exact, F32, HIDDEN, INF_BITS, NAN_BITS, SIGN_BIT};
use vstd::arithmetic::div_mod::*;
use vstd::arithmetic::mul::*;
use vstd::arithmetic::power2::*;
use vstd::bits::*;
use vstd::prelude::*;

verus! {

/// `2^149`: the number of units in one.
pub open spec fn one_units() -> nat {
    pow2(149)
}

/// The number of the given sign and magnitude.
pub(super) fn pack(negative: bool, magnitude: u32) -> (r: F32)
    requires
        magnitude <= INF_BITS,
    ensures
        r == super::signed(negative, magnitude as int),
{
    if negative {
        num(magnitude + SIGN_BIT)
    } else {
        num(magnitude)
    }
}

impl F32 {
    /// Significand and exponent of a finite number, whose size is `m * 2^e` units.
    pub(super) fn unpack(self) -> (r: (u64, i32))
        requires
            self.finite(),
        ensures
            self.size() == r.0 * pow2(r.1 as nat),
            0 <= r.1 <= 253,
            r.0 < 2 * HIDDEN,
            r.1 > 0 ==> r.0 >= HIDDEN,
            (r.0 == 0) == (self.magnitude() == 0),
    {
        let (_, b) = self.split();
        if b < HIDDEN {
            proof {
                super::lemma_mag_parts(0, b as int);
            }
            (b as u64, 0)
        } else {
            let e: u32 = b / HIDDEN - 1;
            let m: u32 = b % HIDDEN + HIDDEN;
            proof {
                lemma_fundamental_div_mod(b as int, HIDDEN as int);
                assert(b as int == e * HIDDEN + m) by (nonlinear_arith)
                    requires
                        b as int == HIDDEN as int * (e + 1) + (m - HIDDEN),
                ;
                super::lemma_mag_parts(e as int, m as int);
                assert(e <= 253);
                let x = m as nat * pow2(e as nat);
                assert(super::mag(self.magnitude()) == m as int * pow2(e as nat));
                assert(x >= 0);
            }
            (m as u64, e as i32)
        }
    }
}


// ---------------------------------------------------------------------------------------------
// Addition
// ---------------------------------------------------------------------------------------------
/// The sum of `(m << 15) * 2^e` and something smaller than `2^e`.
proof fn lemma_far_sum(x: F32, y: F32, mx: nat, ex: nat, my: nat, ey: nat)
    requires
        x.size() == mx * pow2(ex),
        y.size() == my * pow2(ey),
        my < 2 * HIDDEN,
        ex >= ey + 39,
    ensures
        x.size() == (mx * 0x8000) * pow2((ex - 15) as nat),
        y.size() < pow2((ex - 15) as nat),
        my > 0 ==> y.size() > 0,
{
    lemma2_to64();
    lemma_pow2_adds((ex - 15) as nat, 15);
    let u = pow2((ex - 15) as nat) as int;
    assert(mx * (u * 0x8000) == (mx * 0x8000) * u) by (nonlinear_arith);
    lemma_pow2_adds(24, ey);
    lemma_pow2_pos(ey);
    let p = pow2(ey) as int;
    assert(my * p < 0x100_0000 * p) by (nonlinear_arith)
        requires
            my < 0x100_0000,
            p > 0,
    ;
    assert(my > 0 ==> my * p > 0) by (nonlinear_arith)
        requires
            p > 0,
    ;
    if ey + 24 < ex - 15 {
        lemma_pow2_strictly_increases(ey + 24, (ex - 15) as nat);
    }
}

/// The sum of two finite numbers of which the first has the larger exponent.
fn add_finite(x: F32, y: F32, mx: u64, ex: i32, my: u64, ey: i32, same_sign: bool) -> (r: (
    bool,
    u32,
))
    requires
        x.finite(),
        y.finite(),
        x.size() == mx * pow2(ex as nat),
        y.size() == my * pow2(ey as nat),
        mx < 2 * HIDDEN,
        my < 2 * HIDDEN,
        0 <= ey <= ex <= 253,
        ex > 0 ==> mx >= HIDDEN,
        same_sign == (x.negative() == y.negative()),
    ensures
        ({
            let exact: int = if same_sign {
                (x.size() + y.size()) as int
            } else {
                x.size() - y.size()
            };
            // does the second number decide the sign?
            &&& r.0 == (exact < 0)
            &&& r.1 == super::nearest(
                (if exact < 0 {
                    -exact
                } else {
                    exact
                }) as nat,
                1,
            )
            &&& r.1 <= INF_BITS
            &&& (r.1 == 0) == (exact == 0)
        }),
{
    let ghost sx = x.size() as int;
    let ghost sy = y.size() as int;
    let gap: i32 = ex - ey;
    if gap > 38 {
        proof {
            lemma_far_sum(x, y, mx as nat, ex as nat, my as nat, ey as nat);
            lemma2_to64();
            lemma_pow2_pos((ex - 15) as nat);
        }
        let ghost u = pow2((ex - 15) as nat) as int;
        let wide: u64 = mx * 0x8000;
        let inexact = my != 0;
        assert(super::down(ex - 15) == 1);
        assert(super::up(ex - 15) == u);
        if same_sign || !inexact {
            let b = round(wide, ex - 15, inexact);
            proof {
                let n: nat = (sx + sy) as nat;
                assert((wide + 1) * (1 * u) == wide * u + u) by (nonlinear_arith);
                assert(wide * (1 * u) == wide * u);
                assert(my == 0 ==> sy == 0) by (nonlinear_arith)
                    requires
                        sy == my * pow2(ey as nat),
                ;
                super::lemma_quotient(wide as int, ex - 15, inexact, b as int, n, 1);
                assert(sx >= u) by (nonlinear_arith)
                    requires
                        sx == (mx * 0x8000) * u,
                        mx >= 1,
                        u > 0,
                ;
                lemma_nonzero(n, b as int);
            }
            (false, b)
        } else {
            let b = round(wide - 1, ex - 15, true);
            proof {
                let n: nat = (sx - sy) as nat;
                assert((wide - 1) * (1 * u) == wide * u - u) by (nonlinear_arith);
                assert((wide - 1 + 1) * (1 * u) == wide * u);
                assert(sx >= 2 * u) by (nonlinear_arith)
                    requires
                        sx == (mx * 0x8000) * u,
                        mx >= 1,
                        u > 0,
                ;
                super::lemma_quotient(wide - 1, ex - 15, true, b as int, n, 1);
                lemma_nonzero(n, b as int);
            }
            (false, b)
        }
    } else {
        let ghost p = pow2(ey as nat) as int;
        let ghost t = pow2(gap as nat) as int;
        proof {
            lemma2_to64();
            lemma2_to64_rest();
            lemma_pow2_adds(ey as nat, gap as nat);
            lemma_pow2_pos(ey as nat);
            lemma_pow2_pos(gap as nat);
            if gap < 38 {
                lemma_pow2_strictly_increases(gap as nat, 38);
            }
            assert(mx * t <= 0xff_ffff * 0x40_0000_0000) by (nonlinear_arith)
                requires
                    mx <= 0xff_ffff,
                    0 < t <= 0x40_0000_0000,
            ;
            lemma_u64_shl_is_mul(mx, gap as u64);
            assert(mx * (p * t) == (mx * t) * p) by (nonlinear_arith);
        }
        let wide: u64 = mx << (gap as u64);
        assert(sx == wide * p);
        assert(sy == my * p);
        let (negative, total): (bool, u64) = if same_sign {
            (false, wide + my)
        } else if wide >= my {
            (false, wide - my)
        } else {
            (true, my - wide)
        };
        proof {
            let exact = if same_sign {
                sx + sy
            } else {
                sx - sy
            };
            assert(exact == (if negative {
                -(total as int)
            } else {
                total as int
            }) * p) by (nonlinear_arith)
                requires
                    sx == wide * p,
                    sy == my * p,
                    exact == (if same_sign {
                        sx + sy
                    } else {
                        sx - sy
                    }),
                    !same_sign && wide >= my ==> !negative && total == wide - my,
                    !same_sign && wide < my ==> negative && total == my - wide,
                    same_sign ==> !negative && total == wide + my,
            ;
            assert(total > 0 ==> total * p > 0) by (nonlinear_arith)
                requires
                    p > 0,
            ;
            assert(-(total as int) * p == -(total * p)) by (nonlinear_arith);
        }
        if total == 0 {
            proof {
                super::lemma_nearest_zero(1);
            }
            return (false, 0);
        }
        let b = round_exact(total, ey);
        proof {
            let n: nat = (total * p) as nat;
            assert(super::down(ey as int) == 1);
            assert(super::up(ey as int) == p);
            assert(n * 1 == total as int * (1 * p));
            super::lemma_quotient(total as int, ey as int, false, b as int, n, 1);
            lemma_nonzero(n, b as int);
        }
        (negative, b)
    }
}

/// A positive whole number of units does not round to zero.
proof fn lemma_nonzero(n: nat, b: int)
    requires
        n > 0,
        super::is_nearest(n, 1, b),
    ensures
        b != 0,
{
    assert(super::mag(0) == 0 && super::mag(1) == 1);
}

/// The exact sum, rounded. An exact sum of zero is the positive zero, unless both numbers are
/// negative zeros.
pub open spec fn add_spec(a: F32, b: F32) -> F32 {
    if a.nan() || b.nan() {
        num(NAN_BITS)
    } else if a.infinite() {
        if b.infinite() && a.negative() != b.negative() {
            num(NAN_BITS)
        } else {
            a
        }
    } else if b.infinite() {
        b
    } else {
        let sum = a.units() + b.units();
        if sum == 0 {
            super::signed(a.negative() && b.negative(), 0)
        } else if sum > 0 {
            super::signed(false, super::nearest(sum as nat, 1))
        } else {
            super::signed(true, super::nearest((-sum) as nat, 1))
        }
    }
}

impl F32 {
    /// `self + other`.
    #[verifier::opaque]
    pub open spec fn plus_spec(self, other: F32) -> F32 {
        add_spec(self, other)
    }

    /// `self + other`.
    #[verifier::when_used_as_spec(plus_spec)]
    pub fn plus(self, other: F32) -> (r: F32)
        ensures
            r == self.plus(other),
    {
        reveal(F32::plus_spec);
        if self.is_nan() || other.is_nan() {
            return num(NAN_BITS);
        }
        let (na, a) = self.split();
        let (nb, b) = other.split();
        if a == INF_BITS {
            return if b == INF_BITS && na != nb {
                num(NAN_BITS)
            } else {
                self
            };
        }
        if b == INF_BITS {
            return other;
        }
        let (ma, ea) = self.unpack();
        let (mb, eb) = other.unpack();
        proof {
            lemma_size(self);
            lemma_size(other);
        }
        if ea >= eb {
            let (turned, magnitude) = add_finite(self, other, ma, ea, mb, eb, na == nb);
            if magnitude == 0 {
                return pack(na && nb, 0);
            }
            pack(na != turned, magnitude)
        } else {
            let (turned, magnitude) = add_finite(other, self, mb, eb, ma, ea, na == nb);
            if magnitude == 0 {
                return pack(na && nb, 0);
            }
            pack(nb != turned, magnitude)
        }
    }

    /// `self - other`.
    #[verifier::inline]
    pub open spec fn minus_spec(self, other: F32) -> F32 {
        self.plus(other.neg())
    }

    /// `self - other`.
    #[verifier::when_used_as_spec(minus_spec)]
    pub fn minus(self, other: F32) -> (r: F32)
        ensures
            r == self.minus(other),
    {
        self.plus(other.neg())
    }
}

/// The size of a finite number is its magnitude's value.
proof fn lemma_size(x: F32)
    requires
        x.finite(),
    ensures
        x.size() == super::mag(x.magnitude()),
        x.units() == if x.negative() {
            -(x.size() as int)
        } else {
            x.size() as int
        },
        x.size() == 0 <==> x.magnitude() == 0,
{
    if x.magnitude() > 0 {
        super::lemma_mag_ordered(0, x.magnitude());
    }
}

// ---------------------------------------------------------------------------------------------
// Multiplication and division
// ---------------------------------------------------------------------------------------------
/// The exact product, rounded.
pub open spec fn mul_spec(a: F32, b: F32) -> F32 {
    let negative = a.negative() != b.negative();
    if a.nan() || b.nan() {
        num(NAN_BITS)
    } else if a.infinite() || b.infinite() {
        if a.magnitude() == 0 || b.magnitude() == 0 {
            num(NAN_BITS)
        } else {
            super::signed(negative, INF_BITS as int)
        }
    } else {
        super::signed(negative, super::nearest(a.size() * b.size(), one_units()))
    }
}

/// The exact quotient, rounded.
pub open spec fn div_spec(a: F32, b: F32) -> F32 {
    let negative = a.negative() != b.negative();
    if a.nan() || b.nan() {
        num(NAN_BITS)
    } else if a.infinite() {
        if b.infinite() {
            num(NAN_BITS)
        } else {
            super::signed(negative, INF_BITS as int)
        }
    } else if b.infinite() {
        super::signed(negative, 0)
    } else if b.magnitude() == 0 {
        if a.magnitude() == 0 {
            num(NAN_BITS)
        } else {
            super::signed(negative, INF_BITS as int)
        }
    } else {
        super::signed(negative, super::nearest(a.size() * one_units(), b.size()))
    }
}

/// A product of significands, against the product of the numbers.
proof fn lemma_product(x: nat, y: nat, mx: nat, ex: nat, my: nat, ey: nat, b: int)
    requires
        x == mx * pow2(ex),
        y == my * pow2(ey),
        super::lands((mx * my) as int, ex + ey - 149, false, b),
    ensures
        b == super::nearest(x * y, one_units()),
{
    let e = ex + ey - 149;
    let p = pow2(ex) as int;
    let q = pow2(ey) as int;
    super::lemma_scales(e, (ex + ey) as int);
    lemma_pow2_adds(ex, ey);
    assert(((ex + ey) - e) as nat == 149);
    assert(pow2((ex + ey) as nat) == p * q);
    lemma_pow2_pos(149);
    let m = mx * my;
    let d = one_units();
    assert(x * y == m * (p * q)) by (nonlinear_arith)
        requires
            x == mx * p,
            y == my * q,
            m == mx * my,
    ;
    let dn = super::down(e);
    let u = super::up(e);
    assert((x * y) * dn == m * (d * u)) by (nonlinear_arith)
        requires
            x * y == m * (p * q),
            (p * q) * dn == d * u,
    ;
    super::lemma_quotient(m as int, e, false, b, x * y, d);
}

/// A quotient of significands, against the quotient of the numbers.
proof fn lemma_ratio(
    x: nat,
    y: nat,
    mx: nat,
    ex: nat,
    my: nat,
    ey: nat,
    k: nat,
    q: nat,
    rem: nat,
    b: int,
)
    requires
        x == mx * pow2(ex),
        y == my * pow2(ey),
        my > 0,
        (mx * pow2(k)) * pow2(39) == q * my + rem,
        rem < my,
        super::lands(q as int, ex - k - 39 - ey + 149, rem != 0, b),
    ensures
        b == super::nearest(x * one_units(), y),
{
    let e: int = ex - k - 39 - ey + 149;
    super::lemma_scales(e, (ex + 149) as int);
    lemma_pow2_adds(ex, 149);
    lemma_pow2_adds(k, 39);
    lemma_pow2_adds(k + 39, ey);
    assert(((ex + 149) - e) as nat == k + 39 + ey);
    lemma_pow2_pos(ey);
    let dn = super::down(e);
    let u = super::up(e);
    let pk = pow2(k) as int;
    let p39 = pow2(39) as int;
    let pey = pow2(ey) as int;
    let pex = pow2(ex) as int;
    let one = one_units() as int;
    let n = x * one_units();
    assert((pex * one) * dn == ((pk * p39) * pey) * u);
    assert(n * dn == (q * my + rem) * (pey * u)) by (nonlinear_arith)
        requires
            n == x * one,
            x == mx * pex,
            (pex * one) * dn == ((pk * p39) * pey) * u,
            (mx * pk) * p39 == q * my + rem,
    {
        assert(n * dn == mx * ((pex * one) * dn));
        assert(mx * (((pk * p39) * pey) * u) == ((mx * pk) * p39) * (pey * u));
    }
    assert(y * u == my * (pey * u)) by (nonlinear_arith)
        requires
            y == my * pey,
    ;
    let w = pey * u;
    assert(w > 0) by (nonlinear_arith)
        requires
            w == pey * u,
            pey > 0,
            u > 0,
    ;
    assert(n * dn == q * (y * u) + rem * w) by (nonlinear_arith)
        requires
            n * dn == (q * my + rem) * w,
            y * u == my * w,
    ;
    assert((q + 1) * (y * u) == q * (y * u) + my * w) by (nonlinear_arith)
        requires
            y * u == my * w,
    ;
    assert(0 <= rem * w < my * w && (rem > 0 ==> rem * w > 0) && (rem == 0 ==> rem * w == 0))
        by (nonlinear_arith)
        requires
            0 <= rem < my,
            w > 0,
    ;
    assert(y > 0) by (nonlinear_arith)
        requires
            y == my * pey,
            my > 0,
            pey > 0,
    ;
    super::lemma_quotient(q as int, e, rem != 0, b, n, y);
}

impl F32 {
    /// `self * other`.
    #[verifier::opaque]
    pub open spec fn times_spec(self, other: F32) -> F32 {
        mul_spec(self, other)
    }

    /// `self * other`.
    #[verifier::when_used_as_spec(times_spec)]
    pub fn times(self, other: F32) -> (r: F32)
        ensures
            r == self.times(other),
    {
        reveal(F32::times_spec);
        if self.is_nan() || other.is_nan() {
            return num(NAN_BITS);
        }
        let (na, a) = self.split();
        let (nb, b) = other.split();
        if a == INF_BITS || b == INF_BITS {
            return if a == 0 || b == 0 {
                num(NAN_BITS)
            } else {
                pack(na != nb, INF_BITS)
            };
        }
        let (ma, ea) = self.unpack();
        let (mb, eb) = other.unpack();
        proof {
            lemma_size(self);
            lemma_size(other);
        }
        if ma == 0 || mb == 0 {
            proof {
                lemma_pow2_pos(149);
                let x = self.size();
                let y = other.size();
                assert(x * y == 0) by (nonlinear_arith)
                    requires
                        x == 0 || y == 0,
                ;
                super::lemma_nearest_zero(one_units());
            }
            return pack(na != nb, 0);
        }
        assert(0 < ma * mb <= 0xff_ffff * 0xff_ffff) by (nonlinear_arith)
            requires
                0 < ma <= 0xff_ffff,
                0 < mb <= 0xff_ffff,
        ;
        let magnitude = round_exact(ma * mb, ea + eb - 149);
        proof {
            lemma_product(
                self.size(),
                other.size(),
                ma as nat,
                ea as nat,
                mb as nat,
                eb as nat,
                magnitude as int,
            );
        }
        pack(na != nb, magnitude)
    }

    /// `self / other`.
    #[verifier::opaque]
    pub open spec fn over_spec(self, other: F32) -> F32 {
        div_spec(self, other)
    }

    /// `self / other`.
    #[verifier::when_used_as_spec(over_spec)]
    pub fn over(self, other: F32) -> (r: F32)
        ensures
            r == self.over(other),
    {
        reveal(F32::over_spec);
        if self.is_nan() || other.is_nan() {
            return num(NAN_BITS);
        }
        let (na, a) = self.split();
        let (nb, b) = other.split();
        if a == INF_BITS {
            return if b == INF_BITS {
                num(NAN_BITS)
            } else {
                pack(na != nb, INF_BITS)
            };
        }
        if b == INF_BITS {
            return pack(na != nb, 0);
        }
        if b == 0 {
            return if a == 0 {
                num(NAN_BITS)
            } else {
                pack(na != nb, INF_BITS)
            };
        }
        let (ma, ea) = self.unpack();
        let (mb, eb) = other.unpack();
        proof {
            lemma_size(self);
            lemma_size(other);
        }
        if ma == 0 {
            proof {
                let x = self.size();
                assert(x * one_units() == 0) by (nonlinear_arith)
                    requires
                        x == 0,
                ;
                super::lemma_nearest_zero(other.size());
            }
            return pack(na != nb, 0);
        }
        let len = bit_length(ma);
        proof {
            lemma2_to64();
            lemma2_to64_rest();
            super::lemma_length_bounds(ma, len);
        }
        let k: u64 = 24 - len as u64;
        let ghost p = pow2(k as nat) as int;
        proof {
            lemma_pow2_pos(k as nat);
            lemma_pow2_adds(len as nat, k as nat);
            lemma_pow2_adds((len - 1) as nat, k as nat);
            let low = pow2((len - 1) as nat) as int;
            let high = pow2(len as nat) as int;
            assert(low * p <= ma * p < high * p) by (nonlinear_arith)
                requires
                    low <= ma < high,
                    p > 0,
            ;
            lemma_u64_shl_is_mul(ma, k);
        }
        let wide: u64 = (ma << k) * 0x80_0000_0000;
        let q: u64 = wide / mb;
        let rem: u64 = wide % mb;
        proof {
            lemma_fundamental_div_mod(wide as int, mb as int);
            assert(wide == q * mb + rem) by (nonlinear_arith)
                requires
                    wide as int == mb as int * q as int + rem as int,
            ;
            assert(q >= 0x200_0000) by (nonlinear_arith)
                requires
                    wide == q * mb + rem,
                    rem < mb,
                    0 < mb <= 0xff_ffff,
                    wide >= 0x4000_0000_0000_0000,
            ;
            assert(q <= wide) by (nonlinear_arith)
                requires
                    wide == q * mb + rem,
                    mb >= 1,
            ;
        }
        let magnitude = round(q, ea - k as i32 - 39 - eb + 149, rem != 0);
        proof {
            lemma_ratio(
                self.size(),
                other.size(),
                ma as nat,
                ea as nat,
                mb as nat,
                eb as nat,
                k as nat,
                q as nat,
                rem as nat,
                magnitude as int,
            );
        }
        pack(na != nb, magnitude)
    }
}

// ---------------------------------------------------------------------------------------------
// Square roots
// ---------------------------------------------------------------------------------------------
/// The whole part of the square root of `x`.
fn whole_root(x: u128) -> (r: u64)
    requires
        x < 0x4000_0000_0000_0000_0000_0000_0000_0000,
    ensures
        r * r <= x < (r + 1) * (r + 1),
        r < 0x8000_0000_0000_0000,
{
    let mut root: u128 = 0;
    let mut bit: u128 = 0x4000_0000_0000_0000;
    let mut i: u32 = 63;
    proof {
        lemma2_to64();
        lemma2_to64_rest();
    }
    assert(0x8000_0000_0000_0000u128 * 0x8000_0000_0000_0000u128
        == 0x4000_0000_0000_0000_0000_0000_0000_0000) by (nonlinear_arith);
    while i > 0
        invariant
            i <= 63,
            i > 0 ==> bit > 0,
            root * root <= x,
            i > 0 ==> x < (root + 2 * bit) * (root + 2 * bit),
            i == 0 ==> x < (root + 1) * (root + 1),
            i > 0 ==> bit == pow2((i - 1) as nat),
            i > 0 ==> root + 2 * bit <= 0x8000_0000_0000_0000,
            i == 0 ==> root < 0x8000_0000_0000_0000,
        decreases i,
    {
        let next: u128 = root + bit;
        assert(next * next <= 0x8000_0000_0000_0000 * 0x8000_0000_0000_0000) by (nonlinear_arith)
            requires
                0 <= next <= 0x8000_0000_0000_0000,
        ;
        if next * next <= x {
            root = next;
        }
        proof {
            lemma2_to64();
            if i > 1 {
                lemma_pow2_adds((i - 2) as nat, 1);
                lemma_pow2_pos((i - 2) as nat);
            }
        }
        bit = bit / 2;
        i = i - 1;
    }
    root as u64
}

/// The exact square root, rounded.
pub open spec fn sqrt_of(a: F32) -> F32 {
    if a.nan() {
        num(NAN_BITS)
    } else if a.magnitude() == 0 {
        a
    } else if a.negative() {
        num(NAN_BITS)
    } else if a.infinite() {
        a
    } else {
        super::signed(false, super::nearest_root(a.size() * one_units()))
    }
}

/// The exact length of the hypotenuse, rounded. It is infinite where a side is.
pub open spec fn hypot_of(a: F32, b: F32) -> F32 {
    if a.infinite() || b.infinite() {
        num(INF_BITS)
    } else if a.nan() || b.nan() {
        num(NAN_BITS)
    } else {
        super::signed(false, super::nearest_root(a.size() * a.size() + b.size() * b.size()))
    }
}

/// A root of `w`, against the root of `w * 2^(2 * e)`.
proof fn lemma_root_scaled(w: nat, e: int, root: nat, n: nat, b: int)
    requires
        root * root <= w < (root + 1) * (root + 1),
        n * (super::down(e) * super::down(e)) == w * (super::up(e) * super::up(e)),
        super::lands(root as int, e, root * root != w, b),
    ensures
        b == super::nearest_root(n),
{
    super::lemma_scales(
        e,
        if e > 0 {
            e
        } else {
            0
        },
    );
    let u = super::up(e);
    assert((root * u) * (root * u) == (root * root) * (u * u)) by (nonlinear_arith);
    assert(((root + 1) * u) * ((root + 1) * u) == ((root + 1) * (root + 1)) * (u * u))
        by (nonlinear_arith);
    let z = u * u;
    assert(z > 0) by (nonlinear_arith)
        requires
            z == u * u,
            u > 0,
    ;
    let r2 = root * root;
    let s2 = (root + 1) * (root + 1);
    assert(r2 < w ==> r2 * z < w * z) by (nonlinear_arith)
        requires
            z > 0,
    ;
    assert(w * z < s2 * z) by (nonlinear_arith)
        requires
            z > 0,
            w < s2,
    ;
    super::lemma_root(root as int, e, root * root != w, b, n);
}

impl F32 {
    /// The square root.
    #[verifier::opaque]
    pub open spec fn sqrt_spec(self) -> F32 {
        sqrt_of(self)
    }

    /// The square root.
    #[verifier::when_used_as_spec(sqrt_spec)]
    pub fn sqrt(self) -> (r: F32)
        ensures
            r == self.sqrt(),
    {
        reveal(F32::sqrt_spec);
        if self.is_nan() {
            return num(NAN_BITS);
        }
        let (negative, a) = self.split();
        if a == 0 {
            return self;
        }
        if negative {
            return num(NAN_BITS);
        }
        if a == INF_BITS {
            return self;
        }
        let (m, e) = self.unpack();
        let len = bit_length(m);
        proof {
            lemma2_to64();
            lemma2_to64_rest();
            super::lemma_length_bounds(m, len);
        }
        // shift so that the exponent left over is even
        let k: u64 = if (e as u64 + 149 - (62 - len as u64)) % 2 == 0 {
            62 - len as u64
        } else {
            61 - len as u64
        };
        let ghost p = pow2(k as nat) as int;
        proof {
            lemma_pow2_pos(k as nat);
            lemma_pow2_adds(len as nat, k as nat);
            lemma_pow2_adds((len - 1) as nat, k as nat);
            let low = pow2((len - 1) as nat) as int;
            let high = pow2(len as nat) as int;
            assert(low * p <= m * p < high * p) by (nonlinear_arith)
                requires
                    low <= m < high,
                    p > 0,
            ;
            if k + len == 61 {
                lemma_pow2_strictly_increases(61, 62);
            }
            lemma_u64_shl_is_mul(m, k);
        }
        let wide: u64 = m << k;
        let root = whole_root(wide as u128);
        let half: i32 = (e + 149 - k as i32) / 2;
        let inexact = root as u128 * root as u128 != wide as u128;
        proof {
            assert(0x1000_0000_0000_0000 <= 2 * wide);
            assert(root >= 0x200_0000 && root < 0x8000_0000_0000_0000) by (nonlinear_arith)
                requires
                    wide < (root + 1) * (root + 1),
                    root < 0x8000_0000_0000_0000,
                    0x800_0000_0000_0000 <= wide,
            ;
        }
        let magnitude = round(root, half, inexact);
        proof {
            let h = half as nat;
            lemma_pow2_adds(h, h);
            lemma_pow2_adds(e as nat, 149);
            lemma_pow2_adds(k as nat, h + h);
            assert((e + 149) as nat == k as nat + (h + h));
            let n = self.size() * one_units();
            let pe = pow2(e as nat) as int;
            let hh = pow2(h) * pow2(h);
            assert(n == wide * hh) by (nonlinear_arith)
                requires
                    n == (m * pe) * one_units(),
                    pe * one_units() == p * hh,
                    wide == m * p,
            ;
            lemma2_to64();
            assert(super::down(half as int) == 1);
            assert(n * (1 * 1) == n) by (nonlinear_arith);
            lemma_root_scaled(wide as nat, half as int, root as nat, n, magnitude as int);
        }
        pack(false, magnitude)
    }

    /// The length of the hypotenuse over the sides `self` and `other`.
    #[verifier::opaque]
    pub open spec fn hypot_spec(self, other: F32) -> F32 {
        hypot_of(self, other)
    }

    /// The length of the hypotenuse over the sides `self` and `other`.
    #[verifier::when_used_as_spec(hypot_spec)]
    pub fn hypot(self, other: F32) -> (r: F32)
        ensures
            r == self.hypot(other),
    {
        reveal(F32::hypot_spec);
        let (_, a) = self.split();
        let (_, b) = other.split();
        if a == INF_BITS || b == INF_BITS {
            return num(INF_BITS);
        }
        if a > INF_BITS || b > INF_BITS {
            return num(NAN_BITS);
        }
        let (ma, ea) = self.unpack();
        let (mb, eb) = other.unpack();
        proof {
            lemma_size(self);
            lemma_size(other);
        }
        if ea >= eb {
            pack(false, hypot_finite(self, other, ma, ea, mb, eb))
        } else {
            pack(false, hypot_finite(other, self, mb, eb, ma, ea))
        }
    }
}

/// The hypotenuse over two finite sides of which the first has the larger exponent.
fn hypot_finite(x: F32, y: F32, mx: u64, ex: i32, my: u64, ey: i32) -> (r: u32)
    requires
        x.finite(),
        y.finite(),
        x.size() == mx * pow2(ex as nat),
        y.size() == my * pow2(ey as nat),
        mx < 2 * HIDDEN,
        my < 2 * HIDDEN,
        0 <= ey <= ex <= 253,
        ex > 0 ==> mx >= HIDDEN,
    ensures
        r == super::nearest_root(x.size() * x.size() + y.size() * y.size()),
        r <= INF_BITS,
{
    let ghost sx = x.size();
    let ghost sy = y.size();
    let ghost n: nat = sx * sx + sy * sy;
    if mx == 0 && my == 0 {
        proof {
            lemma2_to64();
            assert(sx == 0 && sy == 0) by (nonlinear_arith)
                requires
                    sx == 0 * pow2(ex as nat),
                    sy == 0 * pow2(ey as nat),
            ;
            assert(super::mag(0) == 0 && super::mag(1) == 1);
            assert(n == 0) by (nonlinear_arith)
                requires
                    n == sx * sx + sy * sy,
                    sx == 0,
                    sy == 0,
            ;
            assert(super::is_nearest_root(n, 0));
            super::lemma_nearest_root_unique(n, 0, super::nearest_root(n));
        }
        return 0;
    }
    let gap: i32 = ex - ey;
    if gap > 16 {
        let ghost u = pow2((ex - 5) as nat) as int;
        let inexact = my != 0;
        let wide: u64 = mx * 32;
        let magnitude = round(wide, ex - 5, inexact);
        proof {
            lemma2_to64();
            lemma_pow2_pos((ex - 5) as nat);
            lemma_pow2_adds((ex - 5) as nat, 5);
            assert(sx == wide * u) by (nonlinear_arith)
                requires
                    sx == mx * (u * 32),
                    wide == mx * 32,
            ;
            // the other side is less than 2^12 of these units
            let p = pow2(ey as nat) as int;
            lemma_pow2_pos(ey as nat);
            lemma_pow2_adds(ey as nat, 24);
            lemma_pow2_adds((ex - 5) as nat, 12);
            if ey + 24 < ex + 7 {
                lemma_pow2_strictly_increases((ey + 24) as nat, (ex + 7) as nat);
            }
            assert(sy < 0x1000 * u && (my > 0 ==> sy > 0) && (my == 0 ==> sy == 0))
                by (nonlinear_arith)
                requires
                    sy == my * p,
                    0 <= my < 0x100_0000,
                    p > 0,
                    p * 0x100_0000 <= u * 0x1000,
            ;
            assert(super::up(ex - 5) == u);
            assert(super::down(ex - 5) == 1);
            assert((wide + 1) * u == sx + u) by (nonlinear_arith)
                requires
                    sx == wide * u,
            ;
            assert(sx >= 0x1000_0000 * u) by (nonlinear_arith)
                requires
                    sx == wide * u,
                    wide >= 0x1000_0000,
                    u > 0,
            ;
            let z = sx as int + u;
            assert(sy * sy <= 0x1000 * u * (0x1000 * u)) by (nonlinear_arith)
                requires
                    0 <= sy <= 0x1000 * u,
            ;
            assert(2 * (sx * u) >= 2 * (0x1000_0000 * u) * u) by (nonlinear_arith)
                requires
                    sx >= 0x1000_0000 * u,
                    u > 0,
            ;
            assert(n < z * z) by (nonlinear_arith)
                requires
                    n == sx * sx + sy * sy,
                    z == sx + u,
                    sy * sy <= 0x1000 * u * (0x1000 * u),
                    2 * (sx * u) >= 2 * (0x1000_0000 * u) * u,
                    u > 0,
                    sx >= 0,
            ;
            assert(sy > 0 ==> sy * sy > 0) by (nonlinear_arith);
            assert(sy == 0 ==> sy * sy == 0) by (nonlinear_arith);
            assert(n * (1 * 1) == n) by (nonlinear_arith);
            super::lemma_root(wide as int, ex - 5, inexact, magnitude as int, n);
        }
        return magnitude;
    }
    let k: u32 = if ex == 0 {
        30
    } else {
        22
    };
    let e: i32 = ey - k as i32;
    let ghost shift_x: nat = (gap + k) as nat;
    proof {
        lemma2_to64();
        lemma2_to64_rest();
        lemma_pow2_pos(shift_x);
        lemma_pow2_pos(k as nat);
        if shift_x < 38 {
            lemma_pow2_strictly_increases(shift_x, 38);
        }
        if k < 38 {
            lemma_pow2_strictly_increases(k as nat, 38);
        }
        if k > 22 {
            lemma_pow2_strictly_increases(22, k as nat);
        }
        if shift_x > 22 {
            lemma_pow2_strictly_increases(22, shift_x);
        }
        let t = pow2(shift_x) as int;
        let tk = pow2(k as nat) as int;
        assert(mx * t <= 0xff_ffff * 0x40_0000_0000) by (nonlinear_arith)
            requires
                mx <= 0xff_ffff,
                0 < t <= 0x40_0000_0000,
        ;
        assert(my * tk <= 0xff_ffff * 0x40_0000_0000) by (nonlinear_arith)
            requires
                my <= 0xff_ffff,
                0 < tk <= 0x40_0000_0000,
        ;
        lemma_u64_shl_is_mul(mx, shift_x as u64);
        lemma_u64_shl_is_mul(my, k as u64);
    }
    let wx: u128 = (mx << (gap as u64 + k as u64)) as u128;
    let wy: u128 = (my << (k as u64)) as u128;
    assert(wx * wx <= 0x3fff_ffff_ffff_ffff * 0x3fff_ffff_ffff_ffff && wy * wy
        <= 0x3fff_ffff_ffff_ffff * 0x3fff_ffff_ffff_ffff) by (nonlinear_arith)
        requires
            0 <= wx <= 0x3fff_ffff_ffff_ffff,
            0 <= wy <= 0x3fff_ffff_ffff_ffff,
    ;
    let w: u128 = wx * wx + wy * wy;
    let root = whole_root(w);
    assert(root * root <= 0x7fff_ffff_ffff_ffff * 0x7fff_ffff_ffff_ffff) by (nonlinear_arith)
        requires
            0 <= root <= 0x7fff_ffff_ffff_ffff,
    ;
    let inexact = root as u128 * root as u128 != w;
    proof {
        // one of the sides is at least 2^30 on this grid
        let t = pow2(shift_x) as int;
        let tk = pow2(k as nat) as int;
        assert(wx >= 0x4000_0000 || wy >= 0x4000_0000) by {
            if ex == 0 {
                if mx > 0 {
                    assert(mx * t >= t) by (nonlinear_arith)
                        requires
                            mx >= 1,
                            t > 0,
                    ;
                } else {
                    assert(my * tk >= tk) by (nonlinear_arith)
                        requires
                            my >= 1,
                            tk > 0,
                    ;
                }
            } else {
                assert(mx * t >= 0x80_0000 * 0x40_0000) by (nonlinear_arith)
                    requires
                        mx >= 0x80_0000,
                        t >= 0x40_0000,
                ;
            }
        }
        assert(root >= 0x200_0000) by (nonlinear_arith)
            requires
                w == wx * wx + wy * wy,
                wx >= 0x4000_0000 || wy >= 0x4000_0000,
                wx >= 0,
                wy >= 0,
                w < (root + 1) * (root + 1),
        {
            if wx >= 0x4000_0000 {
                assert(wx * wx >= 0x4000_0000 * 0x4000_0000);
            } else {
                assert(wy * wy >= 0x4000_0000 * 0x4000_0000);
            }
            if root < 0x200_0000 {
                assert((root + 1) * (root + 1) <= 0x200_0000 * 0x200_0000);
            }
        }
    }
    let magnitude = round(root, e, inexact);
    proof {
        super::lemma_scales(e as int, ex as int);
        super::lemma_scales(e as int, ey as int);
        let dn = super::down(e as int);
        let u = super::up(e as int);
        let px = pow2(ex as nat) as int;
        let py = pow2(ey as nat) as int;
        let t = pow2(shift_x) as int;
        let tk = pow2(k as nat) as int;
        assert((ex - e) as nat == shift_x);
        assert((ey - e) as nat == k as nat);
        assert(sx * dn == wx * u) by (nonlinear_arith)
            requires
                sx == mx * px,
                px * dn == t * u,
                wx == mx * t,
        ;
        assert(sy * dn == wy * u) by (nonlinear_arith)
            requires
                sy == my * py,
                py * dn == tk * u,
                wy == my * tk,
        ;
        assert(n * (dn * dn) == w * (u * u)) by (nonlinear_arith)
            requires
                n == sx * sx + sy * sy,
                w == wx * wx + wy * wy,
                sx * dn == wx * u,
                sy * dn == wy * u,
        {
            assert(n * (dn * dn) == (sx * dn) * (sx * dn) + (sy * dn) * (sy * dn));
            assert(w * (u * u) == (wx * u) * (wx * u) + (wy * u) * (wy * u));
        }
        lemma_root_scaled(w as nat, e as int, root as nat, n, magnitude as int);
    }
    magnitude
}

} // verus!
