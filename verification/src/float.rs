//! Single-precision numbers, computed in integers.
//!
//! The recognizer must read a drawing the same way on every machine: the features that a model
//! was trained on and the features computed on a tablet have to agree to the last bit. So the
//! arithmetic here does not depend on a floating-point unit. An [`F32`] is the IEEE-754 binary32
//! bit pattern, and each operation is defined by what it returns mathematically: the
//! representable number nearest to the exact result, ties going to the even bit pattern.
//!
//! Every finite binary32 number is a whole multiple of `2^-149`, so the exact value of a number
//! is an integer, counted in that unit ([`F32::units`]).
use vstd::arithmetic::div_mod::*;
use vstd::arithmetic::mul::*;
use vstd::arithmetic::power2::*;
use vstd::bits::*;
use vstd::prelude::*;

pub mod arith;
pub mod bound;
pub mod convert;
pub mod decimal;
pub mod double;
pub mod error;
pub mod monotone;
pub mod order;
pub mod scale;

verus! {

/// Magnitude bits of infinity. Smaller magnitudes are finite, larger ones are NaN.
pub const INF_BITS: u32 = 0x7f80_0000;

/// The sign bit.
pub const SIGN_BIT: u32 = 0x8000_0000;

/// The quiet NaN that every invalid operation returns.
pub const NAN_BITS: u32 = 0x7fc0_0000;

/// `2^23`: the weight of the hidden bit, and the distance between exponent fields.
pub const HIDDEN: u32 = 0x0080_0000;

/// An IEEE-754 binary32 number, as its bit pattern.
#[derive(Debug, Clone, Copy, PartialEq, Eq, Structural)]
pub struct F32 {
    pub bits: u32,
}

/// The number with bit pattern `bits`.
#[verifier::inline]
pub open spec fn num_spec(bits: u32) -> F32 {
    F32 { bits }
}

/// The number with bit pattern `bits`.
#[verifier::when_used_as_spec(num_spec)]
pub fn num(bits: u32) -> (r: F32)
    ensures
        r == num(bits),
{
    F32 { bits }
}

// ---------------------------------------------------------------------------------------------
// What a bit pattern stands for
// ---------------------------------------------------------------------------------------------
/// The value, in units of `2^-149`, of the magnitude bits `b`. At `b == INF_BITS` it is the
/// power of two at which the finite range would go on.
pub open spec fn mag(b: int) -> int {
    if b < HIDDEN {
        b
    } else {
        (HIDDEN + b % (HIDDEN as int)) * pow2((b / (HIDDEN as int) - 1) as nat)
    }
}

/// Is `b` the magnitude nearest to `n / d`? Halfway between two neighbours the even bit pattern
/// is the nearer one; from halfway between the largest finite magnitude and the next power of
/// two on, it is infinity.
pub open spec fn is_nearest(n: nat, d: nat, b: int) -> bool {
    &&& 0 <= b <= INF_BITS
    &&& b > 0 ==> {
        ||| (mag(b - 1) + mag(b)) * d < 2 * n
        ||| (mag(b - 1) + mag(b)) * d == 2 * n && b % 2 == 0
    }
    &&& b < INF_BITS ==> {
        ||| 2 * n < (mag(b) + mag(b + 1)) * d
        ||| 2 * n == (mag(b) + mag(b + 1)) * d && b % 2 == 0
    }
}

/// Is `b` the magnitude nearest to the square root of `n`?
pub open spec fn is_nearest_root(n: nat, b: int) -> bool {
    &&& 0 <= b <= INF_BITS
    &&& b > 0 ==> {
        ||| (mag(b - 1) + mag(b)) * (mag(b - 1) + mag(b)) < 4 * n
        ||| (mag(b - 1) + mag(b)) * (mag(b - 1) + mag(b)) == 4 * n && b % 2 == 0
    }
    &&& b < INF_BITS ==> {
        ||| 4 * n < (mag(b) + mag(b + 1)) * (mag(b) + mag(b + 1))
        ||| 4 * n == (mag(b) + mag(b + 1)) * (mag(b) + mag(b + 1)) && b % 2 == 0
    }
}

/// The magnitude nearest to `n / d`.
pub open spec fn nearest(n: nat, d: nat) -> int {
    choose|b: int| is_nearest(n, d, b)
}

/// The magnitude nearest to the square root of `n`.
pub open spec fn nearest_root(n: nat) -> int {
    choose|b: int| is_nearest_root(n, b)
}

/// The number with the given sign and magnitude bits.
pub open spec fn signed(negative: bool, magnitude: int) -> F32 {
    F32 {
        bits: (magnitude + if negative {
            SIGN_BIT as int
        } else {
            0
        }) as u32,
    }
}

impl F32 {
    /// Is the sign bit set?
    pub open spec fn negative(self) -> bool {
        self.bits >= SIGN_BIT
    }

    /// The bits below the sign bit.
    pub open spec fn magnitude(self) -> int {
        if self.negative() {
            self.bits - SIGN_BIT
        } else {
            self.bits as int
        }
    }

    pub open spec fn nan(self) -> bool {
        self.magnitude() > INF_BITS
    }

    pub open spec fn infinite(self) -> bool {
        self.magnitude() == INF_BITS
    }

    pub open spec fn finite(self) -> bool {
        self.magnitude() < INF_BITS
    }

    /// The absolute value in units of `2^-149`, of a finite number.
    pub open spec fn size(self) -> nat {
        mag(self.magnitude()) as nat
    }

    /// The value in units of `2^-149`, of a finite number.
    pub open spec fn units(self) -> int {
        if self.negative() {
            -mag(self.magnitude())
        } else {
            mag(self.magnitude())
        }
    }

    /// Position on the number line, of a number that is not NaN. Both zeros are at 0.
    pub open spec fn rank(self) -> int {
        if self.negative() {
            -self.magnitude()
        } else {
            self.magnitude()
        }
    }
}

// ---------------------------------------------------------------------------------------------
// Facts about magnitudes
// ---------------------------------------------------------------------------------------------
/// A magnitude, by exponent `e` and significand `q`.
proof fn lemma_mag_parts(e: int, q: int)
    requires
        e >= 0,
        0 <= q <= 2 * HIDDEN,
        e == 0 || q >= HIDDEN,
    ensures
        mag(e * HIDDEN + q) == q * pow2(e as nat),
{
    let h = HIDDEN as int;
    let b = e * h + q;
    lemma2_to64();
    if q < h {
        assert(e == 0);
        assert(b == q);
    } else if q < 2 * h {
        assert(b == (e + 1) * h + (q - h)) by (nonlinear_arith)
            requires
                b == e * h + q,
        ;
        lemma_fundamental_div_mod_converse(b, h, e + 1, q - h);
        assert(b >= h) by (nonlinear_arith)
            requires
                b == e * h + q,
                e >= 0,
                h > 0,
                q >= h,
        ;
    } else {
        assert(b == (e + 2) * h + 0) by (nonlinear_arith)
            requires
                b == e * h + q,
                q == 2 * h,
        ;
        lemma_fundamental_div_mod_converse(b, h, e + 2, 0);
        assert(b >= h) by (nonlinear_arith)
            requires
                b == e * h + q,
                e >= 0,
                h > 0,
                q >= h,
        ;
        lemma_pow2_adds(e as nat, 1);
        assert(mag(b) == h * pow2((e + 1) as nat));
        assert(pow2((e + 1) as nat) == 2 * pow2(e as nat));
        assert(h * (2 * pow2(e as nat)) == (2 * h) * pow2(e as nat)) by (nonlinear_arith);
    }
}

/// Exponent and significand of a magnitude.
proof fn lemma_mag_split(b: int) -> (parts: (int, int))
    requires
        b >= 0,
    ensures
        parts.0 >= 0,
        0 <= parts.1 < 2 * HIDDEN,
        parts.0 == 0 || parts.1 >= HIDDEN,
        b == parts.0 * HIDDEN + parts.1,
        mag(b) == parts.1 * pow2(parts.0 as nat),
{
    let h = HIDDEN as int;
    if b < h {
        lemma_mag_parts(0, b);
        (0, b)
    } else {
        lemma_fundamental_div_mod(b, h);
        let k = b / h;
        let r = b % h;
        assert(k >= 1) by {
            lemma_div_is_ordered(h, b, h);
            lemma_div_by_self(h);
        }
        assert(b == (k - 1) * h + (r + h)) by (nonlinear_arith)
            requires
                b == h * k + r,
        ;
        lemma_mag_parts(k - 1, r + h);
        (k - 1, r + h)
    }
}

/// The next magnitude is larger.
proof fn lemma_mag_step(b: int)
    requires
        b >= 0,
    ensures
        mag(b) < mag(b + 1),
        mag(b) >= 0,
{
    let (e, q) = lemma_mag_split(b);
    lemma_mag_parts(e, q + 1);
    lemma_pow2_pos(e as nat);
    let p = pow2(e as nat) as int;
    assert(q * p < (q + 1) * p && q * p >= 0) by (nonlinear_arith)
        requires
            p > 0,
            q >= 0,
    ;
}

/// Magnitudes are ordered as their bits are.
pub proof fn lemma_mag_ordered(a: int, b: int)
    requires
        0 <= a < b,
    ensures
        0 <= mag(a) < mag(b),
    decreases b - a,
{
    lemma_mag_step(a);
    if a + 1 < b {
        lemma_mag_ordered(a + 1, b);
    }
}

/// At most one magnitude is nearest to `n / d`.
proof fn lemma_nearest_unique(n: nat, d: nat, a: int, b: int)
    requires
        d > 0,
        is_nearest(n, d, a),
        is_nearest(n, d, b),
    ensures
        a == b,
    decreases
            (if a <= b {
                0int
            } else {
                1int
            }),
{
    if a > b {
        lemma_nearest_unique(n, d, b, a);
    } else if a < b {
        lemma_bounds_ordered(a, b);
        let up = mag(a) + mag(a + 1);
        let low = mag(b - 1) + mag(b);
        assert(up * d <= low * d && (up < low ==> up * d < low * d)) by (nonlinear_arith)
            requires
                up <= low,
                d > 0,
        ;
        assert(up == low);
        assert(a + 1 == b);
    }
}

/// The upper rounding bound of `a` is at most the lower one of a larger `b`, and the same only
/// where they are neighbours.
pub proof fn lemma_bounds_ordered(a: int, b: int)
    requires
        0 <= a < b,
    ensures
        0 <= mag(a) + mag(a + 1) <= mag(b - 1) + mag(b),
        a + 1 < b ==> mag(a) + mag(a + 1) < mag(b - 1) + mag(b),
{
    lemma_mag_step(a);
    if a + 1 < b {
        lemma_mag_ordered(a, b - 1);
        lemma_mag_ordered(a + 1, b);
    }
}

/// At most one magnitude is nearest to the square root of `n`.
proof fn lemma_nearest_root_unique(n: nat, a: int, b: int)
    requires
        is_nearest_root(n, a),
        is_nearest_root(n, b),
    ensures
        a == b,
    decreases
            (if a <= b {
                0int
            } else {
                1int
            }),
{
    if a > b {
        lemma_nearest_root_unique(n, b, a);
    } else if a < b {
        lemma_bounds_ordered(a, b);
        let up = mag(a) + mag(a + 1);
        let low = mag(b - 1) + mag(b);
        assert(up * up <= low * low && (up < low ==> up * up < low * low)) by (nonlinear_arith)
            requires
                0 <= up <= low,
        ;
        assert(up == low);
        assert(a + 1 == b);
    }
}

// ---------------------------------------------------------------------------------------------
// Rounding
// ---------------------------------------------------------------------------------------------
/// `2^-e` for a negative `e`, else 1.
spec fn down(e: int) -> int {
    pow2((if e < 0 {
        -e
    } else {
        0
    }) as nat) as int
}

/// `2^e` for a positive `e`, else 1.
spec fn up(e: int) -> int {
    pow2((if e > 0 {
        e
    } else {
        0
    }) as nat) as int
}

/// Does a value round to the magnitude `b`, if it is `m * 2^e` exactly or, with `inexact`,
/// anything strictly between that and `(m + 1) * 2^e`?
spec fn lands(m: int, e: int, inexact: bool, b: int) -> bool {
    &&& 0 <= b <= INF_BITS
    &&& b > 0 ==> {
        let low = (mag(b - 1) + mag(b)) * down(e);
        if inexact {
            low <= 2 * m * up(e)
        } else {
            low < 2 * m * up(e) || low == 2 * m * up(e) && b % 2 == 0
        }
    }
    &&& b < INF_BITS ==> {
        let high = (mag(b) + mag(b + 1)) * down(e);
        if inexact {
            2 * (m + 1) * up(e) <= high
        } else {
            2 * m * up(e) < high || 2 * m * up(e) == high && b % 2 == 0
        }
    }
}

/// The number of bits of `m`.
fn bit_length(m: u64) -> (len: u32)
    requires
        m > 0,
    ensures
        1 <= len <= 64,
        pow2((len - 1) as nat) <= m < pow2(len as nat),
{
    let mut rest: u64 = m;
    let mut len: u32 = 0;
    proof {
        lemma2_to64();
        lemma2_to64_rest();
    }
    if rest >= 0x1_0000_0000 {
        rest = rest / 0x1_0000_0000;
        len = 32;
    }
    assert(len <= 32 && 0 < rest < pow2(32) && rest == m as int / pow2(len as nat) as int);
    if rest >= 0x1_0000 {
        proof {
            lemma_shift_more(m as int, len as nat, 16);
        }
        rest = rest / 0x1_0000;
        len = len + 16;
    }
    assert(len <= 48 && 0 < rest < 0x1_0000 && rest == m as int / pow2(len as nat) as int);
    if rest >= 0x100 {
        proof {
            lemma_shift_more(m as int, len as nat, 8);
        }
        rest = rest / 0x100;
        len = len + 8;
    }
    assert(len <= 56 && 0 < rest < 0x100 && rest == m as int / pow2(len as nat) as int);
    if rest >= 0x10 {
        proof {
            lemma_shift_more(m as int, len as nat, 4);
        }
        rest = rest / 0x10;
        len = len + 4;
    }
    assert(len <= 60 && 0 < rest < 0x10 && rest == m as int / pow2(len as nat) as int);
    if rest >= 4 {
        proof {
            lemma_shift_more(m as int, len as nat, 2);
        }
        rest = rest / 4;
        len = len + 2;
    }
    assert(len <= 62 && 0 < rest < 4 && rest == m as int / pow2(len as nat) as int);
    if rest >= 2 {
        proof {
            lemma_shift_more(m as int, len as nat, 1);
        }
        len = len + 1;
    }
    proof {
        let p = pow2(len as nat) as int;
        lemma_pow2_pos(len as nat);
        lemma_pow2_adds(len as nat, 1);
        assert(m as int / p == 1);
        lemma_fundamental_div_mod(m as int, p);
        lemma_mod_bound(m as int, p);
    }
    len + 1
}

/// Dividing by `2^a`, then by `2^b`, is dividing by `2^(a + b)`.
proof fn lemma_shift_more(m: int, a: nat, b: nat)
    requires
        m >= 0,
    ensures
        (m / pow2(a) as int) / pow2(b) as int == m / pow2(a + b) as int,
{
    lemma_pow2_pos(a);
    lemma_pow2_pos(b);
    lemma_pow2_adds(a, b);
    lemma_div_denominator(m, pow2(a) as int, pow2(b) as int);
}

/// The two ways to scale a significand at exponent `e` to one at exponent `big` agree.
proof fn lemma_scales(e: int, big: int)
    requires
        big >= 0,
        big >= e,
    ensures
        pow2(big as nat) * down(e) == pow2((big - e) as nat) * up(e),
        down(e) > 0,
        up(e) > 0,
{
    if e < 0 {
        lemma_pow2_adds(big as nat, (-e) as nat);
        lemma2_to64();
        lemma_pow2_pos((-e) as nat);
        assert(up(e) == 1);
        assert(big as nat + (-e) as nat == (big - e) as nat);
        let wide = pow2((big - e) as nat) as int;
        assert(wide * 1 == wide);
    } else {
        lemma_pow2_adds((big - e) as nat, e as nat);
        lemma2_to64();
        lemma_pow2_pos(e as nat);
        assert(down(e) == 1);
        assert((big - e) as nat + e as nat == big as nat);
        let wide = pow2(big as nat) as int;
        assert(wide * 1 == wide);
    }
}

/// Keeping `q` of `m == q * 2^s + rem` and rounding the rest lands on the nearest magnitude.
proof fn lemma_lands(m: int, e: int, inexact: bool, big: int, s: nat, q: int, rem: int, rises: bool)
    requires
        big >= 0,
        s == big - e,
        s >= 1,
        m == q * pow2(s) + rem,
        0 <= rem < pow2(s),
        0 <= q < 2 * HIDDEN,
        big == 0 || q >= HIDDEN,
        big <= 253,
        rises == (rem > pow2((s - 1) as nat) || rem == pow2((s - 1) as nat) && (inexact || q % 2
            == 1)),
    ensures
        lands(
            m,
            e,
            inexact,
            big * HIDDEN + q + if rises {
                1int
            } else {
                0
            },
        ),
{
    let h = HIDDEN as int;
    let b0 = big * h + q;
    let p = pow2(big as nat) as int;
    let dn = down(e);
    let u = up(e);
    let ss = pow2(s) as int;
    let half = pow2((s - 1) as nat) as int;
    lemma_scales(e, big);
    lemma_pow2_adds((s - 1) as nat, 1);
    lemma2_to64();
    assert(ss == 2 * half);
    assert(0 <= b0 < INF_BITS) by (nonlinear_arith)
        requires
            b0 == big * h + q,
            0 <= big <= 253,
            0 <= q < 2 * h,
            h == 0x80_0000,
    ;
    assert(b0 % 2 == q % 2) by (nonlinear_arith)
        requires
            b0 == big * h + q,
            h == 0x80_0000,
    ;
    lemma_mag_parts(big, q);
    lemma_mag_parts(big, q + 1);
    assert(mag(b0) == q * p && mag(b0 + 1) == (q + 1) * p);
    // the bound between b0 and b0 + 1, in both scales
    assert((q * p + (q + 1) * p) * dn == 2 * (q * ss + half) * u) by (nonlinear_arith)
        requires
            p * dn == ss * u,
            ss == 2 * half,
    ;
    if !rises {
        if b0 > 0 {
            lemma_mag_step(b0 - 1);
            let low = mag(b0 - 1) + mag(b0);
            assert(low < 2 * (q * p));
            assert(low * dn < 2 * m * u) by (nonlinear_arith)
                requires
                    low < 2 * (q * p),
                    p * dn == ss * u,
                    m == q * ss + rem,
                    rem >= 0,
                    u > 0,
                    dn > 0,
            {
                assert(low * dn < 2 * (q * p) * dn);
                assert(2 * (q * p) * dn == 2 * (q * (p * dn)));
                assert(2 * (q * (ss * u)) == 2 * (q * ss) * u);
                assert(2 * (q * ss) * u <= 2 * m * u);
            }
        }
        if inexact {
            assert(2 * (m + 1) * u <= 2 * (q * ss + half) * u) by (nonlinear_arith)
                requires
                    m + 1 <= q * ss + half,
                    u > 0,
            ;
        } else if rem < half {
            assert(2 * m * u < 2 * (q * ss + half) * u) by (nonlinear_arith)
                requires
                    m < q * ss + half,
                    u > 0,
            ;
        }
    } else {
        if inexact || rem == half {
            assert(2 * (q * ss + half) * u <= 2 * m * u) by (nonlinear_arith)
                requires
                    q * ss + half <= m,
                    u > 0,
            ;
        } else {
            assert(2 * (q * ss + half) * u < 2 * m * u) by (nonlinear_arith)
                requires
                    q * ss + half < m,
                    u > 0,
            ;
        }
        if b0 + 1 < INF_BITS {
            lemma_mag_step(b0 + 1);
            let high = mag(b0 + 1) + mag(b0 + 2);
            assert(high > 2 * ((q + 1) * p));
            assert((q + 1) * ss == q * ss + ss) by (nonlinear_arith);
            assert(2 * (m + 1) * u < high * dn && 2 * m * u < high * dn) by (nonlinear_arith)
                requires
                    high > 2 * ((q + 1) * p),
                    p * dn == ss * u,
                    m + 1 <= (q + 1) * ss,
                    u > 0,
                    dn > 0,
            {
                assert(high * dn > 2 * ((q + 1) * p) * dn);
                assert(2 * ((q + 1) * p) * dn == 2 * ((q + 1) * (p * dn)));
                assert(2 * ((q + 1) * (ss * u)) == 2 * ((q + 1) * ss) * u);
                assert(2 * (m + 1) * u <= 2 * ((q + 1) * ss) * u);
                assert(2 * m * u <= 2 * (m + 1) * u);
            }
        }
    }
}

/// A value of at least the power of two past the largest finite magnitude lands on infinity.
proof fn lemma_lands_infinite(m: int, e: int, inexact: bool, big: int, s: nat, q: int)
    requires
        big >= 254,
        s == big - e,
        q >= HIDDEN,
        m >= q * pow2(s),
    ensures
        lands(m, e, inexact, INF_BITS as int),
{
    let h = HIDDEN as int;
    let p = pow2(big as nat) as int;
    let dn = down(e);
    let u = up(e);
    let ss = pow2(s) as int;
    lemma_scales(e, big);
    lemma_mag_parts(254, h);
    assert(254 * h + h == INF_BITS);
    lemma_mag_step(INF_BITS - 1);
    let low = mag(INF_BITS - 1) + mag(INF_BITS as int);
    let p254 = pow2(254) as int;
    assert(p254 <= p) by {
        if big > 254 {
            lemma_pow2_strictly_increases(254, big as nat);
        }
    }
    assert(low < 2 * (h * p254));
    lemma_pow2_pos(big as nat);
    assert(low * dn < 2 * m * u) by (nonlinear_arith)
        requires
            low < 2 * (h * p254),
            p254 <= p,
            p * dn == ss * u,
            m >= q * ss,
            q >= h,
            h > 0,
            p > 0,
            u > 0,
            dn > 0,
    {
        assert(h * p254 <= h * p);
        assert(h * p <= q * p);
        assert(low * dn < 2 * (q * p) * dn);
        assert(2 * (q * p) * dn == 2 * (q * (p * dn)));
        assert(2 * (q * (ss * u)) == 2 * (q * ss) * u);
        assert(2 * (q * ss) * u <= 2 * m * u);
    }
}

/// A number of `len` bits, shifted right by `s`, fits in 24 bits if `s >= len - 24`, and fills
/// them if `s == len - 24`.
proof fn lemma_shifted_significand(m: u64, len: u32, s: u64, q: u64)
    requires
        len >= 1,
        pow2((len - 1) as nat) <= m < pow2(len as nat),
        s < 64,
        s + 24 >= len,
        q == m >> s,
    ensures
        q < 2 * HIDDEN,
        s + 24 == len ==> q >= HIDDEN,
        q * pow2(s as nat) <= m < q * pow2(s as nat) + pow2(s as nat),
{
    lemma_u64_shr_is_div(m, s);
    lemma2_to64();
    let p = pow2(s as nat) as int;
    lemma_pow2_pos(s as nat);
    lemma_fundamental_div_mod(m as int, p);
    lemma_mod_bound(m as int, p);
    assert(q as int * p <= m as int && m as int - q as int * p < p) by (nonlinear_arith)
        requires
            m as int == p * (q as int) + m as int % p,
            0 <= m as int % p < p,
    ;
    lemma_pow2_adds(24, s as nat);
    if s + 24 > len {
        lemma_pow2_strictly_increases(len as nat, (s + 24) as nat);
    }
    assert(q < 0x100_0000) by (nonlinear_arith)
        requires
            q as int * p <= m as int,
            m < 0x100_0000 * p,
            p > 0,
    ;
    if s + 24 == len {
        lemma_pow2_adds(23, s as nat);
        assert((23 + s) as nat == (len - 1) as nat);
        assert(q >= 0x80_0000) by (nonlinear_arith)
            requires
                m as int - q as int * p < p,
                m >= 0x80_0000 * p,
                p > 0,
        ;
    }
}

/// Bounds on the number of bits of a number between `2^25` and `2^63`.
proof fn lemma_length_bounds(m: u64, len: u32)
    requires
        1 <= len <= 64,
        pow2((len - 1) as nat) <= m < pow2(len as nat),
    ensures
        m >= 0x200_0000 ==> len >= 26,
        m < 0x8000_0000_0000_0000 ==> len <= 63,
        m < 0x100_0000 ==> len <= 24,
{
    lemma2_to64();
    lemma2_to64_rest();
    if m >= 0x200_0000 && len < 26 && len < 25 {
        lemma_pow2_strictly_increases(len as nat, 25);
    }
    if m < 0x100_0000 && len > 25 {
        lemma_pow2_strictly_increases(24, (len - 1) as nat);
    }
}

/// Round a value of `m * 2^e`, or with `inexact` of strictly between that and `(m + 1) * 2^e`.
#[verifier::spinoff_prover]
fn round(m: u64, e: i32, inexact: bool) -> (b: u32)
    requires
        0x200_0000 <= m < 0x8000_0000_0000_0000,
        -2000 <= e <= 2000,
    ensures
        lands(m as int, e as int, inexact, b as int),
{
    let len = bit_length(m);
    proof {
        lemma_length_bounds(m, len);
    }
    let fit: i32 = e + len as i32 - 24;
    let big: i32 = if fit > 0 {
        fit
    } else {
        0
    };
    let s: i32 = big - e;
    if s >= 64 {
        assert(big == 0);
        proof {
            lemma_tiny(m, e as int, inexact, s as nat);
        }
        return 0;
    }
    assert(2 <= s < 64);
    let q: u64 = m >> (s as u64);
    proof {
        lemma_shifted_significand(m, len, s as u64, q);
    }
    if big >= 254 {
        proof {
            lemma_lands_infinite(m as int, e as int, inexact, big as int, s as nat, q as int);
        }
        return INF_BITS;
    }
    proof {
        lemma_u64_shl_is_mul(q, s as u64);
        lemma_half(s as nat);
        lemma_u64_shl_is_mul(1, (s - 1) as u64);
    }
    let rem: u64 = m - (q << (s as u64));
    let half: u64 = 1u64 << ((s - 1) as u64);
    let rises = rem > half || (rem == half && (inexact || q % 2 == 1));
    proof {
        assert(half == pow2((s - 1) as nat));
        lemma_lands(
            m as int,
            e as int,
            inexact,
            big as int,
            s as nat,
            q as int,
            rem as int,
            rises,
        );
    }
    big as u32 * HIDDEN + q as u32 + if rises {
        1
    } else {
        0
    }
}

/// Half of a shift of less than 64 bits fits in 63.
proof fn lemma_half(s: nat)
    requires
        1 <= s < 64,
    ensures
        1 * pow2((s - 1) as nat) <= u64::MAX,
{
    lemma2_to64();
    lemma2_to64_rest();
    if s < 63 {
        lemma_pow2_strictly_increases((s - 1) as nat, 63);
    }
}

/// A value below half of the smallest magnitude lands on zero.
proof fn lemma_tiny(m: u64, e: int, inexact: bool, s: nat)
    requires
        m < 0x8000_0000_0000_0000,
        s >= 64,
        s == -e,
    ensures
        lands(m as int, e, inexact, 0),
{
    lemma2_to64();
    lemma2_to64_rest();
    if s > 64 {
        lemma_pow2_strictly_increases(63, (s - 1) as nat);
    }
    lemma_pow2_adds((s - 1) as nat, 1);
    assert(m < pow2((s - 1) as nat));
    assert(0 * pow2(s) == 0);
    lemma_lands(m as int, e, inexact, 0, s, 0, m as int, false);
}

/// From where a value lands to the nearest magnitude of a quotient.
proof fn lemma_quotient(m: int, e: int, inexact: bool, b: int, n: nat, d: nat)
    requires
        lands(m, e, inexact, b),
        d > 0,
        m >= 0,
        !inexact ==> n * down(e) == m * (d * up(e)),
        inexact ==> m * (d * up(e)) < n * down(e) < (m + 1) * (d * up(e)),
    ensures
        is_nearest(n, d, b),
        b == nearest(n, d),
{
    let dn = down(e);
    let u = up(e);
    lemma_scales(
        e,
        if e > 0 {
            e
        } else {
            0
        },
    );
    let z0 = 2 * m * u;
    let z1 = 2 * (m + 1) * u;
    let y = 2 * n as int;
    assert(z0 * d == 2 * (m * (d * u))) by (nonlinear_arith)
        requires
            z0 == 2 * m * u,
    ;
    assert(z1 * d == 2 * ((m + 1) * (d * u))) by (nonlinear_arith)
        requires
            z1 == 2 * (m + 1) * u,
    ;
    assert(y * dn == 2 * (n * dn)) by (nonlinear_arith)
        requires
            y == 2 * n,
    ;
    if b > 0 {
        let low = mag(b - 1) + mag(b);
        lemma_compare(low, d as int, dn, z0, y);
    }
    if b < INF_BITS {
        let high = mag(b) + mag(b + 1);
        lemma_compare(high, d as int, dn, z1, y);
        lemma_compare(high, d as int, dn, z0, y);
    }
    assert(is_nearest(n, d, b));
    lemma_nearest_unique(n, d, b, nearest(n, d));
}

/// Comparing `x * d` with `y`, where `x * k` compares with `z` and `y * k` with `z * d`.
proof fn lemma_compare(x: int, d: int, k: int, z: int, y: int)
    requires
        d > 0,
        k > 0,
    ensures
        x * k <= z && z * d < y * k ==> x * d < y,
        x * k < z && z * d <= y * k ==> x * d < y,
        x * k == z && z * d == y * k ==> x * d == y,
        x * k >= z && z * d > y * k ==> x * d > y,
        x * k > z && z * d >= y * k ==> x * d > y,
{
    assert(x * k * d == x * d * k) by (nonlinear_arith);
    if x * k <= z {
        assert(x * k * d <= z * d) by (nonlinear_arith)
            requires
                x * k <= z,
                d > 0,
        ;
    }
    if x * k < z {
        assert(x * k * d < z * d) by (nonlinear_arith)
            requires
                x * k < z,
                d > 0,
        ;
    }
    if x * k >= z {
        assert(x * k * d >= z * d) by (nonlinear_arith)
            requires
                x * k >= z,
                d > 0,
        ;
    }
    if x * k > z {
        assert(x * k * d > z * d) by (nonlinear_arith)
            requires
                x * k > z,
                d > 0,
        ;
    }
    let a = x * d;
    assert(a * k < y * k ==> a < y) by (nonlinear_arith)
        requires
            k > 0,
    ;
    assert(a * k > y * k ==> a > y) by (nonlinear_arith)
        requires
            k > 0,
    ;
    assert(a * k == y * k ==> a == y) by (nonlinear_arith)
        requires
            k > 0,
    ;
}

/// From where a value lands to the nearest magnitude of a square root.
proof fn lemma_root(m: int, e: int, inexact: bool, b: int, n: nat)
    requires
        lands(m, e, inexact, b),
        m >= 0,
        !inexact ==> n * (down(e) * down(e)) == (m * up(e)) * (m * up(e)),
        inexact ==> (m * up(e)) * (m * up(e)) < n * (down(e) * down(e)) < ((m + 1) * up(e)) * ((m
            + 1) * up(e)),
    ensures
        is_nearest_root(n, b),
        b == nearest_root(n),
{
    let dn = down(e);
    let u = up(e);
    lemma_scales(
        e,
        if e > 0 {
            e
        } else {
            0
        },
    );
    let x = m * u;
    let y = (m + 1) * u;
    assert(0 <= x < y) by (nonlinear_arith)
        requires
            x == m * u,
            y == (m + 1) * u,
            u > 0,
            m >= 0,
    ;
    assert(2 * m * u == 2 * x) by (nonlinear_arith)
        requires
            x == m * u,
    ;
    assert(2 * (m + 1) * u == 2 * y) by (nonlinear_arith)
        requires
            y == (m + 1) * u,
    ;
    assert((2 * x) * (2 * x) == 4 * (x * x)) by (nonlinear_arith);
    assert((2 * y) * (2 * y) == 4 * (y * y)) by (nonlinear_arith);
    let k = dn * dn;
    assert(k > 0) by (nonlinear_arith)
        requires
            k == dn * dn,
            dn > 0,
    ;
    let n4 = 4 * n as int;
    assert(n4 * k == 4 * (n * k)) by (nonlinear_arith)
        requires
            n4 == 4 * n,
    ;
    if b > 0 {
        lemma_bounds_ordered(b - 1, b);
        let low = mag(b - 1) + mag(b);
        lemma_scaled_squares(low, dn, 2 * x, n4);
    }
    if b < INF_BITS {
        lemma_bounds_ordered(b, b + 1);
        let high = mag(b) + mag(b + 1);
        lemma_scaled_squares(high, dn, 2 * x, n4);
        lemma_scaled_squares(high, dn, 2 * y, n4);
    }
    lemma_nearest_root_unique(n, b, nearest_root(n));
}

/// Comparing `v * v` with `n`, where `v * dn` compares with `x`, and `x * x` with `n * dn * dn`.
proof fn lemma_scaled_squares(v: int, dn: int, x: int, n: int)
    requires
        v >= 0,
        dn > 0,
        x >= 0,
    ensures
        v * dn <= x && x * x < n * (dn * dn) ==> v * v < n,
        v * dn < x && x * x <= n * (dn * dn) ==> v * v < n,
        v * dn == x && x * x == n * (dn * dn) ==> v * v == n,
        v * dn >= x && x * x > n * (dn * dn) ==> v * v > n,
        v * dn > x && x * x >= n * (dn * dn) ==> v * v > n,
{
    let w = v * dn;
    assert(w >= 0) by (nonlinear_arith)
        requires
            w == v * dn,
            v >= 0,
            dn > 0,
    ;
    lemma_squares(w, x);
    lemma_squares(x, w);
    let k = dn * dn;
    let v2 = v * v;
    assert(w * w == v2 * k) by (nonlinear_arith)
        requires
            w == v * dn,
            k == dn * dn,
            v2 == v * v,
    ;
    assert(k > 0) by (nonlinear_arith)
        requires
            k == dn * dn,
            dn > 0,
    ;
    assert(v2 * k < n * k ==> v2 < n) by (nonlinear_arith)
        requires
            k > 0,
    ;
    assert(v2 * k > n * k ==> v2 > n) by (nonlinear_arith)
        requires
            k > 0,
    ;
    assert(v2 * k == n * k ==> v2 == n) by (nonlinear_arith)
        requires
            k > 0,
    ;
}

proof fn lemma_squares(x: int, y: int)
    requires
        0 <= x,
        0 <= y,
    ensures
        x < y ==> x * x < y * y,
        x <= y ==> x * x <= y * y,
{
    assert(x < y ==> x * x < y * y) by (nonlinear_arith)
        requires
            0 <= x,
            0 <= y,
    ;
}

/// A significand may be shifted left if its exponent is lowered as much.
proof fn lemma_lands_shifted(m: int, e: int, k: nat, b: int)
    requires
        lands(m * pow2(k), e - k, false, b),
    ensures
        lands(m, e, false, b),
{
    let f = e - k;
    let p = pow2(k) as int;
    let top = if e > 0 {
        e
    } else {
        0
    };
    lemma_scales(e, top);
    lemma_scales(f, top);
    // 2^(top - f) == 2^(top - e) * 2^k
    lemma_pow2_adds((top - e) as nat, k);
    assert((top - e) as nat + k == (top - f) as nat);
    let t = pow2(top as nat) as int;
    let g = pow2((top - e) as nat) as int;
    lemma_pow2_pos((top - e) as nat);
    // t * down(e) == g * up(e),  t * down(f) == g * p * up(f)
    assert(down(e) * (p * up(f)) == up(e) * down(f)) by (nonlinear_arith)
        requires
            t * down(e) == g * up(e),
            t * down(f) == g * p * up(f),
            t > 0,
            g > 0,
    {
        assert((t * down(e)) * (g * p * up(f)) == (g * up(e)) * (t * down(f)));
        assert((t * g) * (down(e) * (p * up(f))) == (t * g) * (up(e) * down(f)));
        assert(t * g > 0);
    }
    let low = mag(b - 1) + mag(b);
    let high = mag(b) + mag(b + 1);
    assert(2 * (m * p) * up(f) * down(e) == 2 * m * up(e) * down(f)) by (nonlinear_arith)
        requires
            down(e) * (p * up(f)) == up(e) * down(f),
    ;
    lemma_compare(low, down(e), down(f), 2 * (m * p) * up(f), 2 * m * up(e));
    lemma_compare(high, down(e), down(f), 2 * (m * p) * up(f), 2 * m * up(e));
}

/// Round `m * 2^e`.
fn round_exact(m: u64, e: i32) -> (b: u32)
    requires
        0 < m < 0x8000_0000_0000_0000,
        -1900 <= e <= 1900,
    ensures
        lands(m as int, e as int, false, b as int),
{
    let len = bit_length(m);
    proof {
        lemma2_to64();
        lemma2_to64_rest();
        if len > 63 {
            assert(false);
        }
    }
    let k: u64 = 63 - len as u64;
    proof {
        lemma_pow2_adds(len as nat, k as nat);
        lemma_pow2_adds((len - 1) as nat, k as nat);
        let p = pow2(k as nat) as int;
        lemma_pow2_pos(k as nat);
        let a = pow2((len - 1) as nat) as int;
        let z = pow2(len as nat) as int;
        assert(a * p <= m * p < z * p) by (nonlinear_arith)
            requires
                a <= m < z,
                p > 0,
        ;
        lemma_u64_shl_is_mul(m, k);
    }
    let wide: u64 = m << k;
    let b = round(wide, e - k as i32, false);
    proof {
        lemma_lands_shifted(m as int, e as int, k as nat, b as int);
    }
    b
}

/// A magnitude is nearest to its own value.
pub proof fn lemma_nearest_exact(b: int)
    requires
        0 <= b < INF_BITS,
    ensures
        nearest(mag(b) as nat, 1) == b,
{
    if b > 0 {
        lemma_mag_step(b - 1);
    }
    lemma_mag_step(b);
    assert(is_nearest(mag(b) as nat, 1, b));
    lemma_nearest_unique(mag(b) as nat, 1, b, nearest(mag(b) as nat, 1));
}

/// Zero is nearest to zero.
pub proof fn lemma_nearest_zero(d: nat)
    requires
        d > 0,
    ensures
        nearest(0, d) == 0,
{
    assert(mag(0) == 0 && mag(1) == 1);
    assert((mag(0) + mag(1)) * d == d);
    assert(is_nearest(0, d, 0));
    lemma_nearest_unique(0, d, 0, nearest(0, d));
}

/// Every quotient has a nearest magnitude in range.
pub proof fn lemma_nearest_range(n: nat, d: nat, b: int)
    requires
        is_nearest(n, d, b),
        d > 0,
    ensures
        nearest(n, d) == b,
{
    lemma_nearest_unique(n, d, b, nearest(n, d));
}

} // verus!
