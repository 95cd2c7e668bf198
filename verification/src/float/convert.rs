//! Between numbers and integers.
use super::arith::pack;
use super::{round, round_exact, F32, HIDDEN, INF_BITS};
use vstd::arithmetic::div_mod::*;
use vstd::arithmetic::mul::*;
use vstd::arithmetic::power2::*;
use vstd::bits::*;
use vstd::prelude::*;

verus! {

/// The magnitude nearest to the whole number `v`.
pub open spec fn whole_magnitude(v: nat) -> int {
    super::nearest(v * super::arith::one_units(), 1)
}

/// The number nearest to the integer `v`.
#[verifier::opaque]
pub open spec fn of_int(v: int) -> F32 {
    if v < 0 {
        super::signed(true, whole_magnitude((-v) as nat))
    } else {
        super::signed(false, whole_magnitude(v as nat))
    }
}

/// The magnitude nearest to `v`.
fn magnitude_of(v: u64) -> (b: u32)
    ensures
        b == whole_magnitude(v as nat),
        b <= INF_BITS,
{
    proof {
        lemma_pow2_pos(149);
        lemma2_to64();
    }
    let ghost one = super::arith::one_units() as int;
    if v == 0 {
        proof {
            assert(0 * one == 0);
            super::lemma_nearest_zero(1);
        }
        return 0;
    }
    if v < 0x8000_0000_0000_0000 {
        let b = round_exact(v, 149);
        proof {
            let n = v as nat * super::arith::one_units();
            assert(super::up(149) == one);
            assert(super::down(149) == 1);
            assert(n * 1 == v as int * (1 * one)) by (nonlinear_arith)
                requires
                    n == v * one,
            ;
            super::lemma_quotient(v as int, 149, false, b as int, n, 1);
        }
        b
    } else {
        let half: u64 = v / 2;
        let odd = v % 2 == 1;
        let b = round(half, 150, odd);
        proof {
            lemma_pow2_adds(149, 1);
            let n = v as nat * super::arith::one_units();
            assert(super::up(150) == 2 * one);
            assert(super::down(150) == 1);
            assert(n * 1 == half as int * (1 * (2 * one)) + if odd {
                one
            } else {
                0
            }) by (nonlinear_arith)
                requires
                    n == v * one,
                    v == 2 * half + (if odd {
                        1int
                    } else {
                        0
                    }),
            ;
            assert((half + 1) * (1 * (2 * one)) == half as int * (1 * (2 * one)) + 2 * one)
                by (nonlinear_arith);
            super::lemma_quotient(half as int, 150, odd, b as int, n, 1);
        }
        b
    }
}

impl F32 {
    /// The number nearest to `v`.
    pub open spec fn from_i32_spec(v: i32) -> F32 {
        of_int(v as int)
    }

    /// The number nearest to `v`.
    #[verifier::when_used_as_spec(from_i32_spec)]
    pub fn from_i32(v: i32) -> (r: F32)
        ensures
            r == F32::from_i32(v),
    {
        reveal(of_int);
        if v < 0 {
            pack(true, magnitude_of((-(v as i64)) as u64))
        } else {
            pack(false, magnitude_of(v as u64))
        }
    }

    /// The number nearest to `v`.
    pub open spec fn from_i64_spec(v: i64) -> F32 {
        of_int(v as int)
    }

    /// The number nearest to `v`.
    #[verifier::when_used_as_spec(from_i64_spec)]
    pub fn from_i64(v: i64) -> (r: F32)
        requires
            v > i64::MIN,
        ensures
            r == F32::from_i64(v),
    {
        reveal(of_int);
        if v < 0 {
            pack(true, magnitude_of((-v) as u64))
        } else {
            pack(false, magnitude_of(v as u64))
        }
    }

    /// The number nearest to `v`.
    pub open spec fn from_usize_spec(v: usize) -> F32 {
        of_int(v as int)
    }

    /// The number nearest to `v`.
    #[verifier::when_used_as_spec(from_usize_spec)]
    pub fn from_usize(v: usize) -> (r: F32)
        ensures
            r == F32::from_usize(v),
    {
        reveal(of_int);
        pack(false, magnitude_of(v as u64))
    }
}

// ---------------------------------------------------------------------------------------------
// To integers
// ---------------------------------------------------------------------------------------------
/// How many whole ones there are in `a`, whatever its sign.
pub open spec fn whole_part(a: F32) -> nat {
    a.size() / super::arith::one_units()
}

/// Does `a` have a fractional part?
pub open spec fn fractional(a: F32) -> bool {
    a.size() % super::arith::one_units() != 0
}

/// `a` without its fractional part, kept between `low` and `high`. NaN gives 0.
#[verifier::opaque]
pub open spec fn truncated(a: F32, low: int, high: int) -> int {
    if a.nan() {
        0
    } else if a.infinite() {
        if a.negative() {
            low
        } else {
            high
        }
    } else {
        let v: int = if a.negative() {
            -whole_part(a)
        } else {
            whole_part(a) as int
        };
        if v < low {
            low
        } else if v > high {
            high
        } else {
            v
        }
    }
}

/// Whole part of a finite number (at most `u64::MAX`), and the fraction left over: 0 for none,
/// 1 for less than one half, 2 for one half or more.
fn parts(a: F32) -> (r: (u64, u8))
    requires
        a.finite(),
    ensures
        r.0 == if whole_part(a) <= u64::MAX {
            whole_part(a) as int
        } else {
            u64::MAX as int
        },
        r.1 == 0 <==> !fractional(a),
        r.1 == 2 <==> 2 * (a.size() % super::arith::one_units()) >= super::arith::one_units(),
        r.1 <= 2,
        r.1 != 0 ==> r.0 < HIDDEN,
{
    let (m, e) = a.unpack();
    let ghost one = super::arith::one_units() as int;
    let ghost size = a.size() as int;
    proof {
        lemma_pow2_pos(149);
        lemma2_to64();
        lemma2_to64_rest();
    }
    if e >= 149 {
        let shift: i32 = e - 149;
        let ghost t = pow2(shift as nat) as int;
        proof {
            lemma_pow2_adds(149, shift as nat);
            lemma_pow2_pos(shift as nat);
            assert(size == (m * t) * one + 0) by (nonlinear_arith)
                requires
                    size == m * (one * t),
            ;
            lemma_fundamental_div_mod_converse(size, one, m * t, 0);
        }
        if shift > 40 {
            proof {
                lemma_pow2_strictly_increases(40, shift as nat);
                lemma_pow2_adds(40, 1);
                if shift > 41 {
                    lemma_pow2_strictly_increases(41, shift as nat);
                }
                assert(m * t >= 0x80_0000 * 0x200_0000_0000) by (nonlinear_arith)
                    requires
                        m >= 0x80_0000,
                        t >= 0x200_0000_0000,
                ;
            }
            return (u64::MAX, 0);
        }
        proof {
            if shift < 40 {
                lemma_pow2_strictly_increases(shift as nat, 40);
            }
            assert(m * t <= 0xff_ffff * 0x100_0000_0000) by (nonlinear_arith)
                requires
                    m <= 0xff_ffff,
                    0 < t <= 0x100_0000_0000,
            ;
            lemma_u64_shl_is_mul(m, shift as u64);
        }
        (m << (shift as u64), 0)
    } else {
        let shift: i32 = 149 - e;
        let ghost t = pow2(shift as nat) as int;
        let ghost p = pow2(e as nat) as int;
        proof {
            lemma_pow2_adds(e as nat, shift as nat);
            lemma_pow2_pos(shift as nat);
            lemma_pow2_pos(e as nat);
        }
        if shift > 24 {
            proof {
                lemma_pow2_strictly_increases(24, shift as nat);
                lemma_pow2_adds(24, 1);
                if shift > 25 {
                    lemma_pow2_strictly_increases(25, shift as nat);
                }
                // less than one half
                assert(2 * size < one) by (nonlinear_arith)
                    requires
                        size == m * p,
                        one == p * t,
                        t >= 0x200_0000,
                        m <= 0xff_ffff,
                        p > 0,
                ;
                assert(size >= 0 && (size == 0 <==> m == 0)) by (nonlinear_arith)
                    requires
                        size == m * p,
                        p > 0,
                        m >= 0,
                ;
                lemma_fundamental_div_mod_converse(size, one, 0, size);
            }
            return if m == 0 {
                (0, 0)
            } else {
                (0, 1)
            };
        }
        let whole: u64 = m >> (shift as u64);
        proof {
            lemma_u64_shr_is_div(m, shift as u64);
            lemma_fundamental_div_mod(m as int, t);
            lemma_mod_bound(m as int, t);
            lemma_pow2_adds((shift - 1) as nat, 1);
            if shift < 24 {
                lemma_pow2_strictly_increases(shift as nat, 24);
            }
            assert(m as int == whole * t + m as int % t) by (nonlinear_arith)
                requires
                    m as int == t * (m as int / t) + m as int % t,
                    whole == m as int / t,
            ;
            assert(whole * t <= m) by (nonlinear_arith)
                requires
                    m as int == whole * t + m as int % t,
                    m as int % t >= 0,
            ;
            lemma_u64_shl_is_mul(whole, shift as u64);
            lemma_u64_shl_is_mul(1, (shift - 1) as u64);
            lemma_pow2_strictly_increases((shift - 1) as nat, 24);
        }
        let rem: u64 = m - (whole << (shift as u64));
        let half: u64 = 1u64 << ((shift - 1) as u64);
        proof {
            let rest = rem * p;
            assert(size == whole * one + rest) by (nonlinear_arith)
                requires
                    size == m * p,
                    m == whole * t + rem,
                    one == p * t,
                    rest == rem * p,
            ;
            assert(0 <= rest < one && (rest == 0 <==> rem == 0) && (2 * rest >= one <==> rem
                >= half)) by (nonlinear_arith)
                requires
                    rest == rem * p,
                    one == p * t,
                    t == 2 * half,
                    0 <= rem < t,
                    p > 0,
            ;
            lemma_fundamental_div_mod_converse(size, one, whole as int, rest);
            assert(whole <= 0x7f_ffff) by (nonlinear_arith)
                requires
                    whole * t <= m,
                    t >= 2,
                    m <= 0xff_ffff,
            ;
        }
        if rem == 0 {
            (whole, 0)
        } else if rem < half {
            (whole, 1)
        } else {
            (whole, 2)
        }
    }
}

impl F32 {
    /// The whole part, kept in the range of `i32`.
    pub open spec fn to_i32_spec(self) -> i32 {
        truncated(self, i32::MIN as int, i32::MAX as int) as i32
    }

    /// The whole part, kept in the range of `i32`.
    #[verifier::when_used_as_spec(to_i32_spec)]
    pub fn to_i32(self) -> (r: i32)
        ensures
            r == self.to_i32(),
            r == truncated(self, i32::MIN as int, i32::MAX as int),
    {
        reveal(truncated);
        if self.is_nan() {
            return 0;
        }
        let (negative, magnitude) = self.split();
        if magnitude == INF_BITS {
            return if negative {
                i32::MIN
            } else {
                i32::MAX
            };
        }
        let (whole, _) = parts(self);
        if negative {
            if whole >= 0x8000_0000 {
                i32::MIN
            } else {
                -(whole as i32)
            }
        } else if whole >= 0x8000_0000 {
            i32::MAX
        } else {
            whole as i32
        }
    }

    /// The whole part, kept in the range of `i8`.
    pub open spec fn to_i8_spec(self) -> i8 {
        truncated(self, i8::MIN as int, i8::MAX as int) as i8
    }

    /// The whole part, kept in the range of `i8`.
    #[verifier::when_used_as_spec(to_i8_spec)]
    pub fn to_i8(self) -> (r: i8)
        ensures
            r == self.to_i8(),
            r == truncated(self, i8::MIN as int, i8::MAX as int),
    {
        reveal(truncated);
        let v = self.to_i32();
        if v < -128 {
            -128
        } else if v > 127 {
            127
        } else {
            v as i8
        }
    }

    /// The whole part, kept in the range of `usize`.
    pub open spec fn to_usize_spec(self) -> usize {
        truncated(self, 0, usize::MAX as int) as usize
    }

    /// The whole part, kept in the range of `usize`.
    #[verifier::when_used_as_spec(to_usize_spec)]
    pub fn to_usize(self) -> (r: usize)
        ensures
            r == self.to_usize(),
            r == truncated(self, 0, usize::MAX as int),
    {
        reveal(truncated);
        if self.is_nan() {
            return 0;
        }
        let (negative, magnitude) = self.split();
        if negative {
            return 0;
        }
        if magnitude == INF_BITS {
            return usize::MAX;
        }
        let (whole, _) = parts(self);
        if whole > usize::MAX as u64 {
            usize::MAX
        } else {
            whole as usize
        }
    }
}

// ---------------------------------------------------------------------------------------------
// To whole numbers
// ---------------------------------------------------------------------------------------------
/// `a` with `v` as its size, and the same sign.
pub open spec fn with_whole(a: F32, v: nat) -> F32 {
    super::signed(a.negative(), whole_magnitude(v))
}

/// A number without a fraction is its whole part.
proof fn lemma_whole(a: F32)
    requires
        a.finite(),
        !fractional(a),
    ensures
        with_whole(a, whole_part(a)) == a,
{
    let one = super::arith::one_units() as int;
    lemma_pow2_pos(149);
    lemma_fundamental_div_mod(a.size() as int, one);
    assert(whole_part(a) * one == a.size()) by (nonlinear_arith)
        requires
            a.size() as int == one * whole_part(a) + 0,
    ;
    if a.magnitude() > 0 {
        super::lemma_mag_ordered(0, a.magnitude());
    }
    super::lemma_nearest_exact(a.magnitude());
}

impl F32 {
    /// The largest whole number that is not larger.
    #[verifier::opaque]
    pub open spec fn floor_spec(self) -> F32 {
        if !self.finite() {
            self
        } else if self.negative() && fractional(self) {
            with_whole(self, whole_part(self) + 1)
        } else {
            with_whole(self, whole_part(self))
        }
    }

    /// The largest whole number that is not larger.
    #[verifier::when_used_as_spec(floor_spec)]
    pub fn floor(self) -> (r: F32)
        ensures
            r == self.floor(),
    {
        reveal(F32::floor_spec);
        if !self.is_finite() {
            return self;
        }
        let (negative, _) = self.split();
        let (whole, fraction) = parts(self);
        if fraction == 0 {
            proof {
                lemma_whole(self);
            }
            self
        } else if negative {
            pack(true, magnitude_of(whole + 1))
        } else {
            pack(false, magnitude_of(whole))
        }
    }

    /// The smallest whole number that is not smaller.
    #[verifier::opaque]
    pub open spec fn ceil_spec(self) -> F32 {
        if !self.finite() {
            self
        } else if !self.negative() && fractional(self) {
            with_whole(self, whole_part(self) + 1)
        } else {
            with_whole(self, whole_part(self))
        }
    }

    /// The smallest whole number that is not smaller.
    #[verifier::when_used_as_spec(ceil_spec)]
    pub fn ceil(self) -> (r: F32)
        ensures
            r == self.ceil(),
    {
        reveal(F32::ceil_spec);
        if !self.is_finite() {
            return self;
        }
        let (negative, _) = self.split();
        let (whole, fraction) = parts(self);
        if fraction == 0 {
            proof {
                lemma_whole(self);
            }
            self
        } else if negative {
            pack(true, magnitude_of(whole))
        } else {
            pack(false, magnitude_of(whole + 1))
        }
    }

    /// The nearest whole number; halfway between two, the one further from zero.
    #[verifier::opaque]
    pub open spec fn round_spec(self) -> F32 {
        if !self.finite() {
            self
        } else if 2 * (self.size() % super::arith::one_units()) >= super::arith::one_units() {
            with_whole(self, whole_part(self) + 1)
        } else {
            with_whole(self, whole_part(self))
        }
    }

    /// The nearest whole number; halfway between two, the one further from zero.
    #[verifier::when_used_as_spec(round_spec)]
    pub fn round(self) -> (r: F32)
        ensures
            r == self.round(),
    {
        reveal(F32::round_spec);
        if !self.is_finite() {
            return self;
        }
        let (negative, _) = self.split();
        let (whole, fraction) = parts(self);
        if fraction == 0 {
            proof {
                lemma_whole(self);
            }
            self
        } else if fraction == 2 {
            pack(negative, magnitude_of(whole + 1))
        } else {
            pack(negative, magnitude_of(whole))
        }
    }
}

} // verus!
