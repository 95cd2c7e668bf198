//! Double-precision numbers, as far as they are read from text: narrowing to single precision,
//! and truncation.
use super::arith::pack;
use super::decimal::two_to;
use super::{round_exact, F32};
use vstd::arithmetic::div_mod::*;
use vstd::arithmetic::power2::*;
use vstd::prelude::*;

verus! {

/// `2^52`: the weight of the hidden bit.
pub const DOUBLE_HIDDEN: u64 = 0x10_0000_0000_0000;

/// `2^63`: the sign bit.
pub const DOUBLE_SIGN: u64 = 0x8000_0000_0000_0000;

/// An IEEE-754 binary64 number, as its bit pattern.
#[derive(Debug, Clone, Copy, PartialEq, Eq, Structural)]
pub struct Double {
    pub bits: u64,
}

impl Double {
    pub open spec fn negative(self) -> bool {
        self.bits >= DOUBLE_SIGN
    }

    /// The exponent field.
    pub open spec fn field(self) -> int {
        self.bits as int / DOUBLE_HIDDEN as int % 2048
    }

    /// Is the number neither infinite nor NaN?
    pub open spec fn finite(self) -> bool {
        self.field() < 2047
    }

    /// The significand of a finite number.
    pub open spec fn significand(self) -> nat {
        let fraction = self.bits as int % DOUBLE_HIDDEN as int;
        if self.field() == 0 {
            fraction as nat
        } else {
            (fraction + DOUBLE_HIDDEN) as nat
        }
    }

    /// The exponent of a finite number, whose size is `significand * 2^exponent`.
    pub open spec fn exponent(self) -> int {
        if self.field() == 0 {
            -1074
        } else {
            self.field() - 1075
        }
    }

    /// The single-precision number nearest to a finite number.
    pub open spec fn narrowed(self) -> F32 {
        let m = self.significand();
        // in units of 2^-149
        let e = self.exponent() + 149;
        super::signed(
            self.negative(),
            if e >= 0 {
                super::nearest(m * pow2(e as nat), 1)
            } else {
                super::nearest(m, pow2((-e) as nat))
            },
        )
    }

    /// The size of a finite number, rounded down to a whole number.
    pub open spec fn whole(self) -> nat {
        let m = self.significand();
        let e = self.exponent();
        if e >= 0 {
            m * pow2(e as nat)
        } else {
            m / pow2((-e) as nat)
        }
    }

    /// A finite number, rounded toward zero to a whole number, as far as 64 bits reach.
    pub open spec fn truncated(self) -> int {
        let v = if self.negative() {
            -(self.whole() as int)
        } else {
            self.whole() as int
        };
        if v < i64::MIN {
            i64::MIN as int
        } else if v > i64::MAX {
            i64::MAX as int
        } else {
            v
        }
    }

    /// Is the number neither infinite nor NaN?
    pub fn is_finite(self) -> (r: bool)
        ensures
            r == self.finite(),
    {
        self.bits / DOUBLE_HIDDEN % 2048 < 2047
    }

    /// Sign, significand and exponent.
    fn parts(self) -> (r: (bool, u64, i32))
        requires
            self.finite(),
        ensures
            r.0 == self.negative(),
            r.1 == self.significand(),
            r.2 == self.exponent(),
            r.1 < 2 * DOUBLE_HIDDEN,
            -1074 <= r.2 <= 971,
            r.2 > -1074 ==> r.1 >= DOUBLE_HIDDEN,
    {
        let field: u64 = self.bits / DOUBLE_HIDDEN % 2048;
        let fraction: u64 = self.bits % DOUBLE_HIDDEN;
        let negative = self.bits >= DOUBLE_SIGN;
        if field == 0 {
            (negative, fraction, -1074)
        } else {
            (negative, fraction + DOUBLE_HIDDEN, field as i32 - 1075)
        }
    }

    /// The nearest single-precision number.
    pub fn to_single(self) -> (r: F32)
        requires
            self.finite(),
        ensures
            r == self.narrowed(),
    {
        let (negative, m, k) = self.parts();
        let e: i32 = k + 149;
        if m == 0 {
            proof {
                if e < 0 {
                    lemma_pow2_pos((-e) as nat);
                    super::lemma_nearest_zero(pow2((-e) as nat));
                }
            }
            return pack(negative, 0);
        }
        let b = round_exact(m, e);
        proof {
            if e >= 0 {
                let p = pow2(e as nat);
                lemma2_to64();
                assert(super::up(e as int) == p);
                assert(super::down(e as int) == 1);
                assert((m * p) * 1 == m as int * (1 * p)) by (nonlinear_arith);
                super::lemma_quotient(m as int, e as int, false, b as int, (m * p) as nat, 1);
            } else {
                let p = pow2((-e) as nat);
                lemma2_to64();
                lemma_pow2_pos((-e) as nat);
                assert(super::up(e as int) == 1);
                assert(super::down(e as int) == p);
                assert(m as int * p == m as int * (p * 1)) by (nonlinear_arith);
                super::lemma_quotient(m as int, e as int, false, b as int, m as nat, p);
            }
        }
        pack(negative, b)
    }

    /// The size, rounded down, or `None` where that does not fit in 63 bits.
    fn whole_size(self) -> (r: Option<u64>)
        requires
            self.finite(),
        ensures
            match r {
                Some(v) => v == self.whole() && v < DOUBLE_SIGN,
                None => self.whole() >= DOUBLE_SIGN,
            },
    {
        let (_, m, e) = self.parts();
        proof {
            lemma2_to64();
            lemma2_to64_rest();
        }
        if e >= 0 {
            if e >= 11 {
                proof {
                    if e > 11 {
                        lemma_pow2_strictly_increases(11, e as nat);
                    }
                    let p = pow2(e as nat);
                    assert(m * p >= 0x10_0000_0000_0000 * 0x800) by (nonlinear_arith)
                        requires
                            m >= 0x10_0000_0000_0000,
                            p >= 0x800,
                    ;
                }
                return None;
            }
            let p = two_to(e as u32);
            proof {
                if e < 10 {
                    lemma_pow2_strictly_increases(e as nat, 10);
                }
                assert(m * p < 0x20_0000_0000_0000 * 0x400) by (nonlinear_arith)
                    requires
                        m < 0x20_0000_0000_0000,
                        0 < p <= 0x400,
                ;
            }
            Some(m * p)
        } else {
            let k: u32 = (-e) as u32;
            if k >= 53 {
                proof {
                    if k > 53 {
                        lemma_pow2_strictly_increases(53, k as nat);
                    }
                    lemma_basic_div(m as int, pow2(k as nat) as int);
                }
                return Some(0);
            }
            let p = two_to(k);
            proof {
                lemma_div_is_ordered_by_denominator(m as int, 1, p as int);
            }
            Some(m / p)
        }
    }

    /// Round toward zero to a whole number, as far as 64 bits reach.
    pub fn to_i64(self) -> (r: i64)
        requires
            self.finite(),
        ensures
            r == self.truncated(),
    {
        let negative = self.bits >= DOUBLE_SIGN;
        match self.whole_size() {
            Some(v) => if negative {
                -(v as i64)
            } else {
                v as i64
            },
            None => if negative {
                i64::MIN
            } else {
                i64::MAX
            },
        }
    }
}

} // verus!
