//! Comparing numbers. A comparison with NaN is false, and the two zeros are equal.
use super::{num, F32, INF_BITS, SIGN_BIT};
use vstd::prelude::*;

verus! {

impl F32 {
    pub open spec fn is_nan_spec(self) -> bool {
        self.nan()
    }

    #[verifier::when_used_as_spec(is_nan_spec)]
    pub fn is_nan(self) -> (r: bool)
        ensures
            r == self.is_nan(),
    {
        let (_, magnitude) = self.split();
        magnitude > INF_BITS
    }

    pub open spec fn is_finite_spec(self) -> bool {
        self.finite()
    }

    #[verifier::when_used_as_spec(is_finite_spec)]
    pub fn is_finite(self) -> (r: bool)
        ensures
            r == self.is_finite(),
    {
        let (_, magnitude) = self.split();
        magnitude < INF_BITS
    }

    /// Sign bit and magnitude bits.
    pub(super) fn split(self) -> (r: (bool, u32))
        ensures
            r.0 == self.negative(),
            r.1 == self.magnitude(),
    {
        if self.bits >= SIGN_BIT {
            (true, self.bits - SIGN_BIT)
        } else {
            (false, self.bits)
        }
    }

    /// `self < other`.
    #[verifier::opaque]
    pub open spec fn lt_spec(self, other: F32) -> bool {
        !self.nan() && !other.nan() && self.rank() < other.rank()
    }

    #[verifier::when_used_as_spec(lt_spec)]
    pub fn lt(self, other: F32) -> (r: bool)
        ensures
            r == self.lt(other),
    {
        reveal(F32::lt_spec);
        if self.is_nan() || other.is_nan() {
            return false;
        }
        let (na, a) = self.split();
        let (nb, b) = other.split();
        if na {
            if nb {
                b < a
            } else {
                a > 0 || b > 0
            }
        } else if nb {
            false
        } else {
            a < b
        }
    }

    /// `self <= other`.
    #[verifier::opaque]
    pub open spec fn le_spec(self, other: F32) -> bool {
        !self.nan() && !other.nan() && self.rank() <= other.rank()
    }

    #[verifier::when_used_as_spec(le_spec)]
    pub fn le(self, other: F32) -> (r: bool)
        ensures
            r == self.le(other),
    {
        reveal(F32::le_spec);
        reveal(F32::lt_spec);
        if self.is_nan() || other.is_nan() {
            return false;
        }
        !other.lt(self)
    }

    /// `self > other`.
    #[verifier::inline]
    pub open spec fn gt_spec(self, other: F32) -> bool {
        other.lt(self)
    }

    #[verifier::when_used_as_spec(gt_spec)]
    pub fn gt(self, other: F32) -> (r: bool)
        ensures
            r == self.gt(other),
    {
        other.lt(self)
    }

    /// `self >= other`.
    #[verifier::inline]
    pub open spec fn ge_spec(self, other: F32) -> bool {
        other.le(self)
    }

    #[verifier::when_used_as_spec(ge_spec)]
    pub fn ge(self, other: F32) -> (r: bool)
        ensures
            r == self.ge(other),
    {
        other.le(self)
    }

    /// Do the two compare as equal numbers?
    #[verifier::opaque]
    pub open spec fn same_spec(self, other: F32) -> bool {
        !self.nan() && !other.nan() && self.rank() == other.rank()
    }

    #[verifier::when_used_as_spec(same_spec)]
    pub fn same(self, other: F32) -> (r: bool)
        ensures
            r == self.same(other),
    {
        reveal(F32::same_spec);
        reveal(F32::le_spec);
        self.le(other) && other.le(self)
    }

    /// Are both numbers zero, and is this one the negative zero?
    pub open spec fn lower_zero(self, other: F32) -> bool {
        self.negative() && self.magnitude() == 0 && other.magnitude() == 0
    }

    /// The smaller of two numbers; where one is NaN, the other. Of two zeros it is the negative
    /// one, if there is one.
    #[verifier::opaque]
    pub open spec fn min_spec(self, other: F32) -> F32 {
        if self.nan() || other.lt(self) || other.lower_zero(self) {
            other
        } else {
            self
        }
    }

    #[verifier::when_used_as_spec(min_spec)]
    pub fn min(self, other: F32) -> (r: F32)
        ensures
            r == self.min(other),
    {
        reveal(F32::min_spec);
        let (negative, magnitude) = other.split();
        let (_, own) = self.split();
        if self.is_nan() || other.lt(self) || (negative && magnitude == 0 && own == 0) {
            other
        } else {
            self
        }
    }

    /// The larger of two numbers; where one is NaN, the other. Of two zeros it is the positive one,
    /// if there is one.
    #[verifier::opaque]
    pub open spec fn max_spec(self, other: F32) -> F32 {
        if self.nan() || self.lt(other) || self.lower_zero(other) {
            other
        } else {
            self
        }
    }

    #[verifier::when_used_as_spec(max_spec)]
    pub fn max(self, other: F32) -> (r: F32)
        ensures
            r == self.max(other),
    {
        reveal(F32::max_spec);
        let (negative, magnitude) = self.split();
        let (_, theirs) = other.split();
        if self.is_nan() || self.lt(other) || (negative && magnitude == 0 && theirs == 0) {
            other
        } else {
            self
        }
    }

    /// `self` moved into the range from `low` to `high`. NaN stays NaN.
    #[verifier::opaque]
    pub open spec fn clamp_spec(self, low: F32, high: F32) -> F32 {
        if self.lt(low) {
            low
        } else if high.lt(self) {
            high
        } else {
            self
        }
    }

    #[verifier::when_used_as_spec(clamp_spec)]
    pub fn clamp(self, low: F32, high: F32) -> (r: F32)
        ensures
            r == self.clamp(low, high),
    {
        reveal(F32::clamp_spec);
        if self.lt(low) {
            low
        } else if high.lt(self) {
            high
        } else {
            self
        }
    }

    /// The absolute value.
    #[verifier::opaque]
    pub open spec fn abs_spec(self) -> F32 {
        num(self.magnitude() as u32)
    }

    #[verifier::when_used_as_spec(abs_spec)]
    pub fn abs(self) -> (r: F32)
        ensures
            r == self.abs(),
    {
        reveal(F32::abs_spec);
        let (_, magnitude) = self.split();
        num(magnitude)
    }

    /// The opposite: the same number with its sign bit flipped.
    #[verifier::opaque]
    pub open spec fn neg_spec(self) -> F32 {
        super::signed(!self.negative(), self.magnitude())
    }

    #[verifier::when_used_as_spec(neg_spec)]
    pub fn neg(self) -> (r: F32)
        ensures
            r == self.neg(),
    {
        reveal(F32::neg_spec);
        let (negative, magnitude) = self.split();
        if negative {
            num(magnitude)
        } else {
            num(magnitude + SIGN_BIT)
        }
    }
}

/// `<=` is a total order on the numbers other than NaN, up to the sign of zero, and `<` is its
/// strict part.
pub proof fn law_comparison_is_a_total_order(a: F32, b: F32, c: F32)
    ensures
        !a.nan() ==> a.le(a),
        !a.nan() && !b.nan() ==> a.le(b) || b.le(a),
        a.le(b) && b.le(c) ==> a.le(c),
        a.le(b) && b.le(a) ==> a.same(b),
        a.lt(b) <==> a.le(b) && !b.le(a),
        a.lt(b) && b.le(c) ==> a.lt(c),
        a.le(b) && b.lt(c) ==> a.lt(c),
{
    reveal(F32::le_spec);
    reveal(F32::lt_spec);
    reveal(F32::same_spec);
}

/// The smaller and the larger of two numbers bound both of them.
pub proof fn lemma_min_max(a: F32, b: F32)
    ensures
        a.min(b) == a || a.min(b) == b,
        a.max(b) == a || a.max(b) == b,
        !a.nan() || !b.nan() ==> !a.min(b).nan() && !a.max(b).nan(),
        !a.nan() ==> a.min(b).le(a) && a.le(a.max(b)),
        !b.nan() ==> a.min(b).le(b) && b.le(a.max(b)),
{
    reveal(F32::le_spec);
    reveal(F32::lt_spec);
    reveal(F32::min_spec);
    reveal(F32::max_spec);
}

/// A number other than NaN that is clamped lies between the bounds.
pub proof fn lemma_clamp(a: F32, low: F32, high: F32)
    requires
        !a.nan(),
        low.le(high),
    ensures
        low.le(a.clamp(low, high)),
        a.clamp(low, high).le(high),
        low.le(a) && a.le(high) ==> a.clamp(low, high) == a,
{
    reveal(F32::le_spec);
    reveal(F32::lt_spec);
    reveal(F32::clamp_spec);
}

} // verus!
