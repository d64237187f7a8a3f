//! IEEE 754 binary32 numbers, held as their bit patterns.
//!
//! The kernels of this crate never look inside a number except to order it.
//! Ordering is defined here, on the bit pattern: bit 31 is the sign, the
//! remaining 31 bits are the magnitude, magnitudes above that of infinity are
//! NaNs. Everything that rounds (sums, products, `exp`, ...) is left to an
//! [`Arithmetic`](crate::arithmetic::Arithmetic) provider.
use vstd::prelude::*;

verus! {

/// The bit that holds the sign.
pub const SIGN_BIT: u32 = 0x8000_0000;

/// The magnitude of the two infinities. Larger magnitudes are NaNs.
pub const INFINITY_MAGNITUDE: u32 = 0x7f80_0000;

/// The bit pattern of `+1.0`.
pub const ONE_BITS: u32 = 0x3f80_0000;

/// A binary32 number, identified by its 32 bits.
#[derive(Clone, Copy, Debug)]
pub struct Binary32 {
    pub bits: u32,
}

impl Binary32 {
    /// The sign bit is set. Holds of `-0.0` and of half of the NaNs too.
    pub open spec fn negative(self) -> bool {
        self.bits >= SIGN_BIT
    }

    /// The bits without the sign.
    pub open spec fn magnitude(self) -> int {
        if self.bits >= SIGN_BIT {
            self.bits - SIGN_BIT
        } else {
            self.bits as int
        }
    }

    /// The number is a NaN.
    pub open spec fn spec_is_nan(self) -> bool {
        self.magnitude() > INFINITY_MAGNITUDE
    }

    /// Where the number stands among the numbers that are not NaN: `a` is
    /// less than `b` exactly when `a.order() < b.order()`. The two zeros
    /// share position 0; the infinities are the two ends.
    pub open spec fn order(self) -> int {
        if self.negative() {
            -self.magnitude()
        } else {
            self.magnitude()
        }
    }

    /// Where the bit pattern stands in the total order of IEEE 754, which
    /// tells every two patterns apart: negative NaNs, `-inf`, the negative
    /// numbers, `-0.0`, `+0.0`, the positive numbers, `+inf`, positive NaNs.
    pub open spec fn total_order(self) -> int {
        if self.negative() {
            -self.magnitude() - 1
        } else {
            self.magnitude()
        }
    }

    /// `self < other`: false as soon as one side is a NaN.
    pub open spec fn spec_lt(self, other: Binary32) -> bool {
        !self.spec_is_nan() && !other.spec_is_nan() && self.order() < other.order()
    }

    /// `self <= other`: false as soon as one side is a NaN.
    pub open spec fn spec_le(self, other: Binary32) -> bool {
        !self.spec_is_nan() && !other.spec_is_nan() && self.order() <= other.order()
    }

    /// `self > other`: false as soon as one side is a NaN.
    pub open spec fn spec_gt(self, other: Binary32) -> bool {
        other.spec_lt(self)
    }

    /// `self >= other`: false as soon as one side is a NaN.
    pub open spec fn spec_ge(self, other: Binary32) -> bool {
        other.spec_le(self)
    }

    /// The larger of two numbers. A NaN loses against anything else; of two
    /// numbers that compare equal, and of two NaNs, the left one is kept.
    pub open spec fn spec_max(self, other: Binary32) -> Binary32 {
        if self.spec_is_nan() {
            if other.spec_is_nan() {
                self
            } else {
                other
            }
        } else if self.spec_lt(other) {
            other
        } else {
            self
        }
    }

    /// The smaller of two numbers. A NaN loses against anything else; of two
    /// numbers that compare equal, and of two NaNs, the left one is kept.
    pub open spec fn spec_min(self, other: Binary32) -> Binary32 {
        if self.spec_is_nan() {
            if other.spec_is_nan() {
                self
            } else {
                other
            }
        } else if other.spec_lt(self) {
            other
        } else {
            self
        }
    }

    /// The number with its sign flipped and every other bit kept.
    pub open spec fn spec_neg(self) -> Binary32 {
        if self.bits >= SIGN_BIT {
            Binary32 { bits: (self.bits - SIGN_BIT) as u32 }
        } else {
            Binary32 { bits: (self.bits + SIGN_BIT) as u32 }
        }
    }

    /// `+0.0`.
    pub open spec fn spec_zero() -> Binary32 {
        Binary32 { bits: 0 }
    }

    /// `+1.0`.
    pub open spec fn spec_one() -> Binary32 {
        Binary32 { bits: ONE_BITS }
    }

    /// The number with the given bits.
    pub fn from_bits(bits: u32) -> (r: Binary32)
        ensures
            r.bits == bits,
    {
        Binary32 { bits }
    }

    /// The bits of the number.
    pub fn to_bits(self) -> (bits: u32)
        ensures
            bits == self.bits,
    {
        self.bits
    }

    /// `+0.0`.
    #[verifier::when_used_as_spec(spec_zero)]
    pub fn zero() -> (r: Binary32)
        ensures
            r == Binary32::spec_zero(),
    {
        Binary32 { bits: 0 }
    }

    /// `+1.0`.
    #[verifier::when_used_as_spec(spec_one)]
    pub fn one() -> (r: Binary32)
        ensures
            r == Binary32::spec_one(),
    {
        Binary32 { bits: ONE_BITS }
    }

    fn magnitude_bits(self) -> (m: u32)
        ensures
            m == self.magnitude(),
            m < SIGN_BIT,
    {
        if self.bits >= SIGN_BIT {
            self.bits - SIGN_BIT
        } else {
            self.bits
        }
    }

    /// Whether the number is a NaN.
    #[verifier::when_used_as_spec(spec_is_nan)]
    pub fn is_nan(self) -> (r: bool)
        ensures
            r == self.spec_is_nan(),
    {
        self.magnitude_bits() > INFINITY_MAGNITUDE
    }

    fn order_value(self) -> (r: i64)
        ensures
            r == self.order(),
    {
        let m: u32 = self.magnitude_bits();
        if self.bits >= SIGN_BIT {
            -(m as i64)
        } else {
            m as i64
        }
    }

    /// `self < other`.
    #[verifier::when_used_as_spec(spec_lt)]
    pub fn lt(self, other: Binary32) -> (r: bool)
        ensures
            r == self.spec_lt(other),
    {
        !self.is_nan() && !other.is_nan() && self.order_value() < other.order_value()
    }

    /// `self <= other`.
    #[verifier::when_used_as_spec(spec_le)]
    pub fn le(self, other: Binary32) -> (r: bool)
        ensures
            r == self.spec_le(other),
    {
        !self.is_nan() && !other.is_nan() && self.order_value() <= other.order_value()
    }

    /// `self > other`.
    #[verifier::when_used_as_spec(spec_gt)]
    pub fn gt(self, other: Binary32) -> (r: bool)
        ensures
            r == self.spec_gt(other),
    {
        other.lt(self)
    }

    /// `self >= other`.
    #[verifier::when_used_as_spec(spec_ge)]
    pub fn ge(self, other: Binary32) -> (r: bool)
        ensures
            r == self.spec_ge(other),
    {
        other.le(self)
    }

    /// The larger of two numbers, a NaN only where both are.
    #[verifier::when_used_as_spec(spec_max)]
    pub fn max(self, other: Binary32) -> (r: Binary32)
        ensures
            r == self.spec_max(other),
    {
        if self.is_nan() {
            if other.is_nan() {
                self
            } else {
                other
            }
        } else if self.lt(other) {
            other
        } else {
            self
        }
    }

    /// The smaller of two numbers, a NaN only where both are.
    #[verifier::when_used_as_spec(spec_min)]
    pub fn min(self, other: Binary32) -> (r: Binary32)
        ensures
            r == self.spec_min(other),
    {
        if self.is_nan() {
            if other.is_nan() {
                self
            } else {
                other
            }
        } else if other.lt(self) {
            other
        } else {
            self
        }
    }

    /// `-self`: the sign flipped, every other bit kept.
    #[verifier::when_used_as_spec(spec_neg)]
    pub fn neg(self) -> (r: Binary32)
        ensures
            r == self.spec_neg(),
    {
        if self.bits >= SIGN_BIT {
            Binary32 { bits: self.bits - SIGN_BIT }
        } else {
            Binary32 { bits: self.bits + SIGN_BIT }
        }
    }

    /// The position in the total order, moved into `u32`: a pattern that
    /// stands higher in the total order has the larger key.
    pub fn total_key(self) -> (key: u32)
        ensures
            key == self.total_order() + SIGN_BIT,
    {
        let m: u32 = self.magnitude_bits();
        if self.bits >= SIGN_BIT {
            SIGN_BIT - 1 - m
        } else {
            m + SIGN_BIT
        }
    }
}

/// The order of the numbers is a weakening of the total order: what is less
/// as a number stands lower in the total order, and two patterns on one
/// position of the total order are the same pattern.
pub proof fn lemma_total_order_refines_order(a: Binary32, b: Binary32)
    ensures
        a.spec_lt(b) ==> a.total_order() < b.total_order(),
        a.total_order() == b.total_order() <==> a == b,
        a.total_order() <= b.total_order() && !a.spec_is_nan() && !b.spec_is_nan() ==> a.spec_le(b),
{
}

/// Without NaNs the numbers are totally preordered: `<=` is reflexive and
/// transitive, any two numbers compare, and `<` is the strict part of `<=`.
pub proof fn lemma_order_of_numbers(a: Binary32, b: Binary32, c: Binary32)
    requires
        !a.spec_is_nan(),
        !b.spec_is_nan(),
        !c.spec_is_nan(),
    ensures
        a.spec_le(a),
        a.spec_le(b) || b.spec_le(a),
        a.spec_le(b) && b.spec_le(c) ==> a.spec_le(c),
        a.spec_lt(b) <==> !b.spec_le(a),
{
}

/// `max` and `min` hand back one of their arguments, a NaN only where both
/// are NaNs, and the result bounds both arguments where neither is a NaN.
pub proof fn lemma_max_min(a: Binary32, b: Binary32)
    ensures
        a.spec_max(b) == a || a.spec_max(b) == b,
        a.spec_min(b) == a || a.spec_min(b) == b,
        a.spec_max(b).spec_is_nan() <==> a.spec_is_nan() && b.spec_is_nan(),
        a.spec_min(b).spec_is_nan() <==> a.spec_is_nan() && b.spec_is_nan(),
        !a.spec_is_nan() && !b.spec_is_nan() ==> a.spec_le(a.spec_max(b)) && b.spec_le(
            a.spec_max(b),
        ),
        !a.spec_is_nan() && !b.spec_is_nan() ==> a.spec_min(b).spec_le(a) && a.spec_min(b).spec_le(
            b,
        ),
{
}

} // verus!
