//! Binary64 numbers, held by their bit patterns.
//!
//! The sign bit is the topmost; below it stand exponent and significand, so
//! that among numbers of one sign the bits, read as an integer, grow with the
//! magnitude. Comparing two numbers is comparing two integers.
use vstd::prelude::*;

verus! {

/// The bit pattern of a binary64 number. Two values are `==` when they have
/// the same bits.
#[derive(Clone, Copy, Debug, PartialEq, Eq, Structural)]
pub struct Double {
    pub bits: u64,
}

/// The bits of negative zero: the sign alone.
pub const SIGN: u64 = 0x8000_0000_0000_0000;

/// The magnitude of an infinity. What lies above it is not a number.
pub const INFINITE: u64 = 0x7ff0_0000_0000_0000;

impl Double {
    /// The bits without the sign.
    pub open spec fn magnitude(self) -> int {
        if self.bits < SIGN {
            self.bits as int
        } else {
            self.bits - SIGN
        }
    }

    pub open spec fn nan(self) -> bool {
        self.magnitude() > INFINITE
    }

    pub open spec fn finite(self) -> bool {
        self.magnitude() < INFINITE
    }

    /// The place of a number in numeric order, in which the two zeros share a
    /// place.
    pub open spec fn rank(self) -> int {
        if self.bits < SIGN {
            self.bits as int
        } else {
            SIGN - self.bits
        }
    }

    /// The place in the total order of all bit patterns: numeric order with
    /// negative zero just below zero, and what is not a number at the ends.
    pub open spec fn place(self) -> int {
        if self.bits < SIGN {
            self.bits as int
        } else {
            SIGN - self.bits - 1
        }
    }

    /// `self < other`, which is false where either is not a number.
    pub open spec fn less(self, other: Double) -> bool {
        !self.nan() && !other.nan() && self.rank() < other.rank()
    }

    /// `self <= other`, which is false where either is not a number.
    pub open spec fn at_most(self, other: Double) -> bool {
        !self.nan() && !other.nan() && self.rank() <= other.rank()
    }

    /// `self == other` as numbers.
    pub open spec fn equal(self, other: Double) -> bool {
        !self.nan() && !other.nan() && self.rank() == other.rank()
    }

    /// The lesser of two, where what is not a number gives way.
    pub open spec fn lesser(self, other: Double) -> Double {
        if self.nan() || other.less(self) {
            other
        } else {
            self
        }
    }

    /// The greater of two, where what is not a number gives way.
    pub open spec fn greater(self, other: Double) -> Double {
        if self.nan() || self.less(other) {
            other
        } else {
            self
        }
    }

    pub fn from_bits(bits: u64) -> (r: Double)
        ensures
            r.bits == bits,
    {
        Double { bits }
    }

    pub fn to_bits(self) -> (r: u64)
        ensures
            r == self.bits,
    {
        self.bits
    }

    pub fn is_nan(self) -> (r: bool)
        ensures
            r == self.nan(),
    {
        if self.bits < SIGN {
            self.bits > INFINITE
        } else {
            self.bits - SIGN > INFINITE
        }
    }

    pub fn is_finite(self) -> (r: bool)
        ensures
            r == self.finite(),
    {
        if self.bits < SIGN {
            self.bits < INFINITE
        } else {
            self.bits - SIGN < INFINITE
        }
    }

    fn order(self) -> (r: i64)
        ensures
            r == self.rank(),
    {
        if self.bits < SIGN {
            self.bits as i64
        } else {
            0 - ((self.bits - SIGN) as i64)
        }
    }

    pub fn is_less(self, other: Double) -> (r: bool)
        ensures
            r == self.less(other),
    {
        !self.is_nan() && !other.is_nan() && self.order() < other.order()
    }

    pub fn is_at_most(self, other: Double) -> (r: bool)
        ensures
            r == self.at_most(other),
    {
        !self.is_nan() && !other.is_nan() && self.order() <= other.order()
    }

    pub fn is_equal(self, other: Double) -> (r: bool)
        ensures
            r == self.equal(other),
    {
        !self.is_nan() && !other.is_nan() && self.order() == other.order()
    }

    /// Whether `self` stands before `other` in the total order.
    pub fn precedes(self, other: Double) -> (r: bool)
        ensures
            r == (self.place() < other.place()),
    {
        let a: i64 = if self.bits < SIGN {
            self.bits as i64
        } else {
            -1 - ((self.bits - SIGN) as i64)
        };
        let b: i64 = if other.bits < SIGN {
            other.bits as i64
        } else {
            -1 - ((other.bits - SIGN) as i64)
        };
        a < b
    }

    pub fn min(self, other: Double) -> (r: Double)
        ensures
            r == self.lesser(other),
    {
        if self.is_nan() || other.is_less(self) {
            other
        } else {
            self
        }
    }

    pub fn max(self, other: Double) -> (r: Double)
        ensures
            r == self.greater(other),
    {
        if self.is_nan() || self.is_less(other) {
            other
        } else {
            self
        }
    }
}

/// Numbers are ordered by their sign and then by their magnitude: of two that are not
/// negative the one with the lesser bits is less, of two negative ones the one with
/// the greater bits is, a negative number is below any other but that the two zeros
/// are equal, and what is not a number is neither above nor below anything.
pub proof fn the_order_goes_by_sign_and_magnitude(a: Double, b: Double)
    ensures
        a.nan() || b.nan() ==> !a.less(b) && !a.at_most(b) && !a.equal(b),
        !a.nan() && !b.nan() ==> {
            &&& a.bits < SIGN && b.bits < SIGN ==> (a.less(b) <==> a.bits < b.bits)
            &&& a.bits >= SIGN && b.bits >= SIGN ==> (a.less(b) <==> a.bits > b.bits)
            &&& a.bits >= SIGN && b.bits < SIGN ==> (a.less(b) <==> !(a.bits == SIGN && b.bits
                == 0))
            &&& a.bits < SIGN && b.bits >= SIGN ==> !a.less(b)
            &&& a.at_most(b) <==> !b.less(a)
            &&& a.equal(b) <==> !a.less(b) && !b.less(a)
        },
        a.nan() <==> 0x7ff0_0000_0000_0000 < a.bits < SIGN || 0xfff0_0000_0000_0000 < a.bits,
{
}

/// The lesser and the greater of two are one of them each; neither is below the
/// lesser nor above the greater; and a number goes before what is none.
pub proof fn the_lesser_and_the_greater_are_of_the_two(a: Double, b: Double)
    ensures
        a.lesser(b) == a || a.lesser(b) == b,
        a.greater(b) == a || a.greater(b) == b,
        !a.nan() && !b.nan() ==> a.lesser(b).at_most(a) && a.lesser(b).at_most(b)
            && a.at_most(a.greater(b)) && b.at_most(a.greater(b)),
        a.nan() ==> a.lesser(b) == b && a.greater(b) == b,
        b.nan() && !a.nan() ==> a.lesser(b) == a && a.greater(b) == a,
{
}

/// The total order tells all bit patterns apart and keeps the order of numbers.
pub proof fn the_total_order_keeps_that_of_numbers(a: Double, b: Double)
    ensures
        a.place() == b.place() <==> a.bits == b.bits,
        a.less(b) ==> a.place() < b.place(),
{
}

} // verus!
