//! Binary floating point numbers, held by their IEEE 754 bit patterns.
//!
//! The comparisons below read the patterns as sign and magnitude: for two numbers of the
//! same sign the larger magnitude has the larger pattern, both zeros are equal, and a
//! NaN compares with nothing.

use vstd::prelude::*;

verus! {

/// The sign bit of a single precision pattern.
pub const SIGN_BIT: u32 = 0x8000_0000;

/// The single precision pattern of positive infinity. A magnitude above it is a NaN.
pub const INFINITY_BITS: u32 = 0x7f80_0000;

/// A single precision number, by its bit pattern.
#[derive(Clone, Copy, Debug, PartialEq, Eq, Structural)]
pub struct Real {
    pub bits: u32,
}

/// A double precision number, by its bit pattern.
#[derive(Clone, Copy, Debug, PartialEq, Eq, Structural)]
pub struct Real64 {
    pub bits: u64,
}

impl Real {
    /// The pattern without its sign.
    pub open spec fn magnitude(self) -> int {
        if self.bits >= SIGN_BIT {
            self.bits - SIGN_BIT
        } else {
            self.bits as int
        }
    }

    /// Whether the pattern is a NaN.
    pub open spec fn nan(self) -> bool {
        self.magnitude() > INFINITY_BITS
    }

    /// An integer that orders the numbers: greater numbers have greater ranks, and equal
    /// numbers (the two zeros among them) have equal ranks.
    pub open spec fn rank(self) -> int {
        if self.bits >= SIGN_BIT {
            -self.magnitude()
        } else {
            self.magnitude()
        }
    }

    /// `self < other`.
    pub open spec fn below(self, other: Real) -> bool {
        !self.nan() && !other.nan() && self.rank() < other.rank()
    }

    /// `self <= other`.
    pub open spec fn within(self, other: Real) -> bool {
        !self.nan() && !other.nan() && self.rank() <= other.rank()
    }

    /// Positive zero.
    pub open spec fn nought() -> Real {
        Real { bits: 0 }
    }

    /// Positive zero.
    pub fn zero() -> (r: Real)
        ensures
            r == Real::nought(),
    {
        Real { bits: 0 }
    }

    /// Whether the number is a NaN.
    pub fn is_nan(self) -> (r: bool)
        ensures
            r == self.nan(),
    {
        if self.bits >= SIGN_BIT {
            self.bits - SIGN_BIT > INFINITY_BITS
        } else {
            self.bits > INFINITY_BITS
        }
    }

    /// The rank of the number, as an integer.
    fn ordinal(self) -> (r: i64)
        ensures
            r == self.rank(),
    {
        if self.bits >= SIGN_BIT {
            0 - ((self.bits - SIGN_BIT) as i64)
        } else {
            self.bits as i64
        }
    }

    /// `self < other`, which no NaN satisfies.
    pub fn less_than(self, other: Real) -> (r: bool)
        ensures
            r == self.below(other),
    {
        !self.is_nan() && !other.is_nan() && self.ordinal() < other.ordinal()
    }

    /// `self <= other`, which no NaN satisfies.
    pub fn at_most(self, other: Real) -> (r: bool)
        ensures
            r == self.within(other),
    {
        !self.is_nan() && !other.is_nan() && self.ordinal() <= other.ordinal()
    }
}

/// The sign bit of a double precision pattern.
pub const SIGN_BIT_64: u64 = 0x8000_0000_0000_0000;

impl Real64 {
    /// The number with the opposite sign.
    pub open spec fn opposite(self) -> Real64 {
        if self.bits >= SIGN_BIT_64 {
            Real64 { bits: (self.bits - SIGN_BIT_64) as u64 }
        } else {
            Real64 { bits: (self.bits + SIGN_BIT_64) as u64 }
        }
    }

    /// The number with the opposite sign.
    pub fn negated(self) -> (r: Real64)
        ensures
            r == self.opposite(),
    {
        if self.bits >= SIGN_BIT_64 {
            Real64 { bits: self.bits - SIGN_BIT_64 }
        } else {
            Real64 { bits: self.bits + SIGN_BIT_64 }
        }
    }
}

/// The comparisons are those of numbers. A pattern above that of infinity, whatever its sign,
/// compares with nothing. Of two others that are not negative the larger has the larger
/// pattern, of two negative ones the smaller; a negative one is below one that is not,
/// unless both are zero. `<=` holds of two numbers where `>` does not.
pub proof fn law_comparisons_are_those_of_numbers(a: Real, b: Real)
    ensures
        a.nan() <==> 0x7f80_0000 < a.bits < 0x8000_0000 || a.bits > 0xff80_0000,
        a.nan() || b.nan() ==> !a.below(b) && !a.within(b),
        !a.nan() && !b.nan() ==> {
            &&& a.bits < 0x8000_0000 && b.bits < 0x8000_0000 ==> (a.below(b) <==> a.bits < b.bits)
            &&& a.bits >= 0x8000_0000 && b.bits >= 0x8000_0000 ==> (a.below(b) <==> a.bits > b.bits)
            &&& a.bits >= 0x8000_0000 && b.bits < 0x8000_0000 ==> (a.below(b) <==> !(a.bits
                == 0x8000_0000 && b.bits == 0))
            &&& a.bits < 0x8000_0000 && b.bits >= 0x8000_0000 ==> !a.below(b)
            &&& a.within(b) <==> !b.below(a)
            &&& a.rank() < b.rank() <==> a.below(b)
        },
        Real::nought() == (Real { bits: 0 }),
{
}

/// Negation changes the sign and nothing else, and undoes itself.
pub proof fn law_negation_changes_the_sign_alone(a: Real64)
    ensures
        a.opposite().opposite() == a,
        a.bits < 0x8000_0000_0000_0000 ==> a.opposite().bits == a.bits + 0x8000_0000_0000_0000,
        a.bits >= 0x8000_0000_0000_0000 ==> a.opposite().bits == a.bits - 0x8000_0000_0000_0000,
{
}

} // verus!
