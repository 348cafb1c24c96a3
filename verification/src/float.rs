//! Floating-point numbers as values.
//!
//! The library compares and stores objective values, parameters and constraint
//! values; it does not compute with them beyond converting integers. A [`Float`] is the
//! bit pattern of a 64-bit IEEE 754 number, and its comparisons are stated over that
//! pattern.

use vstd::prelude::*;

verus! {

/// A 64-bit floating-point number, held as its bit pattern. `==` compares patterns.
#[derive(Clone, Copy, Debug, PartialEq, Eq, Hash, Structural)]
pub struct Float {
    pub bits: u64,
}

/// Neither infinite nor NaN.
pub open spec fn finite(v: Float) -> bool {
    v.magnitude() < 0x7ff0_0000_0000_0000
}

impl Float {
    /// The pattern without its sign bit.
    pub open spec fn magnitude(self) -> int {
        if self.bits >= 0x8000_0000_0000_0000 {
            self.bits - 0x8000_0000_0000_0000
        } else {
            self.bits as int
        }
    }

    /// Not a number: every exponent bit set, with a payload behind it.
    pub open spec fn nan(self) -> bool {
        self.magnitude() > 0x7ff0_0000_0000_0000
    }

    /// Where the number stands among all numbers. Both zeros stand at 0.
    pub open spec fn rank(self) -> int {
        if self.bits >= 0x8000_0000_0000_0000 {
            -self.magnitude()
        } else {
            self.magnitude()
        }
    }

    /// The IEEE 754 total order: negative NaN, negative numbers, zeros (the negative
    /// one first), positive numbers, positive NaN.
    pub open spec fn total_rank(self) -> int {
        if self.bits >= 0x8000_0000_0000_0000 {
            -self.magnitude() - 1
        } else {
            self.magnitude()
        }
    }

    /// The numeric `<`: false where either side is not a number.
    pub open spec fn below(self, other: Float) -> bool {
        !self.nan() && !other.nan() && self.rank() < other.rank()
    }

    /// The numeric `==`: false where either side is not a number.
    pub open spec fn same(self, other: Float) -> bool {
        !self.nan() && !other.nan() && self.rank() == other.rank()
    }

    /// The pattern with its sign bit flipped.
    pub open spec fn negated(self) -> Float {
        if self.bits >= 0x8000_0000_0000_0000 {
            Float { bits: (self.bits - 0x8000_0000_0000_0000) as u64 }
        } else {
            Float { bits: (self.bits + 0x8000_0000_0000_0000) as u64 }
        }
    }

    pub fn from_bits(bits: u64) -> (r: Float)
        ensures
            r.bits == bits,
    {
        Float { bits }
    }

    pub fn to_bits(self) -> (r: u64)
        ensures
            r == self.bits,
    {
        self.bits
    }

    fn unsigned(self) -> (r: u64)
        ensures
            r == self.magnitude(),
    {
        if self.bits >= 0x8000_0000_0000_0000 {
            self.bits - 0x8000_0000_0000_0000
        } else {
            self.bits
        }
    }

    pub fn is_nan(self) -> (r: bool)
        ensures
            r == self.nan(),
    {
        self.unsigned() > 0x7ff0_0000_0000_0000
    }

    /// Neither infinite nor NaN.
    pub fn is_finite(self) -> (r: bool)
        ensures
            r == finite(self),
    {
        self.unsigned() < 0x7ff0_0000_0000_0000
    }

    pub fn lt(self, other: Float) -> (r: bool)
        ensures
            r == self.below(other),
    {
        if self.is_nan() || other.is_nan() {
            return false;
        }
        let a: u64 = self.unsigned();
        let b: u64 = other.unsigned();
        if self.bits >= 0x8000_0000_0000_0000 {
            if other.bits >= 0x8000_0000_0000_0000 {
                b < a
            } else {
                a != 0 || b != 0
            }
        } else {
            other.bits < 0x8000_0000_0000_0000 && a < b
        }
    }

    pub fn num_eq(self, other: Float) -> (r: bool)
        ensures
            r == self.same(other),
    {
        if self.is_nan() || other.is_nan() {
            return false;
        }
        self.bits == other.bits || (self.unsigned() == 0 && other.unsigned() == 0)
    }

    /// Whether `self` comes before `other` in the total order.
    pub fn total_lt(self, other: Float) -> (r: bool)
        ensures
            r == (self.total_rank() < other.total_rank()),
    {
        let a: u64 = self.unsigned();
        let b: u64 = other.unsigned();
        if self.bits >= 0x8000_0000_0000_0000 {
            other.bits < 0x8000_0000_0000_0000 || b < a
        } else {
            other.bits < 0x8000_0000_0000_0000 && a < b
        }
    }

    /// The next number down; negative infinity and NaN stay.
    pub open spec fn next_below(self) -> Float {
        if self.nan() || self.bits == 0xfff0_0000_0000_0000 {
            self
        } else if self.magnitude() == 0 {
            Float { bits: 0x8000_0000_0000_0001 }
        } else if self.bits < 0x8000_0000_0000_0000 {
            Float { bits: (self.bits - 1) as u64 }
        } else {
            Float { bits: (self.bits + 1) as u64 }
        }
    }

    /// The next number down.
    pub fn next_down(self) -> (r: Float)
        ensures
            r == self.next_below(),
            !self.nan() && self.bits != 0xfff0_0000_0000_0000 ==> r.rank() == self.rank() - 1 && !r.nan(),
    {
        if self.is_nan() || self.bits == 0xfff0_0000_0000_0000 {
            self
        } else if self.unsigned() == 0 {
            Float { bits: 0x8000_0000_0000_0001 }
        } else if self.bits < 0x8000_0000_0000_0000 {
            Float { bits: self.bits - 1 }
        } else {
            Float { bits: self.bits + 1 }
        }
    }

    /// The number kept between two others; NaN stays.
    pub fn clamp(self, low: Float, high: Float) -> (r: Float)
        requires
            !low.nan(),
            !high.nan(),
            low.rank() <= high.rank(),
        ensures
            r == if self.below(low) {
                low
            } else if high.below(self) {
                high
            } else {
                self
            },
            !self.nan() ==> low.rank() <= r.rank() <= high.rank() && !r.nan(),
    {
        if self.lt(low) {
            low
        } else if high.lt(self) {
            high
        } else {
            self
        }
    }

    /// The rank as a machine integer.
    pub fn key(self) -> (r: i64)
        ensures
            r == self.rank(),
    {
        let a: u64 = self.unsigned();
        assert(a < 0x8000_0000_0000_0000);
        if self.bits >= 0x8000_0000_0000_0000 {
            -(a as i64)
        } else {
            a as i64
        }
    }

    /// The place in the total order as a machine integer.
    pub fn total_key(self) -> (r: i64)
        ensures
            r == self.total_rank(),
    {
        let a: u64 = self.unsigned();
        assert(a < 0x8000_0000_0000_0000);
        if self.bits >= 0x8000_0000_0000_0000 {
            -(a as i64) - 1
        } else {
            a as i64
        }
    }

    /// The larger of two numbers; the other one where one is NaN.
    pub fn max(self, other: Float) -> (r: Float)
        ensures
            r == if self.nan() || self.below(other) { other } else { self },
    {
        if self.is_nan() || self.lt(other) {
            other
        } else {
            self
        }
    }

    /// The number with the opposite sign.
    pub fn neg(self) -> (r: Float)
        ensures
            r == self.negated(),
            r.rank() == -self.rank(),
            r.nan() == self.nan(),
            r.negated() == self,
    {
        if self.bits >= 0x8000_0000_0000_0000 {
            Float { bits: self.bits - 0x8000_0000_0000_0000 }
        } else {
            Float { bits: self.bits + 0x8000_0000_0000_0000 }
        }
    }
}

/// Numbers compare as their bit patterns do: of two positive ones the larger pattern is the
/// larger number, of two negative ones the smaller, and every negative number is below every
/// positive one. Both zeros are equal, and NaN compares with nothing.
pub proof fn law_numbers_compare_by_pattern(a: Float, b: Float)
    ensures
        a.bits <= 0x7ff0_0000_0000_0000 && b.bits <= 0x7ff0_0000_0000_0000 ==> a.below(b) == (a.bits < b.bits) && a.same(b) == (a.bits
            == b.bits),
        0x8000_0000_0000_0000 <= a.bits <= 0xfff0_0000_0000_0000 && 0x8000_0000_0000_0000 <= b.bits <= 0xfff0_0000_0000_0000 ==> a.below(b)
            == (b.bits < a.bits) && a.same(b) == (a.bits == b.bits),
        0x8000_0000_0000_0000 < a.bits <= 0xfff0_0000_0000_0000 && b.bits <= 0x7ff0_0000_0000_0000 ==> a.below(b) && !b.below(a) && !a.same(
            b,
        ),
        a.bits == 0 && b.bits == 0x8000_0000_0000_0000 ==> a.same(b) && !a.below(b) && !b.below(a),
        0x7ff0_0000_0000_0000 < a.bits < 0x8000_0000_0000_0000 || a.bits > 0xfff0_0000_0000_0000 ==> !a.below(b) && !b.below(a) && !a.same(
            b,
        ) && !b.same(a),
        finite(a) == (a.bits < 0x7ff0_0000_0000_0000 || 0x8000_0000_0000_0000 <= a.bits < 0xfff0_0000_0000_0000),
{
}

/// Changing the sign of both turns a comparison around, and doing it twice changes nothing.
pub proof fn law_negation_turns_the_order_around(a: Float, b: Float)
    ensures
        a.negated().below(b.negated()) == b.below(a),
        a.negated().negated() == a,
        a.negated() != a,
        a.nan() == a.negated().nan(),
        !a.nan() && a.bits > 0x8000_0000_0000_0000 ==> (Float { bits: 0 }).below(a.negated()),
{
}

/// The total order tells every two patterns apart, agrees with the numeric one, and puts the
/// negative zero before the positive one.
pub proof fn law_total_order_refines_the_numeric_one(a: Float, b: Float)
    ensures
        a.total_rank() == b.total_rank() ==> a == b,
        a.below(b) ==> a.total_rank() < b.total_rank(),
        a.bits == 0x8000_0000_0000_0000 && b.bits == 0 ==> a.total_rank() < b.total_rank(),
        !a.nan() && b.nan() && b.bits < 0x8000_0000_0000_0000 ==> a.total_rank() < b.total_rank(),
        !a.nan() && b.nan() && b.bits >= 0x8000_0000_0000_0000 ==> b.total_rank() < a.total_rank(),
{
}

/// Nothing lies between a number and the next one down.
pub proof fn law_next_number_down_is_next(a: Float, b: Float)
    requires
        !a.nan(),
        a.bits != 0xfff0_0000_0000_0000,
    ensures
        a.next_below().below(a),
        !(a.next_below().below(b) && b.below(a)),
{
}

} // verus!
