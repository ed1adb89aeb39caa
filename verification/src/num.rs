//! Numbers held by their bits.
//!
//! A time, a ratio or a pixel position is an IEEE binary64 value, a sample an IEEE binary32 value.
//! The library holds each by the bits of the value: the magnitude below, the sign on top. Every
//! pattern of bits is a value. `order` says where a value stands among the others, so everything
//! that only compares values (`min`, `max`, `clamp`, `abs` and the comparisons) is exact integer
//! code, with NaN unordered and the two zeros equal as IEEE has it.
use vstd::prelude::*;

verus! {

/// A binary64 value by its bits.
#[derive(Clone, Copy, Debug, PartialEq, Eq, Structural)]
pub struct Num {
    pub bits: u64,
}

/// A binary32 value by its bits.
#[derive(Clone, Copy, Debug, PartialEq, Eq, Structural)]
pub struct Sample {
    pub bits: u32,
}

/// The sign bit of a binary64 value.
pub const SIGN: u64 = 0x8000_0000_0000_0000;

/// The sign bit of a binary32 value.
pub const SAMPLE_SIGN: u32 = 0x8000_0000;

/// The bits of 0.
pub const ZERO: u64 = 0;

/// The bits of 1.
pub const ONE: u64 = 0x3ff0_0000_0000_0000;

/// The bits of infinity.
pub const INFINITY: u64 = 0x7ff0_0000_0000_0000;

/// The bits of infinity among the samples.
pub const SAMPLE_INFINITY: u32 = 0x7f80_0000;

/// How many samples there are in a binade, and the bits of the least normal one.
pub const SAMPLE_BINADE: u32 = 0x0080_0000;

/// The bits of the least sample in the last binade of finite samples.
pub const SAMPLE_TOP_BINADE: u32 = 0x7f00_0000;

/// The bits of 0 among the samples.
pub const SAMPLE_ZERO: u32 = 0;

/// The bits of 1 among the samples.
pub const SAMPLE_ONE: u32 = 0x3f80_0000;

/// The bits of -1 among the samples.
pub const SAMPLE_MINUS_ONE: u32 = 0xbf80_0000;

impl Num {
    /// The bits of the value without its sign.
    pub open spec fn magnitude(self) -> int {
        if self.bits < SIGN {
            self.bits as int
        } else {
            self.bits - SIGN
        }
    }

    /// Where the value stands among all values, as an integer: the bits of its magnitude, negated
    /// for a negative value. Both zeros stand at 0; NaN stands beyond the infinities.
    pub open spec fn order(self) -> int {
        if self.bits < SIGN {
            self.magnitude()
        } else {
            -self.magnitude()
        }
    }

    /// Whether the value is not NaN.
    pub open spec fn is_number(self) -> bool {
        self.magnitude() <= INFINITY
    }

    /// Whether the value is neither infinite nor NaN.
    pub open spec fn is_finite(self) -> bool {
        self.magnitude() < INFINITY
    }

    /// Whether the value is a number from 0 on.
    pub open spec fn is_from_zero_on(self) -> bool {
        0 <= self.order() <= INFINITY
    }

    /// Whether two values are equal as numbers: the two zeros are, NaN never is.
    pub open spec fn equals(self, other: Num) -> bool {
        self.is_number() && other.is_number() && self.order() == other.order()
    }

    pub open spec fn spec_lt(self, other: Num) -> bool {
        self.is_number() && other.is_number() && self.order() < other.order()
    }

    pub open spec fn spec_le(self, other: Num) -> bool {
        self.is_number() && other.is_number() && self.order() <= other.order()
    }

    /// The lesser of two values; NaN gives way to the other one, and 0 to -0.
    pub open spec fn spec_min(self, other: Num) -> Num {
        if other.spec_lt(self) || !self.is_number() || self.equals(other) && self.bits
            < other.bits {
            other
        } else {
            self
        }
    }

    /// The greater of two values; NaN gives way to the other one, and -0 to 0.
    pub open spec fn spec_max(self, other: Num) -> Num {
        if self.spec_lt(other) || !self.is_number() || self.equals(other) && other.bits
            < self.bits {
            other
        } else {
            self
        }
    }

    /// The value moved into `low..=high`; NaN stays as it is.
    pub open spec fn spec_clamp(self, low: Num, high: Num) -> Num {
        if self.spec_lt(low) {
            low
        } else if high.spec_lt(self) {
            high
        } else {
            self
        }
    }

    /// The value without its sign.
    pub open spec fn spec_abs(self) -> Num {
        if self.bits < SIGN {
            self
        } else {
            Num { bits: (self.bits - SIGN) as u64 }
        }
    }

    /// Where the value stands among all values.
    fn rank(self) -> (r: i64)
        ensures
            r == self.order(),
    {
        if self.bits < SIGN {
            self.bits as i64
        } else {
            -((self.bits - SIGN) as i64)
        }
    }

    /// Whether the value is NaN.
    fn is_nan(self) -> (r: bool)
        ensures
            r == !self.is_number(),
    {
        let magnitude = self.abs();
        magnitude.bits > INFINITY
    }

    /// Whether `self < other`.
    #[verifier::when_used_as_spec(spec_lt)]
    pub fn lt(self, other: Num) -> (r: bool)
        ensures
            r == self.spec_lt(other),
    {
        !self.is_nan() && !other.is_nan() && self.rank() < other.rank()
    }

    /// Whether `self <= other`.
    #[verifier::when_used_as_spec(spec_le)]
    pub fn le(self, other: Num) -> (r: bool)
        ensures
            r == self.spec_le(other),
    {
        !self.is_nan() && !other.is_nan() && self.rank() <= other.rank()
    }

    /// The lesser of two values; NaN gives way to the other one, and 0 to -0.
    #[verifier::when_used_as_spec(spec_min)]
    pub fn min(self, other: Num) -> (r: Num)
        ensures
            r == self.spec_min(other),
    {
        if other.lt(self) || self.is_nan() || self.le(other) && other.le(self) && self.bits
            < other.bits {
            other
        } else {
            self
        }
    }

    /// The greater of two values; NaN gives way to the other one, and -0 to 0.
    #[verifier::when_used_as_spec(spec_max)]
    pub fn max(self, other: Num) -> (r: Num)
        ensures
            r == self.spec_max(other),
    {
        if self.lt(other) || self.is_nan() || self.le(other) && other.le(self) && other.bits
            < self.bits {
            other
        } else {
            self
        }
    }

    /// The value moved into `low..=high`; NaN stays as it is.
    #[verifier::when_used_as_spec(spec_clamp)]
    pub fn clamp(self, low: Num, high: Num) -> (r: Num)
        requires
            low.le(high),
        ensures
            r == self.spec_clamp(low, high),
    {
        if self.lt(low) {
            low
        } else if high.lt(self) {
            high
        } else {
            self
        }
    }

    /// The value without its sign.
    #[verifier::when_used_as_spec(spec_abs)]
    pub fn abs(self) -> (r: Num)
        ensures
            r == self.spec_abs(),
    {
        if self.bits < SIGN {
            self
        } else {
            Num { bits: self.bits - SIGN }
        }
    }
}

/// Whether a value lies in `0..=1`, or is NaN.
pub open spec fn in_unit(n: Num) -> bool {
    n.is_number() ==> 0 <= n.order() <= ONE
}

/// Whether a sample lies in `-1..=1`, or is NaN.
pub open spec fn in_range(s: Sample) -> bool {
    s.is_number() ==> s.magnitude() <= SAMPLE_ONE
}

impl Sample {
    /// The bits of the value without its sign.
    pub open spec fn magnitude(self) -> int {
        if self.bits < SAMPLE_SIGN {
            self.bits as int
        } else {
            self.bits - SAMPLE_SIGN
        }
    }

    /// Where the value stands among all values, as an integer: the bits of its magnitude, negated
    /// for a negative value. Both zeros stand at 0; NaN stands beyond the infinities.
    pub open spec fn order(self) -> int {
        if self.bits < SAMPLE_SIGN {
            self.magnitude()
        } else {
            -self.magnitude()
        }
    }

    /// Whether the value is not NaN.
    pub open spec fn is_number(self) -> bool {
        self.magnitude() <= SAMPLE_INFINITY
    }

    /// Whether the value is neither infinite nor NaN.
    pub open spec fn is_finite(self) -> bool {
        self.magnitude() < SAMPLE_INFINITY
    }

    /// Whether the value is a number from 0 on.
    pub open spec fn is_from_zero_on(self) -> bool {
        0 <= self.order() <= SAMPLE_INFINITY
    }

    /// Whether two values are equal as numbers: the two zeros are, NaN never is.
    pub open spec fn equals(self, other: Sample) -> bool {
        self.is_number() && other.is_number() && self.order() == other.order()
    }

    /// The value with the other sign.
    pub open spec fn negated(self) -> Sample {
        if self.bits < SAMPLE_SIGN {
            Sample { bits: (self.bits + SAMPLE_SIGN) as u32 }
        } else {
            Sample { bits: (self.bits - SAMPLE_SIGN) as u32 }
        }
    }

    /// Whether the value is a number and twice the value is finite.
    pub open spec fn is_doubled_exactly(self) -> bool {
        self.magnitude() < SAMPLE_TOP_BINADE
    }

    /// Twice a number, which no rounding touches: the next binade for a normal value, twice the
    /// fraction for a subnormal one.
    pub open spec fn doubled(self) -> Sample {
        if self.magnitude() < SAMPLE_BINADE {
            if self.bits < SAMPLE_SIGN {
                Sample { bits: (2 * self.bits) as u32 }
            } else {
                Sample { bits: (SAMPLE_SIGN + 2 * (self.bits - SAMPLE_SIGN)) as u32 }
            }
        } else {
            Sample { bits: (self.bits + SAMPLE_BINADE) as u32 }
        }
    }

    pub open spec fn spec_lt(self, other: Sample) -> bool {
        self.is_number() && other.is_number() && self.order() < other.order()
    }

    pub open spec fn spec_le(self, other: Sample) -> bool {
        self.is_number() && other.is_number() && self.order() <= other.order()
    }

    /// The greater of two values; NaN gives way to the other one, and -0 to 0.
    pub open spec fn spec_max(self, other: Sample) -> Sample {
        if self.spec_lt(other) || !self.is_number() || self.equals(other) && other.bits
            < self.bits {
            other
        } else {
            self
        }
    }

    /// The value moved into `low..=high`; NaN stays as it is.
    pub open spec fn spec_clamp(self, low: Sample, high: Sample) -> Sample {
        if self.spec_lt(low) {
            low
        } else if high.spec_lt(self) {
            high
        } else {
            self
        }
    }

    /// The value without its sign.
    pub open spec fn spec_abs(self) -> Sample {
        if self.bits < SAMPLE_SIGN {
            self
        } else {
            Sample { bits: (self.bits - SAMPLE_SIGN) as u32 }
        }
    }

    /// Where the value stands among all values.
    fn rank(self) -> (r: i32)
        ensures
            r == self.order(),
    {
        if self.bits < SAMPLE_SIGN {
            self.bits as i32
        } else {
            -((self.bits - SAMPLE_SIGN) as i32)
        }
    }

    /// Whether the value is NaN.
    fn is_nan(self) -> (r: bool)
        ensures
            r == !self.is_number(),
    {
        let magnitude = self.abs();
        magnitude.bits > SAMPLE_INFINITY
    }

    /// Whether `self < other`.
    #[verifier::when_used_as_spec(spec_lt)]
    pub fn lt(self, other: Sample) -> (r: bool)
        ensures
            r == self.spec_lt(other),
    {
        !self.is_nan() && !other.is_nan() && self.rank() < other.rank()
    }

    /// Whether `self <= other`.
    #[verifier::when_used_as_spec(spec_le)]
    pub fn le(self, other: Sample) -> (r: bool)
        ensures
            r == self.spec_le(other),
    {
        !self.is_nan() && !other.is_nan() && self.rank() <= other.rank()
    }

    /// The greater of two values; NaN gives way to the other one, and -0 to 0.
    #[verifier::when_used_as_spec(spec_max)]
    pub fn max(self, other: Sample) -> (r: Sample)
        ensures
            r == self.spec_max(other),
    {
        if self.lt(other) || self.is_nan() || self.le(other) && other.le(self) && other.bits
            < self.bits {
            other
        } else {
            self
        }
    }

    /// The value moved into `low..=high`; NaN stays as it is.
    #[verifier::when_used_as_spec(spec_clamp)]
    pub fn clamp(self, low: Sample, high: Sample) -> (r: Sample)
        requires
            low.le(high),
        ensures
            r == self.spec_clamp(low, high),
    {
        if self.lt(low) {
            low
        } else if high.lt(self) {
            high
        } else {
            self
        }
    }

    /// The value without its sign.
    #[verifier::when_used_as_spec(spec_abs)]
    pub fn abs(self) -> (r: Sample)
        ensures
            r == self.spec_abs(),
    {
        if self.bits < SAMPLE_SIGN {
            self
        } else {
            Sample { bits: self.bits - SAMPLE_SIGN }
        }
    }
}

} // verus!
