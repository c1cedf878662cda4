use vstd::prelude::*;

verus! {

/// Bit pattern of the smallest positive normal number.
pub const MIN_POSITIVE_BITS: u64 = 0x0010_0000_0000_0000;

/// A double precision number in the binary interchange format of IEEE 754, held as its bit
/// pattern. Such numbers are compared, never computed with.
#[derive(Clone, Copy, Debug, PartialEq, Eq, Structural)]
pub struct Double {
    pub bits: u64,
}

impl Double {
    /// Whether this pattern is not a number.
    pub open spec fn is_nan_spec(self) -> bool {
        self.bits as int % 0x8000_0000_0000_0000 > 0x7ff0_0000_0000_0000
    }

    /// The position of a number on the real line: `a < b` exactly if the key of `a` is
    /// smaller than the key of `b`. Both zeros have the key `0`.
    pub open spec fn key_spec(self) -> int {
        if self.bits >= 0x8000_0000_0000_0000 {
            0x8000_0000_0000_0000 - self.bits
        } else {
            self.bits as int
        }
    }

    /// Whether both are numbers and this one is at most `other`.
    pub open spec fn at_most_spec(self, other: Double) -> bool {
        !self.is_nan_spec() && !other.is_nan_spec() && self.key_spec() <= other.key_spec()
    }

    /// Whether this is a number, and too small for the precision that a normal number has.
    pub open spec fn is_tiny_spec(self) -> bool {
        !self.is_nan_spec() && self.key_spec() < MIN_POSITIVE_BITS
    }

    /// Whether this can be a sum of weights: a finite number that is not negative.
    pub open spec fn is_weight(self) -> bool {
        !self.is_nan_spec() && 0 <= self.key_spec() < 0x7ff0_0000_0000_0000
    }

    /// Zero.
    pub open spec fn zero_spec() -> Double {
        Double { bits: 0 }
    }

    /// Returns the number with the given bit pattern.
    pub fn from_bits(bits: u64) -> (r: Double)
        ensures
            r.bits == bits,
    {
        Double { bits }
    }

    /// Returns the bit pattern of this number.
    pub fn to_bits(self) -> (r: u64)
        ensures
            r == self.bits,
    {
        self.bits
    }

    /// Returns zero.
    pub fn zero() -> (r: Double)
        ensures
            r == Double::zero_spec(),
    {
        Double { bits: 0 }
    }

    /// Returns whether this pattern is not a number.
    pub fn is_nan(self) -> (r: bool)
        ensures
            r == self.is_nan_spec(),
    {
        self.bits % 0x8000_0000_0000_0000 > 0x7ff0_0000_0000_0000
    }

    /// Returns the position of this number on the real line.
    pub fn key(self) -> (r: i128)
        ensures
            r == self.key_spec(),
    {
        if self.bits >= 0x8000_0000_0000_0000 {
            0x8000_0000_0000_0000i128 - self.bits as i128
        } else {
            self.bits as i128
        }
    }

    /// Returns whether both are numbers and this one is at most `other`.
    pub fn at_most(self, other: Double) -> (r: bool)
        ensures
            r == self.at_most_spec(other),
    {
        !self.is_nan() && !other.is_nan() && self.key() <= other.key()
    }

    /// Returns whether this is a number, and too small for the precision that a normal
    /// number has.
    pub fn is_tiny(self) -> (r: bool)
        ensures
            r == self.is_tiny_spec(),
    {
        !self.is_nan() && self.key() < MIN_POSITIVE_BITS as i128
    }
}

} // verus!
