//! IEEE-754 binary64 values carried by their bit pattern.
use vstd::prelude::*;

verus! {

/// A 64-bit IEEE-754 floating-point value, held as its bit pattern
/// (`f64::to_bits`). The library compares such values by the IEEE rules
/// (see [`FloatBits::lt_spec`] and [`FloatBits::eq_spec_ieee`]); the derived
/// `==` compares bit patterns.
#[derive(Debug, Clone, Copy, PartialEq, Eq, Structural)]
pub struct FloatBits(pub u64);

/// Bit pattern of `1.0`.
pub const ONE_BITS: u64 = 0x3ff0_0000_0000_0000u64;

/// Mask that clears the sign bit.
pub const MAGNITUDE_MASK: u64 = 0x7fff_ffff_ffff_ffffu64;

impl FloatBits {
    /// The value is a NaN: all exponent bits set and a non-zero fraction.
    pub open spec fn is_nan_spec(self) -> bool {
        (self.0 >> 52u64) & 0x7ffu64 == 0x7ffu64 && self.0 & 0x000f_ffff_ffff_ffffu64 != 0
    }

    /// The bit pattern without its sign bit.
    pub open spec fn magnitude(self) -> u64 {
        self.0 & MAGNITUDE_MASK
    }

    /// The sign bit is set.
    pub open spec fn negative(self) -> bool {
        self.0 >> 63u64 == 1u64
    }

    /// A key whose integer order is the numeric order of non-NaN values
    /// (both zeros map to `0`, infinities to the extremes).
    pub open spec fn order_key(self) -> int {
        if self.negative() {
            -(self.magnitude() as int)
        } else {
            self.magnitude() as int
        }
    }

    /// IEEE `<`: false whenever either side is NaN.
    pub open spec fn lt_spec(self, other: FloatBits) -> bool {
        !self.is_nan_spec() && !other.is_nan_spec() && self.order_key() < other.order_key()
    }

    /// IEEE `==`: NaN equals nothing, and `-0.0 == 0.0`.
    pub open spec fn eq_spec_ieee(self, other: FloatBits) -> bool {
        !self.is_nan_spec() && !other.is_nan_spec() && self.order_key() == other.order_key()
    }

    /// The value is finite and lies in `[-1.0, 1.0]`.
    pub open spec fn is_unit_scale(self) -> bool {
        !self.is_nan_spec() && -(ONE_BITS as int) <= self.order_key() <= ONE_BITS as int
    }

    /// IEEE NaN test.
    pub fn is_nan(&self) -> (r: bool)
        ensures
            r == self.is_nan_spec(),
    {
        (self.0 >> 52u64) & 0x7ffu64 == 0x7ffu64 && self.0 & 0x000f_ffff_ffff_ffffu64 != 0
    }

    fn key_parts(&self) -> (r: (bool, u64))
        ensures
            r.0 == self.negative(),
            r.1 == self.magnitude(),
    {
        (self.0 >> 63u64 == 1u64, self.0 & MAGNITUDE_MASK)
    }

    /// IEEE `<`.
    pub fn lt(&self, other: &FloatBits) -> (r: bool)
        ensures
            r == self.lt_spec(*other),
    {
        if self.is_nan() || other.is_nan() {
            return false;
        }
        let (na, ma) = self.key_parts();
        let (nb, mb) = other.key_parts();
        if na && nb {
            mb < ma
        } else if na && !nb {
            !(ma == 0 && mb == 0)
        } else if !na && nb {
            false
        } else {
            ma < mb
        }
    }

    /// IEEE `==`.
    pub fn eq_ieee(&self, other: &FloatBits) -> (r: bool)
        ensures
            r == self.eq_spec_ieee(*other),
    {
        if self.is_nan() || other.is_nan() {
            return false;
        }
        let (na, ma) = self.key_parts();
        let (nb, mb) = other.key_parts();
        if na == nb {
            ma == mb
        } else {
            ma == 0 && mb == 0
        }
    }

    /// Returns `true` when the value is finite and lies in `[-1.0, 1.0]`.
    pub fn unit_scale(&self) -> (r: bool)
        ensures
            r == self.is_unit_scale(),
    {
        let m = self.0 & MAGNITUDE_MASK;
        let x = self.0;
        proof {
            assert((x >> 52u64) & 0x7ffu64 == 0x7ffu64 ==> x & MAGNITUDE_MASK > ONE_BITS) by (bit_vector);
        }
        m <= ONE_BITS
    }

    /// Returns `true` when the value is exactly `1.0`.
    pub fn is_one(&self) -> (r: bool)
        ensures
            r == (self.0 == ONE_BITS),
    {
        self.0 == ONE_BITS
    }
}

} // verus!
