//! Single-precision numbers as plain bit patterns.
//!
//! A [`Scalar`] is the 32-bit pattern of an IEEE 754 binary32 number. Every
//! operation is defined by what the exact real result rounds to (nearest,
//! ties to even), so the simulation computes the same bits on every machine.

use vstd::arithmetic::power2::pow2;
use vstd::prelude::*;

pub mod arith;
pub mod bounds;
pub mod consts;
pub mod convert;
pub mod decimal;
pub mod exact;
pub mod monotone;
pub mod order;
pub mod round;
pub mod sums;
pub mod wholes;

verus! {

/// Magnitude pattern of infinity; patterns above it are not numbers.
pub const INF_PATTERN: u32 = 0x7f80_0000;

/// Weight of the sign bit.
pub const SIGN_BIT: u32 = 0x8000_0000;

/// Patterns per binade.
pub const BINADE: u32 = 0x80_0000;

/// A single-precision number, held as its bit pattern.
#[derive(Clone, Copy, Debug, PartialEq, Eq, Structural)]
pub struct Scalar {
    pub bits: u32,
}

/// Bit pattern of the one not-a-number that operations produce.
pub const NAN_BITS: u32 = 0x7fc0_0000;

/// The scalar with the given bit pattern.
#[verifier::allow_in_spec]
pub fn scalar(bits: u32) -> (r: Scalar)
    returns
        (Scalar { bits: bits }),
{
    Scalar { bits }
}

/// Magnitude denoted by a pattern, counted in units of two to the minus 149.
/// The first two binades are spaced by one unit; each later binade doubles
/// the spacing.
pub open spec fn magnitude(pattern: nat) -> nat {
    let binade = pattern / (BINADE as nat);
    let offset = pattern % (BINADE as nat);
    if binade == 0 {
        offset
    } else {
        (BINADE as nat + offset) * pow2((binade - 1) as nat)
    }
}

/// Units per one: a scalar equal to 1 has this magnitude.
pub open spec fn unit() -> nat {
    pow2(149)
}

impl Scalar {
    pub open spec fn negative(self) -> bool {
        self.bits >= SIGN_BIT
    }

    /// The pattern without its sign.
    pub open spec fn pattern(self) -> nat {
        if self.bits >= SIGN_BIT {
            (self.bits - SIGN_BIT) as nat
        } else {
            self.bits as nat
        }
    }

    pub open spec fn is_nan_spec(self) -> bool {
        self.pattern() > INF_PATTERN
    }

    pub open spec fn is_infinite_spec(self) -> bool {
        self.pattern() == INF_PATTERN
    }

    pub open spec fn is_finite_spec(self) -> bool {
        self.pattern() < INF_PATTERN
    }

    /// Signed value in units of two to the minus 149. An infinity stands
    /// beyond every finite value.
    pub open spec fn num(self) -> int {
        if self.negative() {
            -(magnitude(self.pattern()) as int)
        } else {
            magnitude(self.pattern()) as int
        }
    }

    /// `self < other`; false when either is not a number.
    pub open spec fn lt_spec(self, other: Scalar) -> bool {
        !self.is_nan_spec() && !other.is_nan_spec() && self.num() < other.num()
    }

    /// `self <= other`; false when either is not a number.
    pub open spec fn le_spec(self, other: Scalar) -> bool {
        !self.is_nan_spec() && !other.is_nan_spec() && self.num() <= other.num()
    }

    /// Numeric equality: the two zeros are equal, not-a-number equals nothing.
    pub open spec fn same_spec(self, other: Scalar) -> bool {
        !self.is_nan_spec() && !other.is_nan_spec() && self.num() == other.num()
    }

    /// The smaller of two; a not-a-number operand is ignored.
    pub open spec fn min_spec(self, other: Scalar) -> Scalar {
        if self.is_nan_spec() {
            other
        } else if other.lt_spec(self) {
            other
        } else {
            self
        }
    }

    /// The larger of two; a not-a-number operand is ignored.
    pub open spec fn max_spec(self, other: Scalar) -> Scalar {
        if self.is_nan_spec() {
            other
        } else if self.lt_spec(other) {
            other
        } else {
            self
        }
    }

    /// `self` forced into `low..=high`; not-a-number stays.
    pub open spec fn clamp_spec(self, low: Scalar, high: Scalar) -> Scalar {
        if self.lt_spec(low) {
            low
        } else if high.lt_spec(self) {
            high
        } else {
            self
        }
    }

    pub open spec fn neg_spec(self) -> Scalar {
        Scalar {
            bits: if self.bits >= SIGN_BIT {
                (self.bits - SIGN_BIT) as u32
            } else {
                (self.bits + SIGN_BIT) as u32
            },
        }
    }

    pub open spec fn abs_spec(self) -> Scalar {
        Scalar { bits: self.pattern() as u32 }
    }

    pub fn is_negative(self) -> (r: bool)
        ensures
            r == self.negative(),
    {
        self.bits >= SIGN_BIT
    }

    pub fn magnitude_bits(self) -> (r: u32)
        ensures
            r == self.pattern(),
            r < SIGN_BIT,
    {
        if self.bits >= SIGN_BIT {
            self.bits - SIGN_BIT
        } else {
            self.bits
        }
    }

    pub fn is_nan(self) -> (r: bool)
        ensures
            r == self.is_nan_spec(),
    {
        self.magnitude_bits() > INF_PATTERN
    }

    pub fn is_infinite(self) -> (r: bool)
        ensures
            r == self.is_infinite_spec(),
    {
        self.magnitude_bits() == INF_PATTERN
    }

    pub fn is_finite(self) -> (r: bool)
        ensures
            r == self.is_finite_spec(),
    {
        self.magnitude_bits() < INF_PATTERN
    }

    pub fn is_zero(self) -> (r: bool)
        ensures
            r == (self.num() == 0),
    {
        let p: u32 = self.magnitude_bits();
        proof {
            round::lemma_magnitude_increases(0, p as nat);
        }
        p == 0
    }

    pub fn lt(self, other: Scalar) -> (r: bool)
        ensures
            r == self.lt_spec(other),
    {
        if self.is_nan() || other.is_nan() {
            return false;
        }
        let a: u32 = self.magnitude_bits();
        let b: u32 = other.magnitude_bits();
        proof {
            round::lemma_magnitude_increases(a as nat, b as nat);
            round::lemma_magnitude_increases(b as nat, a as nat);
            round::lemma_magnitude_increases(0, a as nat);
            round::lemma_magnitude_increases(0, b as nat);
        }
        if self.is_negative() {
            if other.is_negative() {
                b < a
            } else {
                a > 0 || b > 0
            }
        } else if other.is_negative() {
            false
        } else {
            a < b
        }
    }

    pub fn le(self, other: Scalar) -> (r: bool)
        ensures
            r == self.le_spec(other),
    {
        if self.is_nan() || other.is_nan() {
            return false;
        }
        !other.lt(self)
    }

    pub fn same(self, other: Scalar) -> (r: bool)
        ensures
            r == self.same_spec(other),
    {
        self.le(other) && other.le(self)
    }

    pub fn min(self, other: Scalar) -> (r: Scalar)
        ensures
            r == self.min_spec(other),
    {
        if self.is_nan() {
            other
        } else if other.lt(self) {
            other
        } else {
            self
        }
    }

    pub fn max(self, other: Scalar) -> (r: Scalar)
        ensures
            r == self.max_spec(other),
    {
        if self.is_nan() {
            other
        } else if self.lt(other) {
            other
        } else {
            self
        }
    }

    pub fn clamp(self, low: Scalar, high: Scalar) -> (r: Scalar)
        ensures
            r == self.clamp_spec(low, high),
    {
        if self.lt(low) {
            low
        } else if high.lt(self) {
            high
        } else {
            self
        }
    }

    pub fn neg(self) -> (r: Scalar)
        ensures
            r == self.neg_spec(),
    {
        if self.bits >= SIGN_BIT {
            Scalar { bits: self.bits - SIGN_BIT }
        } else {
            Scalar { bits: self.bits + SIGN_BIT }
        }
    }

    pub fn abs(self) -> (r: Scalar)
        ensures
            r == self.abs_spec(),
    {
        Scalar { bits: self.magnitude_bits() }
    }
}

} // verus!
