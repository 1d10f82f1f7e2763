//! Single-precision numbers, carried by their bit pattern.
//!
//! The engine moves gains, tempos and samples around without doing arithmetic on them: that is
//! the host's business. All it asks of a number is where it stands relative to zero, and the bit
//! pattern answers that exactly.

use vstd::prelude::*;

verus! {

/// Bit pattern of positive infinity, the largest pattern of a positive number.
pub const INFINITY_BITS: u32 = 0x7f80_0000;

/// The sign bit alone: negative zero.
pub const SIGN_BIT: u32 = 0x8000_0000;

/// An IEEE 754 single-precision number, held as its bit pattern.
#[derive(Clone, Copy, Debug, PartialEq, Eq, Structural, Hash)]
pub struct Real32 {
    pub bits: u32,
}

impl Real32 {
    /// Whether the number is greater than zero. A not-a-number pattern is not.
    pub open spec fn positive(self) -> bool {
        0 < self.bits <= INFINITY_BITS
    }

    /// Whether the number is positive or negative zero.
    pub open spec fn zero(self) -> bool {
        self.bits == 0 || self.bits == SIGN_BIT
    }

    /// Positive zero.
    pub fn silence() -> (r: Self)
        ensures
            r.bits == 0,
            r.zero(),
    {
        Real32 { bits: 0 }
    }

    /// Whether the number is greater than zero.
    pub fn is_positive(self) -> (r: bool)
        ensures
            r == self.positive(),
    {
        0 < self.bits && self.bits <= INFINITY_BITS
    }

    /// Whether the number equals zero, whatever its sign.
    pub fn is_zero(self) -> (r: bool)
        ensures
            r == self.zero(),
    {
        self.bits == 0 || self.bits == SIGN_BIT
    }
}

/// Every number is either zero or of one sign: of a number, and the same number with its sign turned
/// round, exactly one is positive, unless both are zero. What is not a number is neither.
pub proof fn law_a_number_is_zero_or_of_one_sign(magnitude: u32)
    requires
        magnitude < 0x8000_0000,
    ensures
        ({
            let plain = Real32 { bits: magnitude };
            let turned = Real32 { bits: (magnitude + 0x8000_0000) as u32 };
            &&& plain.zero() <==> magnitude == 0
            &&& turned.zero() <==> magnitude == 0
            &&& plain.positive() <==> 0 < magnitude <= 0x7f80_0000
            &&& !turned.positive()
        }),
{
}

} // verus!
