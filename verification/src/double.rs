//! Times and scores that are floating-point numbers elsewhere, held here by
//! their bits and only compared.

use vstd::prelude::*;

verus! {

/// A double-precision number of the IEEE standard by its bits.
#[derive(Clone, Copy, PartialEq, Eq, Structural)]
pub struct Double {
    pub bits: u64,
}

impl Double {
    /// The bits without the sign.
    pub open spec fn magnitude(self) -> int {
        if self.bits >= 0x8000_0000_0000_0000 {
            self.bits - 0x8000_0000_0000_0000
        } else {
            self.bits as int
        }
    }

    /// Whether the bits are those of no number: more than those of infinity.
    pub open spec fn is_nan(self) -> bool {
        self.magnitude() > 0x7ff0_0000_0000_0000
    }

    /// The place of a number among all: bits in the order of the numbers.
    pub open spec fn place(self) -> int {
        if self.bits >= 0x8000_0000_0000_0000 {
            -self.magnitude()
        } else {
            self.magnitude()
        }
    }

    /// Whether a number is less than another.
    pub open spec fn less(self, other: Double) -> bool {
        !self.is_nan() && !other.is_nan() && self.place() < other.place()
    }

    /// The place of a number among all.
    pub fn place_of(self) -> (r: i128)
        ensures
            r == self.place(),
    {
        if self.bits >= 0x8000_0000_0000_0000 {
            -((self.bits - 0x8000_0000_0000_0000) as i128)
        } else {
            self.bits as i128
        }
    }

    /// Whether the bits are those of no number.
    pub fn nan(self) -> (r: bool)
        ensures
            r == self.is_nan(),
    {
        let m: u64 = if self.bits >= 0x8000_0000_0000_0000 {
            self.bits - 0x8000_0000_0000_0000
        } else {
            self.bits
        };
        m > 0x7ff0_0000_0000_0000
    }

    /// Whether a number is less than another.
    pub fn is_less(self, other: Double) -> (r: bool)
        ensures
            r == self.less(other),
    {
        !self.nan() && !other.nan() && self.place_of() < other.place_of()
    }
}

/// The number one.
pub const ONE: u64 = 0x3ff0_0000_0000_0000;

/// Numbers that are not negative compare as their bits do, negative ones the
/// other way round; a negative one is less than any that is not, except for the
/// two zeros. What is no number compares with nothing.
pub proof fn numbers_compare_by_bits(a: Double, b: Double)
    ensures
        a.bits < b.bits <= 0x7ff0_0000_0000_0000 ==> a.less(b) && !b.less(a),
        0x8000_0000_0000_0000 <= a.bits < b.bits <= 0xfff0_0000_0000_0000 ==> b.less(a) && !a.less(
            b,
        ),
        0x8000_0000_0000_0000 < a.bits <= 0xfff0_0000_0000_0000 && b.bits <= 0x7ff0_0000_0000_0000
            ==> a.less(b) && !b.less(a),
        a.bits == 0x8000_0000_0000_0000 && b.bits == 0 ==> !a.less(b) && !b.less(a),
        0x7ff0_0000_0000_0000 < a.bits < 0x8000_0000_0000_0000 || a.bits > 0xfff0_0000_0000_0000
            ==> !a.less(b) && !b.less(a),
        !a.less(a),
{
}

} // verus!
