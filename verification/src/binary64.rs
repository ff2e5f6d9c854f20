//! IEEE 754 binary64 numbers held as bit patterns, with their exact meaning.
//!
//! Every light level, range bound, rate and slope that this crate decides on is
//! one of these. A caller that computes in hardware hands a number over by its
//! bits and takes one back the same way.

pub mod accuracy;
pub mod arithmetic;
pub mod laws;
pub mod model;
pub mod order;
mod rounding;

use model::{nearest, one_in_units, units, INFINITE, QUIET, SIGN};
use vstd::prelude::*;

verus! {

/// A binary64 number. `==` on it means the same bits; `same_number` is the
/// comparison of numbers.
#[derive(Clone, Copy, Debug, PartialEq, Eq, Structural)]
pub struct Binary64 {
    pub bits: u64,
}

impl Binary64 {
    /// The sign bit is set.
    pub open spec fn negative(self) -> bool {
        self.bits >= SIGN
    }

    /// The bits below the sign.
    pub open spec fn magnitude(self) -> nat {
        if self.negative() {
            (self.bits - SIGN) as nat
        } else {
            self.bits as nat
        }
    }

    /// Not a number.
    pub open spec fn nan(self) -> bool {
        self.magnitude() > INFINITE
    }

    /// An infinity.
    pub open spec fn infinite(self) -> bool {
        self.magnitude() == INFINITE
    }

    /// A number that is not an infinity.
    pub open spec fn finite(self) -> bool {
        self.magnitude() < INFINITE
    }

    /// Either zero.
    pub open spec fn zero(self) -> bool {
        self.magnitude() == 0
    }

    /// The value in units of `2^-1074`. An infinity counts as the first value
    /// past the largest finite one of its sign, which keeps the order.
    pub open spec fn value(self) -> int {
        if self.negative() {
            -(units(self.magnitude()) as int)
        } else {
            units(self.magnitude()) as int
        }
    }

    /// The number with the given sign and magnitude.
    pub open spec fn packed(negative: bool, mag: nat) -> Binary64 {
        Binary64 {
            bits: (if negative {
                SIGN + mag
            } else {
                mag as int
            }) as u64,
        }
    }

    /// The not-a-number that arithmetic gives.
    pub open spec fn not_a_number() -> Binary64 {
        Binary64 { bits: QUIET }
    }

    /// The number nearest to `num / den` units, with the given sign.
    pub open spec fn rounded(negative: bool, num: nat, den: nat) -> Binary64 {
        Binary64::packed(negative, nearest(num, den))
    }

    /// The number nearest to `p / q`.
    pub open spec fn of_ratio(p: nat, q: nat) -> Binary64 {
        Binary64::rounded(false, p * one_in_units(), q)
    }

    /// The number nearest to the whole number `n`.
    pub open spec fn of_whole(n: nat) -> Binary64 {
        Binary64::of_ratio(n, 1)
    }

    /// The number with the sign flipped.
    pub open spec fn opposite(self) -> Binary64 {
        Binary64::packed(!self.negative(), self.magnitude())
    }

    /// The number with the sign cleared.
    pub open spec fn modulus(self) -> Binary64 {
        Binary64::packed(false, self.magnitude())
    }

    /// Both are numbers and this one is the lesser.
    pub open spec fn less(self, other: Binary64) -> bool {
        !self.nan() && !other.nan() && self.value() < other.value()
    }

    /// Both are numbers and they are the same one; the two zeros are.
    pub open spec fn equals(self, other: Binary64) -> bool {
        !self.nan() && !other.nan() && self.value() == other.value()
    }

    /// The greater of two numbers, or the one that is a number.
    pub open spec fn greater_of(self, other: Binary64) -> Binary64 {
        if self.nan() || self.less(other) {
            other
        } else {
            self
        }
    }

    /// The lesser of two numbers, or the one that is a number.
    pub open spec fn lesser_of(self, other: Binary64) -> Binary64 {
        if self.nan() || other.less(self) {
            other
        } else {
            self
        }
    }

    /// The number itself where it lies between the bounds, else the bound that
    /// it passed. What is not a number stays as it is.
    pub open spec fn held_within(self, low: Binary64, high: Binary64) -> Binary64 {
        if self.less(low) {
            low
        } else if high.less(self) {
            high
        } else {
            self
        }
    }

    /// The sum, rounded to nearest.
    pub open spec fn plus(self, other: Binary64) -> Binary64 {
        if self.nan() || other.nan() {
            Binary64::not_a_number()
        } else if self.infinite() && other.infinite() && self.negative() != other.negative() {
            Binary64::not_a_number()
        } else if self.infinite() {
            self
        } else if other.infinite() {
            other
        } else {
            let exact = self.value() + other.value();
            if exact > 0 {
                Binary64::rounded(false, exact as nat, 1)
            } else if exact < 0 {
                Binary64::rounded(true, (-exact) as nat, 1)
            } else {
                Binary64::packed(self.negative() && other.negative(), 0)
            }
        }
    }

    /// The difference, rounded to nearest.
    pub open spec fn minus(self, other: Binary64) -> Binary64 {
        self.plus(other.opposite())
    }

    /// The product, rounded to nearest.
    pub open spec fn times(self, other: Binary64) -> Binary64 {
        let negative = self.negative() != other.negative();
        if self.nan() || other.nan() {
            Binary64::not_a_number()
        } else if self.infinite() || other.infinite() {
            if self.zero() || other.zero() {
                Binary64::not_a_number()
            } else {
                Binary64::packed(negative, INFINITE as nat)
            }
        } else {
            Binary64::rounded(
                negative,
                units(self.magnitude()) * units(other.magnitude()),
                one_in_units(),
            )
        }
    }

    /// The quotient, rounded to nearest.
    pub open spec fn over(self, other: Binary64) -> Binary64 {
        let negative = self.negative() != other.negative();
        if self.nan() || other.nan() {
            Binary64::not_a_number()
        } else if self.infinite() {
            if other.infinite() {
                Binary64::not_a_number()
            } else {
                Binary64::packed(negative, INFINITE as nat)
            }
        } else if other.infinite() {
            Binary64::packed(negative, 0)
        } else if other.zero() {
            if self.zero() {
                Binary64::not_a_number()
            } else {
                Binary64::packed(negative, INFINITE as nat)
            }
        } else {
            Binary64::rounded(
                negative,
                units(self.magnitude()) * one_in_units(),
                units(other.magnitude()),
            )
        }
    }

    /// The whole number nearest to a number, halves away from zero, held to
    /// the range of `u32`. What is not a number gives zero.
    pub open spec fn nearest_u32(self) -> u32 {
        if self.nan() || self.negative() {
            0
        } else {
            let one = one_in_units();
            let whole = (2 * units(self.magnitude()) + one) / (2 * one);
            if whole > u32::MAX {
                u32::MAX
            } else {
                whole as u32
            }
        }
    }

    /// The number with the given bits.
    pub fn from_bits(bits: u64) -> (r: Binary64)
        ensures
            r.bits == bits,
    {
        Binary64 { bits }
    }

    /// The bits of the number.
    pub fn to_bits(self) -> (r: u64)
        ensures
            r == self.bits,
    {
        self.bits
    }
}

} // verus!
