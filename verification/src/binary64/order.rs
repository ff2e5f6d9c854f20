//! Comparing and choosing among binary64 numbers.

use super::model::{lemma_units_order, units, INFINITE, SIGN};
use super::Binary64;
use vstd::arithmetic::power2::pow2;
use vstd::prelude::*;

verus! {

/// No units in the zero magnitude, some in every other.
pub proof fn lemma_zero_has_no_units(mag: nat)
    ensures
        units(0) == 0,
        mag > 0 ==> units(mag) > 0,
{
    assert(units(0) == 0) by (nonlinear_arith)
        requires
            units(0) == 0 * pow2(0),
    ;
    lemma_units_order(0, mag);
}

impl Binary64 {
    /// The bits below the sign.
    pub(crate) fn magnitude_bits(self) -> (r: u64)
        ensures
            r == self.magnitude(),
            r < SIGN,
    {
        if self.bits >= SIGN {
            self.bits - SIGN
        } else {
            self.bits
        }
    }

    /// The sign bit is set.
    pub fn is_negative(self) -> (r: bool)
        ensures
            r == self.negative(),
    {
        self.bits >= SIGN
    }

    /// Not a number.
    pub fn is_nan(self) -> (r: bool)
        ensures
            r == self.nan(),
    {
        self.magnitude_bits() > INFINITE
    }

    /// Whether this number is less than the other; false where either is not a
    /// number.
    pub fn less_than(self, other: Binary64) -> (r: bool)
        ensures
            r == self.less(other),
    {
        let a: u64 = self.magnitude_bits();
        let b: u64 = other.magnitude_bits();
        proof {
            lemma_units_order(a as nat, b as nat);
            lemma_units_order(b as nat, a as nat);
            lemma_zero_has_no_units(a as nat);
            lemma_zero_has_no_units(b as nat);
        }
        if a > INFINITE || b > INFINITE {
            false
        } else if self.is_negative() {
            if other.is_negative() {
                b < a
            } else {
                a > 0 || b > 0
            }
        } else {
            !other.is_negative() && a < b
        }
    }

    /// Whether the two are the same number; false where either is not a number.
    pub fn same_number(self, other: Binary64) -> (r: bool)
        ensures
            r == self.equals(other),
    {
        let a: u64 = self.magnitude_bits();
        let b: u64 = other.magnitude_bits();
        proof {
            lemma_units_order(a as nat, b as nat);
            lemma_zero_has_no_units(a as nat);
            lemma_zero_has_no_units(b as nat);
        }
        if a > INFINITE || b > INFINITE {
            false
        } else {
            a == b && (a == 0 || self.is_negative() == other.is_negative())
        }
    }

    /// The number with the sign flipped.
    pub fn negated(self) -> (r: Binary64)
        ensures
            r == self.opposite(),
    {
        let mag: u64 = self.magnitude_bits();
        if self.is_negative() {
            Binary64 { bits: mag }
        } else {
            Binary64 { bits: SIGN + mag }
        }
    }

    /// The number with the sign cleared.
    pub fn absolute(self) -> (r: Binary64)
        ensures
            r == self.modulus(),
    {
        Binary64 { bits: self.magnitude_bits() }
    }

    /// The greater of two numbers, or the one that is a number.
    pub fn larger(self, other: Binary64) -> (r: Binary64)
        ensures
            r == self.greater_of(other),
    {
        if self.is_nan() || self.less_than(other) {
            other
        } else {
            self
        }
    }

    /// The lesser of two numbers, or the one that is a number.
    pub fn smaller(self, other: Binary64) -> (r: Binary64)
        ensures
            r == self.lesser_of(other),
    {
        if self.is_nan() || other.less_than(self) {
            other
        } else {
            self
        }
    }

    /// The number held between two bounds. What is not a number stays as it is.
    pub fn clamped(self, low: Binary64, high: Binary64) -> (r: Binary64)
        requires
            !low.nan(),
            !high.nan(),
            low.value() <= high.value(),
        ensures
            r == self.held_within(low, high),
    {
        if self.less_than(low) {
            low
        } else if high.less_than(self) {
            high
        } else {
            self
        }
    }
}

/// Of two numbers exactly one of the three holds: the first is less, they are
/// the same, or the second is less. Where either is not a number, none does.
pub proof fn order_is_total_on_numbers(a: Binary64, b: Binary64)
    ensures
        a.nan() || b.nan() ==> !a.less(b) && !a.equals(b) && !b.less(a),
        !a.nan() && !b.nan() ==> a.less(b) || a.equals(b) || b.less(a),
        !(a.less(b) && b.less(a)),
        !(a.less(b) && a.equals(b)),
{
}

/// What is held between two bounds lies between them, and so does what lies
/// between them already, unchanged.
pub proof fn held_within_lies_within(x: Binary64, low: Binary64, high: Binary64)
    requires
        !x.nan(),
        !low.nan(),
        !high.nan(),
        low.value() <= high.value(),
    ensures
        low.value() <= x.held_within(low, high).value() <= high.value(),
        low.value() <= x.value() <= high.value() ==> x.held_within(low, high) == x,
        x.held_within(low, high).held_within(low, high) == x.held_within(low, high),
{
}

} // verus!
