//! What a binary64 bit pattern denotes, and what it means to round to one.
//!
//! The smallest positive binary64 number is `2^-1074`, and every finite one is
//! a whole multiple of it. So a finite number is modelled by an integer: how
//! many of those units it holds.

use vstd::arithmetic::power2::*;
use vstd::prelude::*;

verus! {

/// The sign bit.
pub const SIGN: u64 = 0x8000_0000_0000_0000;

/// The magnitude (the bits below the sign) of an infinity. Greater magnitudes
/// are not numbers.
pub const INFINITE: u64 = 0x7FF0_0000_0000_0000;

/// The magnitude of the one not-a-number pattern that arithmetic produces.
pub const QUIET: u64 = 0x7FF8_0000_0000_0000;

/// The smallest magnitude whose significand has its leading bit implied.
pub const HIDDEN: u64 = 0x0010_0000_0000_0000;

/// How many times the unit is doubled to reach the number one.
pub const SCALE: u64 = 1074;

/// The power of two that scales the significand of a magnitude.
pub open spec fn exponent_of(mag: nat) -> nat {
    if mag < HIDDEN {
        0
    } else {
        (mag / (HIDDEN as nat) - 1) as nat
    }
}

/// The significand of a magnitude, with the implied bit written out.
pub open spec fn significand_of(mag: nat) -> nat {
    if mag < HIDDEN {
        mag
    } else {
        mag % (HIDDEN as nat) + HIDDEN as nat
    }
}

/// The number of units in a magnitude. Read off an infinity, this is the first
/// value past the largest finite one.
pub open spec fn units(mag: nat) -> nat {
    significand_of(mag) * pow2(exponent_of(mag))
}

/// The number one, in units.
pub open spec fn one_in_units() -> nat {
    pow2(SCALE as nat)
}

/// Rounding to nearest, ties to even: `mag` is the magnitude that `num / den`
/// units round to. The quotient lies no further than the midpoint from each
/// neighbour, and on a midpoint the even magnitude is taken.
pub open spec fn rounds_to(num: nat, den: nat, mag: nat) -> bool {
    &&& mag <= INFINITE
    &&& mag > 0 ==> ({
        let mid = (units((mag - 1) as nat) + units(mag)) * den;
        mid < 2 * num || (mid == 2 * num && mag % 2 == 0)
    })
    &&& mag < INFINITE ==> ({
        let mid = (units(mag) + units(mag + 1)) * den;
        2 * num < mid || (2 * num == mid && mag % 2 == 0)
    })
}

/// The magnitude nearest to `num / den` units.
pub open spec fn nearest(num: nat, den: nat) -> nat {
    choose|mag: nat| rounds_to(num, den, mag)
}

/// A magnitude put together from a significand and an exponent denotes their
/// product.
pub proof fn lemma_units_of_parts(k: nat, m: nat)
    requires
        m <= 2 * HIDDEN,
        k == 0 || m >= HIDDEN,
    ensures
        units(k * HIDDEN as nat + m) == m * pow2(k),
{
    let h = HIDDEN as nat;
    let mag = k * h + m;
    if m < h {
        assert(k == 0);
        assert(mag == m) by (nonlinear_arith)
            requires
                mag == k * h + m,
                k == 0,
        ;
    } else if m < 2 * h {
        assert(mag / h == k + 1 && mag % h == m - h) by (nonlinear_arith)
            requires
                mag == k * h + m,
                h <= m < 2 * h,
                h == 0x10_0000_0000_0000,
        ;
    } else {
        assert(mag / h == k + 2 && mag % h == 0) by (nonlinear_arith)
            requires
                mag == k * h + m,
                m == 2 * h,
                h == 0x10_0000_0000_0000,
        ;
        lemma_pow2_unfold(k + 1);
        assert(h * pow2(k + 1) == m * pow2(k)) by (nonlinear_arith)
            requires
                pow2(k + 1) == 2 * pow2(k),
                m == 2 * h,
        ;
    }
}

/// Taking a magnitude apart and putting it together again gives it back.
pub proof fn lemma_parts_of(mag: nat)
    ensures
        mag == exponent_of(mag) * HIDDEN as nat + significand_of(mag),
        significand_of(mag) < 2 * HIDDEN,
        exponent_of(mag) == 0 || significand_of(mag) >= HIDDEN,
{
    let h = HIDDEN as nat;
    if mag >= h {
        let e = mag / h;
        let f = mag % h;
        assert(mag == e * h + f && e >= 1 && f < h) by (nonlinear_arith)
            requires
                e == mag / h,
                f == mag % h,
                mag >= h,
                h == 0x10_0000_0000_0000,
        ;
        assert((e - 1) * h + (f + h) == mag) by (nonlinear_arith)
            requires
                mag == e * h + f,
        ;
    }
}

/// The gap between a magnitude and the next one is its power of two.
pub proof fn lemma_units_step(mag: nat)
    ensures
        units(mag + 1) == units(mag) + pow2(exponent_of(mag)),
{
    let k = exponent_of(mag);
    let m = significand_of(mag);
    lemma_parts_of(mag);
    lemma_units_of_parts(k, m + 1);
    assert((m + 1) * pow2(k) == m * pow2(k) + pow2(k)) by (nonlinear_arith);
}

/// Greater magnitudes denote greater values.
pub proof fn lemma_units_increase(a: nat, b: nat)
    requires
        a < b,
    ensures
        units(a) < units(b),
    decreases b,
{
    let c = (b - 1) as nat;
    lemma_units_step(c);
    lemma_pow2_pos(exponent_of(c));
    if a < c {
        lemma_units_increase(a, c);
    }
}

/// Magnitudes compare as the values they denote.
pub proof fn lemma_units_order(a: nat, b: nat)
    ensures
        a < b <==> units(a) < units(b),
        a == b <==> units(a) == units(b),
{
    if a < b {
        lemma_units_increase(a, b);
    } else if b < a {
        lemma_units_increase(b, a);
    }
}

/// A quotient bracketed by two neighbouring magnitudes rounds to the one that
/// the midpoint and the parity pick.
pub proof fn lemma_rounds_in_bracket(num: nat, den: nat, low: nat, up: bool)
    requires
        den > 0,
        low < INFINITE,
        units(low) * den <= num < units(low + 1) * den,
        ({
            let mid = (units(low) + units(low + 1)) * den;
            up == (2 * num > mid || (2 * num == mid && low % 2 == 1))
        }),
    ensures
        rounds_to(num, den, if up { low + 1 } else { low }),
{
    let u = units(low);
    let v = units(low + 1);
    if up {
        if low + 1 < INFINITE {
            let w = units(low + 2);
            lemma_units_increase(low + 1, low + 2);
            assert(2 * num < (v + w) * den) by (nonlinear_arith)
                requires
                    num < v * den,
                    v < w,
                    den > 0,
            ;
        }
    } else if low > 0 {
        let t = units((low - 1) as nat);
        lemma_units_increase((low - 1) as nat, low);
        assert((t + u) * den < 2 * num) by (nonlinear_arith)
            requires
                u * den <= num,
                t < u,
                den > 0,
        ;
    }
}

/// A quotient at or past the first value beyond the finite ones rounds to an
/// infinity.
pub proof fn lemma_rounds_past_finite(num: nat, den: nat)
    requires
        den > 0,
        units(INFINITE as nat) * den <= num,
    ensures
        rounds_to(num, den, INFINITE as nat),
{
    let u = units(INFINITE as nat);
    let t = units((INFINITE - 1) as nat);
    lemma_units_increase((INFINITE - 1) as nat, INFINITE as nat);
    assert((t + u) * den < 2 * num) by (nonlinear_arith)
        requires
            u * den <= num,
            t < u,
            den > 0,
    ;
}

proof fn lemma_rounds_somewhere_below(num: nat, den: nat, top: nat)
    requires
        den > 0,
        top <= INFINITE,
        num < units(top) * den,
    ensures
        exists|mag: nat| rounds_to(num, den, mag),
    decreases top,
{
    assert(units(0) == 0) by (nonlinear_arith)
        requires
            units(0) == 0 * pow2(0),
    ;
    if top == 0 {
        assert(units(top) * den == 0) by (nonlinear_arith)
            requires
                units(top) == 0,
        ;
    } else {
        let low = (top - 1) as nat;
        if num < units(low) * den {
            lemma_rounds_somewhere_below(num, den, low);
        } else {
            let mid = (units(low) + units(low + 1)) * den;
            let up = 2 * num > mid || (2 * num == mid && low % 2 == 1);
            lemma_rounds_in_bracket(num, den, low, up);
            assert(rounds_to(num, den, if up { low + 1 } else { low }));
        }
    }
}

/// Every quotient rounds somewhere.
pub proof fn lemma_rounds_somewhere(num: nat, den: nat)
    requires
        den > 0,
    ensures
        rounds_to(num, den, nearest(num, den)),
        nearest(num, den) <= INFINITE,
{
    if num < units(INFINITE as nat) * den {
        lemma_rounds_somewhere_below(num, den, INFINITE as nat);
    } else {
        lemma_rounds_past_finite(num, den);
    }
}

/// Rounding keeps order: of two quotients, the greater does not round lower.
/// Of two equal ones it follows that they round to the same magnitude.
pub proof fn lemma_rounding_keeps_order(
    num1: nat,
    den1: nat,
    mag1: nat,
    num2: nat,
    den2: nat,
    mag2: nat,
)
    requires
        den1 > 0,
        den2 > 0,
        num1 * den2 <= num2 * den1,
        rounds_to(num1, den1, mag1),
        rounds_to(num2, den2, mag2),
    ensures
        mag1 <= mag2,
{
    if mag2 < mag1 {
        // The first quotient is at least the midpoint under `mag1`, which is at
        // least the one over `mag2`, which is at least the second quotient.
        let m1 = units((mag1 - 1) as nat) + units(mag1);
        let m2 = units(mag2) + units(mag2 + 1);
        lemma_units_order((mag1 - 1) as nat, mag2);
        lemma_units_order(mag1, mag2 + 1);
        assert(m2 <= m1);
        assert(m1 * den1 <= 2 * num1);
        assert(2 * num2 <= m2 * den2);
        assert(m1 * den1 * den2 <= 2 * (num1 * den2)) by (nonlinear_arith)
            requires
                m1 * den1 <= 2 * num1,
        ;
        assert(2 * (num2 * den1) <= m2 * den1 * den2) by (nonlinear_arith)
            requires
                2 * num2 <= m2 * den2,
        ;
        let d = den1 * den2;
        assert(m1 * den1 * den2 == m1 * d) by (nonlinear_arith)
            requires
                d == den1 * den2,
        ;
        assert(m2 * den1 * den2 == m2 * d) by (nonlinear_arith)
            requires
                d == den1 * den2,
        ;
        assert(d > 0) by (nonlinear_arith)
            requires
                d == den1 * den2,
                den1 > 0,
                den2 > 0,
        ;
        assert(m1 <= m2) by (nonlinear_arith)
            requires
                m1 * d <= m2 * d,
                d > 0,
        ;
        // All of it is one value, so both lie on one midpoint.
        assert(m1 * d == 2 * (num1 * den2));
        assert(m1 * den1 == 2 * num1) by (nonlinear_arith)
            requires
                m1 * den1 * den2 == 2 * (num1 * den2),
                den2 > 0,
        ;
        assert(m2 * den2 == 2 * num2) by (nonlinear_arith)
            requires
                m2 * den1 * den2 == 2 * (num2 * den1),
                den1 > 0,
        ;
        assert(mag1 == mag2 + 1);
        assert(false);
    }
}

/// What a quotient rounds to is determined.
pub proof fn lemma_rounds_once(num: nat, den: nat, mag: nat)
    requires
        den > 0,
        rounds_to(num, den, mag),
    ensures
        nearest(num, den) == mag,
{
    let other = nearest(num, den);
    assert(rounds_to(num, den, other));
    lemma_rounding_keeps_order(num, den, mag, num, den, other);
    lemma_rounding_keeps_order(num, den, other, num, den, mag);
}

/// A value that a magnitude denotes exactly rounds to that magnitude.
pub proof fn lemma_exact_rounds_to_itself(num: nat, den: nat, mag: nat)
    requires
        den > 0,
        mag <= INFINITE,
        num == units(mag) * den,
    ensures
        nearest(num, den) == mag,
{
    let u = units(mag);
    if mag < INFINITE {
        let v = units(mag + 1);
        lemma_units_increase(mag, mag + 1);
        assert(num < v * den && 2 * num < (u + v) * den) by (nonlinear_arith)
            requires
                num == u * den,
                u < v,
                den > 0,
        ;
        lemma_rounds_in_bracket(num, den, mag, false);
    } else {
        lemma_rounds_past_finite(num, den);
    }
    lemma_rounds_once(num, den, mag);
}

} // verus!
