//! How good rounded arithmetic is: nothing is closer to the exact result than
//! what is given for it, and how far from it that can be.

use super::arithmetic::lemma_whole_is_exact;
use super::laws::{nearest_keeps_order, rounded_units};
use super::model::{
    exponent_of, lemma_exact_rounds_to_itself, lemma_parts_of, lemma_rounds_somewhere,
    lemma_units_of_parts, lemma_units_order, lemma_units_step, nearest,
    one_in_units, significand_of, units, HIDDEN, INFINITE, SCALE,
};
use super::order::lemma_zero_has_no_units;
use super::Binary64;
use vstd::arithmetic::power2::*;
use vstd::math::abs;
use vstd::prelude::*;

verus! {

/// Up to twice the smallest significand with an implied bit, magnitudes count
/// units. From the smallest one on, as many magnitudes further is twice the
/// value.
pub proof fn units_double(mag: nat)
    ensures
        mag <= 2 * HIDDEN ==> units(mag) == mag,
        mag >= HIDDEN ==> units(mag + HIDDEN as nat) == 2 * units(mag),
{
    let h = HIDDEN as nat;
    lemma2_to64();
    if mag <= 2 * h {
        lemma_units_of_parts(0, mag);
    }
    if mag >= h {
        let k = exponent_of(mag);
        let m = significand_of(mag);
        lemma_parts_of(mag);
        lemma_units_of_parts(k + 1, m);
        assert((k + 1) * h + m == mag + h) by (nonlinear_arith)
            requires
                mag == k * h + m,
        ;
        lemma_pow2_unfold(k + 1);
        assert(m * pow2(k + 1) == 2 * (m * pow2(k))) by (nonlinear_arith)
            requires
                pow2(k + 1) == 2 * pow2(k),
        ;
    }
}

/// No magnitude up to that of an infinity is closer to a quotient than the one
/// that it rounds to, and one that is as close is not even where that one is
/// not.
pub proof fn nearest_is_closest(num: nat, den: nat, other: nat)
    requires
        den > 0,
        other <= INFINITE,
    ensures
        abs(units(nearest(num, den)) * den - num) <= abs(units(other) * den - num),
        abs(units(nearest(num, den)) * den - num) == abs(units(other) * den - num)
            ==> nearest(num, den) == other || nearest(num, den) % 2 == 0,
{
    let g = nearest(num, den);
    let u = units(g);
    let v = units(other);
    lemma_rounds_somewhere(num, den);
    if other < g {
        let w = units((g - 1) as nat);
        lemma_units_order(other, (g - 1) as nat);
        lemma_units_order((g - 1) as nat, g);
        assert(v * den <= w * den && w * den < u * den) by (nonlinear_arith)
            requires
                v <= w < u,
                den > 0,
        ;
        assert((w + u) * den == w * den + u * den) by (nonlinear_arith);
    } else if g < other {
        let w = units(g + 1);
        lemma_units_order(g + 1, other);
        lemma_units_order(g, g + 1);
        assert(u * den < w * den && w * den <= v * den) by (nonlinear_arith)
            requires
                u < w <= v,
                den > 0,
        ;
        assert((u + w) * den == u * den + w * den) by (nonlinear_arith);
    }
}

/// A quotient within the finite numbers is rounded by no more than its part of
/// `2^-53`, or half a unit where it is small.
pub proof fn nearest_is_accurate(num: nat, den: nat)
    requires
        den > 0,
        num <= units(INFINITE as nat) * den,
    ensures
        0x20_0000_0000_0000 * abs(units(nearest(num, den)) * den - num) <= num
            + 0x10_0000_0000_0000 * den,
        num >= HIDDEN * den ==> 0x20_0000_0000_0000 * abs(units(nearest(num, den)) * den - num)
            <= num,
{
    let h = HIDDEN as nat;
    let g = nearest(num, den);
    let u = units(g);
    lemma_rounds_somewhere(num, den);
    units_double(h);
    lemma_exact_rounds_to_itself(h * den, den, h);
    if num >= u * den {
        if num > u * den {
            assert(g < INFINITE);
            let gap = pow2(exponent_of(g));
            lemma_units_step(g);
            lemma_gap_beside_value(g);
            assert(2 * (num - u * den) <= gap * den) by (nonlinear_arith)
                requires
                    2 * num <= (u + (u + gap)) * den,
            ;
            assert(h * (gap * den) <= u * den + h * den) by (nonlinear_arith)
                requires
                    h * gap <= u + h,
            ;
            if num >= h * den {
                assert(h * den * den <= num * den) by (nonlinear_arith)
                    requires
                        num >= h * den,
                ;
                assert((h * den) * den == h * den * den);
                nearest_keeps_order(h * den, den, num, den);
                assert(h * (gap * den) <= u * den) by (nonlinear_arith)
                    requires
                        h * gap <= u,
                ;
            }
        }
    } else {
        assert(g > 0) by {
            lemma_zero_has_no_units(0);
            assert(units(0) * den == 0) by (nonlinear_arith)
                requires
                    units(0) == 0,
            ;
        }
        let f = (g - 1) as nat;
        let w = units(f);
        let gap = pow2(exponent_of(f));
        lemma_units_step(f);
        lemma_gap_beside_value(f);
        assert(2 * (u * den - num) <= gap * den) by (nonlinear_arith)
            requires
                (w + u) * den <= 2 * num,
                u == w + gap,
        ;
        assert(w * den <= num) by (nonlinear_arith)
            requires
                (w + u) * den <= 2 * num,
                u == w + gap,
        ;
        assert(h * (gap * den) <= w * den + h * den) by (nonlinear_arith)
            requires
                h * gap <= w + h,
        ;
        if num >= h * den {
            assert(f >= h) by {
                if f < h {
                    lemma_units_order(g, h);
                    assert(u * den <= h * den) by (nonlinear_arith)
                        requires
                            u <= h,
                    ;
                }
            }
            assert(h * (gap * den) <= w * den) by (nonlinear_arith)
                requires
                    h * gap <= w,
            ;
        }
    }
}

/// The gap above a magnitude is small beside its value.
proof fn lemma_gap_beside_value(mag: nat)
    ensures
        HIDDEN * pow2(exponent_of(mag)) <= units(mag) + HIDDEN,
        mag >= HIDDEN ==> HIDDEN * pow2(exponent_of(mag)) <= units(mag),
{
    let h = HIDDEN as nat;
    let k = exponent_of(mag);
    let m = significand_of(mag);
    lemma_parts_of(mag);
    lemma2_to64();
    if mag >= h {
        assert(h * pow2(k) <= m * pow2(k)) by (nonlinear_arith)
            requires
                h <= m,
        ;
    }
}

/// A whole number of units within the finite numbers is rounded by no more than
/// its part of `2^-53`.
pub proof fn rounded_units_are_accurate(exact: int)
    requires
        abs(exact) <= units(INFINITE as nat),
    ensures
        0x20_0000_0000_0000 * abs(rounded_units(exact) - exact) <= abs(exact),
{
    let x = abs(exact);
    if x < HIDDEN {
        units_double(x);
        lemma_exact_rounds_to_itself(x, 1, x);
    } else {
        nearest_is_accurate(x, 1);
    }
}

/// No number is closer to a whole number of units than the one that it rounds
/// to.
pub proof fn rounded_units_are_closest(exact: int, other: Binary64)
    requires
        !other.nan(),
    ensures
        abs(rounded_units(exact) - exact) <= abs(other.value() - exact),
{
    let x = abs(exact);
    nearest_is_closest(x, 1, other.magnitude());
    nearest_is_closest(x, 1, 0);
    lemma_zero_has_no_units(other.magnitude());
}

/// The value that a product of units rounds to.
pub open spec fn rounded_product(x: int, y: int) -> int {
    if x * y >= 0 {
        units(nearest((x * y) as nat, one_in_units())) as int
    } else {
        -(units(nearest((-(x * y)) as nat, one_in_units())) as int)
    }
}

/// The value that a quotient of units rounds to, whatever their signs.
pub open spec fn rounded_ratio(x: int, y: int) -> int {
    let mag = units(nearest(abs(x) * one_in_units(), abs(y))) as int;
    if (x >= 0) == (y >= 0) {
        mag
    } else {
        -mag
    }
}

/// A product of finite numbers has the value that the exact product rounds to,
/// and the sign that the signs make.
pub proof fn times_rounds_exact_product(a: Binary64, b: Binary64)
    requires
        a.finite(),
        b.finite(),
    ensures
        !a.times(b).nan(),
        a.times(b).value() == rounded_product(a.value(), b.value()),
        a.times(b).negative() <==> a.negative() != b.negative(),
{
    let ua = units(a.magnitude());
    let ub = units(b.magnitude());
    let one = one_in_units();
    lemma_pow2_pos(SCALE as nat);
    lemma_zero_has_no_units(a.magnitude());
    lemma_zero_has_no_units(b.magnitude());
    lemma_rounds_somewhere(ua * ub, one);
    assert(units(0) * one == 0) by (nonlinear_arith)
        requires
            units(0) == 0,
    ;
    lemma_exact_rounds_to_itself(0, one, 0);
    let p = a.value() * b.value();
    assert(p == ua * ub || p == -(ua * ub)) by (nonlinear_arith)
        requires
            a.value() == ua || a.value() == -ua,
            b.value() == ub || b.value() == -ub,
            p == a.value() * b.value(),
    ;
    assert(ua * ub >= 0) by (nonlinear_arith);
    assert(p == if a.negative() != b.negative() { -(ua * ub) } else { (ua * ub) as int })
        by (nonlinear_arith)
        requires
            a.value() == if a.negative() { -ua } else { ua as int },
            b.value() == if b.negative() { -ub } else { ub as int },
            p == a.value() * b.value(),
    ;
}

/// A quotient of finite numbers, the second not zero, has the value that the
/// exact quotient rounds to, and the sign that the signs make.
pub proof fn over_rounds_exact_quotient(a: Binary64, b: Binary64)
    requires
        a.finite(),
        b.finite(),
        b.value() != 0,
    ensures
        !a.over(b).nan(),
        a.over(b).value() == rounded_ratio(a.value(), b.value()),
        a.over(b).negative() <==> a.negative() != b.negative(),
{
    let ua = units(a.magnitude());
    let ub = units(b.magnitude());
    let one = one_in_units();
    lemma_pow2_pos(SCALE as nat);
    lemma_zero_has_no_units(a.magnitude());
    lemma_zero_has_no_units(b.magnitude());
    lemma_rounds_somewhere(ua * one, ub);
    if ua == 0 {
        assert(ua * one == 0 && units(0) * ub == 0) by (nonlinear_arith)
            requires
                units(0) == 0,
                ua == 0,
        ;
        lemma_exact_rounds_to_itself(0, ub, 0);
    }
}

/// No number is closer to a product than the one that it rounds to.
pub proof fn rounded_products_are_closest(x: int, y: int, other: Binary64)
    requires
        !other.nan(),
    ensures
        abs(rounded_product(x, y) * one_in_units() - x * y) <= abs(
            other.value() * one_in_units() - x * y,
        ),
{
    let one = one_in_units();
    let p = abs(x * y);
    lemma_pow2_pos(SCALE as nat);
    nearest_is_closest(p, one, other.magnitude());
    nearest_is_closest(p, one, 0);
    lemma_zero_has_no_units(other.magnitude());
    lemma_scaled_sign(units(nearest(p, one)), one);
    lemma_scaled_sign(units(other.magnitude()), one);
    lemma_scaled_sign(0, one);
}

proof fn lemma_scaled_sign(u: nat, d: nat)
    ensures
        (-u) * d == -(u * d),
        u * d >= 0,
        0 * d == 0,
{
    assert((-u) * d == -(u * d) && u * d >= 0 && 0 * d == 0) by (nonlinear_arith);
}

/// No number is closer to a quotient than the one that it rounds to.
pub proof fn rounded_ratios_are_closest(x: int, y: int, other: Binary64)
    requires
        y != 0,
        !other.nan(),
    ensures
        abs(rounded_ratio(x, y) * y - x * one_in_units()) <= abs(
            other.value() * y - x * one_in_units(),
        ),
{
    let one = one_in_units();
    let n = abs(x) * one;
    let d = abs(y);
    let u = units(nearest(n, d));
    let v = units(other.magnitude());
    lemma_pow2_pos(SCALE as nat);
    nearest_is_closest(n, d, other.magnitude());
    nearest_is_closest(n, d, 0);
    lemma_zero_has_no_units(other.magnitude());
    lemma_scaled_sign(0, d);
    assert(n == x * one || n == -(x * one)) by (nonlinear_arith)
        requires
            n == abs(x) * one,
            abs(x) == x || abs(x) == -x,
    ;
    let r = rounded_ratio(x, y);
    let w = other.value();
    lemma_signed_products(r, y, u, d);
    lemma_signed_products(w, y, v, d);
    lemma_signed_products(x, one as int, abs(x), one);
    assert(u * d >= 0 && v * d >= 0) by (nonlinear_arith);
}

/// A product of integers from that of their sizes.
proof fn lemma_signed_products(x: int, y: int, u: nat, v: nat)
    requires
        x == u || x == -u,
        y == v || y == -v,
    ensures
        (x == u) == (y == v) ==> x * y == u * v,
        (x == u) != (y == v) ==> x * y == -(u * v),
        x == -u && y == -v ==> x * y == u * v,
        x == -u && y == v ==> x * y == -(u * v),
        x == u && y == -v ==> x * y == -(u * v),
{
    assert(x == u && y == v ==> x * y == u * v);
    assert(x == -u && y == -v ==> x * y == u * v) by (nonlinear_arith);
    assert(x == -u && y == v ==> x * y == -(u * v)) by (nonlinear_arith);
    assert(x == u && y == -v ==> x * y == -(u * v)) by (nonlinear_arith);
}

/// Arithmetic with what is not a number, with infinities and with zeros.
pub proof fn special_sums(a: Binary64, b: Binary64)
    ensures
        a.nan() || b.nan() ==> a.plus(b).nan(),
        a.infinite() && b.finite() ==> a.plus(b) == a,
        a.finite() && b.infinite() ==> a.plus(b) == b,
        a.infinite() && b.infinite() && a == b ==> a.plus(b) == a,
        a.infinite() && b.infinite() && a != b ==> a.plus(b).nan(),
        a.finite() && b.finite() && a.value() + b.value() == 0 ==> a.plus(b).zero() && (a.plus(
            b,
        ).negative() <==> a.negative() && b.negative()),
        a.finite() && b.finite() && a.value() + b.value() < 0 ==> a.plus(b).negative(),
        a.finite() && b.finite() && a.value() + b.value() > 0 ==> !a.plus(b).negative(),
{
    let exact = a.value() + b.value();
    if a.finite() && b.finite() {
        lemma_rounds_somewhere(abs(exact), 1);
    }
}

/// Products with what is not a number and with infinities.
pub proof fn special_products(a: Binary64, b: Binary64)
    ensures
        a.nan() || b.nan() ==> a.times(b).nan(),
        a.infinite() && b.zero() ==> a.times(b).nan() && b.times(a).nan(),
        a.infinite() && !b.zero() && !b.nan() ==> {
            &&& a.times(b).infinite()
            &&& b.times(a).infinite()
            &&& a.times(b).negative() <==> a.negative() != b.negative()
            &&& b.times(a).negative() <==> a.negative() != b.negative()
        },
{
}

/// Quotients with what is not a number, with infinities and by zero.
pub proof fn special_quotients(a: Binary64, b: Binary64)
    ensures
        a.nan() || b.nan() ==> a.over(b).nan(),
        a.infinite() && b.infinite() ==> a.over(b).nan(),
        a.zero() && b.zero() ==> a.over(b).nan(),
        (a.infinite() && b.finite()) || (a.finite() && !a.zero() && b.zero()) ==> a.over(
            b,
        ).infinite() && (a.over(b).negative() <==> a.negative() != b.negative()),
        a.finite() && b.infinite() ==> a.over(b).zero() && (a.over(b).negative() <==> a.negative()
            != b.negative()),
{
}

/// One over a number: none where it is not a number, an infinity of its sign for a
/// zero, a zero of its sign for an infinity, and else the exact quotient, rounded.
pub proof fn reciprocals(a: Binary64)
    ensures
        a.nan() ==> Binary64::of_whole(1).over(a).nan(),
        a.zero() ==> Binary64::of_whole(1).over(a).infinite() && Binary64::of_whole(1).over(
            a,
        ).negative() == a.negative(),
        a.infinite() ==> Binary64::of_whole(1).over(a).zero(),
        a.finite() && a.value() != 0 ==> !Binary64::of_whole(1).over(a).nan()
            && Binary64::of_whole(1).over(a).value() == rounded_ratio(
            one_in_units() as int,
            a.value(),
        ),
{
    lemma_whole_is_exact(1);
    special_quotients(Binary64::of_whole(1), a);
    if a.finite() && a.value() != 0 {
        over_rounds_exact_quotient(Binary64::of_whole(1), a);
    }
}

/// The number that stands for a ratio is the one closest to it.
pub proof fn ratios_are_closest(p: nat, q: nat, other: Binary64)
    requires
        q > 0,
        !other.nan(),
    ensures
        !Binary64::of_ratio(p, q).nan(),
        !Binary64::of_ratio(p, q).negative(),
        abs(Binary64::of_ratio(p, q).value() * q - p * one_in_units()) <= abs(
            other.value() * q - p * one_in_units(),
        ),
{
    let n = p * one_in_units();
    lemma_rounds_somewhere(n, q);
    nearest_is_closest(n, q, other.magnitude());
    nearest_is_closest(n, q, 0);
    lemma_zero_has_no_units(other.magnitude());
    lemma_scaled_sign(units(other.magnitude()), q);
    lemma_scaled_sign(0, q);
    assert(n >= 0) by (nonlinear_arith)
        requires
            n == p * one_in_units(),
    ;
}

/// A ratio of small whole numbers has a finite number, which is zero for zero
/// only, and off by no more than its part of `2^-53`.
pub proof fn small_ratios_are_finite(p: nat, q: nat)
    requires
        0 < q <= u32::MAX,
        p <= u32::MAX,
    ensures
        Binary64::of_ratio(p, q).finite(),
        Binary64::of_ratio(p, q).value() >= 0,
        p > 0 ==> Binary64::of_ratio(p, q).value() > 0,
        0x20_0000_0000_0000 * abs(Binary64::of_ratio(p, q).value() * q - p * one_in_units()) <= p
            * one_in_units(),
{
    let one = one_in_units();
    let n = p * one;
    let r = Binary64::of_ratio(p, q);
    lemma_pow2_pos(SCALE as nat);
    lemma_rounds_somewhere(n, q);
    lemma_whole_is_exact(p);
    let top = Binary64::of_whole(p);
    lemma_exact_rounds_to_itself(n * q, q, top.magnitude());
    assert(n * q <= (n * q) * q) by (nonlinear_arith)
        requires
            q >= 1,
            n >= 0,
    ;
    nearest_keeps_order(n, q, n * q, q);
    lemma_units_order(top.magnitude(), INFINITE as nat);
    lemma_zero_has_no_units(0);
    if p == 0 {
        assert(n == 0 && units(0) * q == 0) by (nonlinear_arith)
            requires
                n == p * one,
                p == 0,
                units(0) == 0,
        ;
        lemma_exact_rounds_to_itself(0, q, 0);
    } else {
        lemma2_to64();
        lemma2_to64_rest();
        lemma_pow2_adds(32, 52);
        lemma_pow2_strictly_increases(84, SCALE as nat);
        assert(n >= HIDDEN * q) by (nonlinear_arith)
            requires
                n == p * one,
                p >= 1,
                one >= 0x1_0000_0000 * 0x10_0000_0000_0000,
                q <= 0x1_0000_0000,
                HIDDEN == 0x10_0000_0000_0000,
        ;
        assert(n <= units(INFINITE as nat) * q) by (nonlinear_arith)
            requires
                n <= units(INFINITE as nat),
                q >= 1,
        ;
        nearest_is_accurate(n, q);
        assert(n > 0) by (nonlinear_arith)
            requires
                n == p * one,
                p >= 1,
                one > 0,
        ;
        if r.value() == 0 {
            assert(r.value() * q == 0) by (nonlinear_arith)
                requires
                    r.value() == 0,
            ;
        }
    }
}

/// The whole number for a number lies within half of it, and for a number half
/// way between two it is the greater one. Below zero, and where there is no
/// number, it is zero, and past the range of `u32` it is the end of the range.
pub proof fn whole_numbers_are_nearest(a: Binary64)
    ensures
        a.nan() || a.negative() ==> a.nearest_u32() == 0,
        !a.nan() && a.value() >= 0 ==> 2 * (a.nearest_u32() * one_in_units()) <= 2 * a.value()
            + one_in_units(),
        !a.nan() && a.value() >= 0 && a.nearest_u32() < u32::MAX ==> 2 * a.value() + one_in_units()
            < 2 * ((a.nearest_u32() + 1) * one_in_units()),
{
    let one = one_in_units();
    lemma_pow2_pos(SCALE as nat);
    lemma_zero_has_no_units(a.magnitude());
    if !a.nan() {
        let u = units(a.magnitude());
        let w = (2 * u + one) / (2 * one);
        assert(w * (2 * one) <= 2 * u + one && 2 * u + one < (w + 1) * (2 * one))
            by (nonlinear_arith)
            requires
                w == (2 * u + one) / (2 * one),
                one > 0,
        ;
        let r = a.nearest_u32() as nat;
        assert(2 * (r * one) <= w * (2 * one)) by (nonlinear_arith)
            requires
                r <= w,
        ;
        assert(2 * ((r + 1) * one) == (r + 1) * (2 * one)) by (nonlinear_arith);
        assert(2 * (0 * one) == 0 && 2 * ((0 + 1) * one) == 2 * one) by (nonlinear_arith);
    }
}

/// The greater of two numbers is one of them and no less than either; beside
/// what is not a number it is the other.
pub proof fn the_greater_is_the_greater(a: Binary64, b: Binary64)
    ensures
        a.greater_of(b) == a || a.greater_of(b) == b,
        !a.nan() && !b.nan() ==> a.greater_of(b).value() >= a.value() && a.greater_of(b).value()
            >= b.value(),
        a.nan() ==> a.greater_of(b) == b,
        b.nan() && !a.nan() ==> a.greater_of(b) == a,
{
}

/// The lesser of two numbers is one of them and no more than either; beside what
/// is not a number it is the other.
pub proof fn the_lesser_is_the_lesser(a: Binary64, b: Binary64)
    ensures
        a.lesser_of(b) == a || a.lesser_of(b) == b,
        !a.nan() && !b.nan() ==> a.lesser_of(b).value() <= a.value() && a.lesser_of(b).value()
            <= b.value(),
        a.nan() ==> a.lesser_of(b) == b,
        b.nan() && !a.nan() ==> a.lesser_of(b) == a,
{
}

/// The modulus has the size of the value and no sign.
pub proof fn modulus_has_no_sign(a: Binary64)
    ensures
        a.modulus().value() == abs(a.value()),
        !a.modulus().negative(),
        a.modulus().nan() == a.nan(),
        a.modulus().infinite() == a.infinite(),
{
}

/// Numbers compare as their bits do, the other way round below zero, and the two
/// zeros are one number.
pub proof fn numbers_compare_as_their_bits(a: Binary64, b: Binary64)
    requires
        !a.nan(),
        !b.nan(),
    ensures
        !a.negative() && !b.negative() ==> (a.less(b) <==> a.bits < b.bits),
        a.negative() && b.negative() ==> (a.less(b) <==> b.bits < a.bits),
        a.negative() && !b.negative() ==> (a.less(b) <==> !(a.zero() && b.zero())),
        !a.negative() && b.negative() ==> !a.less(b),
        a.equals(b) <==> a == b || (a.zero() && b.zero()),
{
    lemma_units_order(a.magnitude(), b.magnitude());
    lemma_units_order(b.magnitude(), a.magnitude());
    lemma_zero_has_no_units(a.magnitude());
    lemma_zero_has_no_units(b.magnitude());
}

} // verus!
