//! Laws of rounded arithmetic: where it is exact, and what order it keeps.

use super::arithmetic::{lemma_nearest_of_ratio, lemma_whole_is_exact};
use super::model::{
    lemma_exact_rounds_to_itself, lemma_rounding_keeps_order, lemma_rounds_somewhere,
    lemma_units_order, nearest, one_in_units, units, INFINITE, SCALE,
};
use super::order::lemma_zero_has_no_units;
use super::Binary64;
use vstd::arithmetic::power2::*;
use vstd::prelude::*;

verus! {

/// Of two quotients the greater does not round lower.
pub proof fn nearest_keeps_order(num1: nat, den1: nat, num2: nat, den2: nat)
    requires
        den1 > 0,
        den2 > 0,
        num1 * den2 <= num2 * den1,
    ensures
        nearest(num1, den1) <= nearest(num2, den2) <= INFINITE,
        units(nearest(num1, den1)) <= units(nearest(num2, den2)),
{
    lemma_rounds_somewhere(num1, den1);
    lemma_rounds_somewhere(num2, den2);
    lemma_rounding_keeps_order(
        num1,
        den1,
        nearest(num1, den1),
        num2,
        den2,
        nearest(num2, den2),
    );
    lemma_units_order(nearest(num1, den1), nearest(num2, den2));
    lemma_units_order(nearest(num2, den2), nearest(num1, den1));
}

/// Every number lies between the infinities.
pub proof fn numbers_lie_between_infinities(a: Binary64)
    requires
        !a.nan(),
    ensures
        -(units(INFINITE as nat) as int) <= a.value() <= units(INFINITE as nat),
{
    lemma_units_order(a.magnitude(), INFINITE as nat);
    lemma_units_order(INFINITE as nat, a.magnitude());
}

/// The value that a whole number of units rounds to.
pub open spec fn rounded_units(exact: int) -> int {
    if exact >= 0 {
        units(nearest(exact as nat, 1)) as int
    } else {
        -(units(nearest((-exact) as nat, 1)) as int)
    }
}

/// Rounding whole numbers of units keeps order.
pub proof fn rounded_units_keep_order(x: int, y: int)
    requires
        x <= y,
    ensures
        rounded_units(x) <= rounded_units(y),
{
    if x >= 0 {
        nearest_keeps_order(x as nat, 1, y as nat, 1);
    } else if y < 0 {
        nearest_keeps_order((-y) as nat, 1, (-x) as nat, 1);
    }
}

/// A sum of finite numbers has the value that the exact sum rounds to.
pub proof fn sum_rounds_exact_sum(a: Binary64, b: Binary64)
    requires
        a.finite(),
        b.finite(),
    ensures
        !a.plus(b).nan(),
        a.plus(b).value() == rounded_units(a.value() + b.value()),
{
    let exact = a.value() + b.value();
    lemma_zero_has_no_units(0);
    if exact > 0 {
        lemma_rounds_somewhere(exact as nat, 1);
    } else if exact < 0 {
        lemma_rounds_somewhere((-exact) as nat, 1);
    } else {
        lemma_exact_rounds_to_itself(0, 1, 0);
    }
}

/// A value that some number has rounds to itself.
pub proof fn exact_units_round_to_themselves(a: Binary64)
    requires
        !a.nan(),
    ensures
        rounded_units(a.value()) == a.value(),
{
    lemma_zero_has_no_units(a.magnitude());
    lemma_exact_rounds_to_itself(units(a.magnitude()), 1, a.magnitude());
}

/// Flipping the sign flips the value.
pub proof fn opposite_flips_value(a: Binary64)
    ensures
        a.opposite().value() == -a.value(),
        a.opposite().nan() == a.nan(),
        a.opposite().finite() == a.finite(),
        a.opposite().infinite() == a.infinite(),
        a.opposite().opposite() == a,
{
}

/// Adding keeps order: a lesser number plus the same one is no greater, where
/// both sums are numbers. With a finite one they always are.
pub proof fn plus_keeps_order(a: Binary64, b: Binary64, c: Binary64)
    requires
        !a.nan(),
        !b.nan(),
        !c.nan(),
        a.value() <= b.value(),
    ensures
        c.finite() ==> !a.plus(c).nan() && !b.plus(c).nan(),
        !a.plus(c).nan() && !b.plus(c).nan() ==> a.plus(c).value() <= b.plus(c).value(),
{
    if a.finite() && c.finite() {
        sum_rounds_exact_sum(a, c);
        numbers_lie_between_infinities(a.plus(c));
        lemma_units_order(a.magnitude(), INFINITE as nat);
    }
    if b.finite() && c.finite() {
        sum_rounds_exact_sum(b, c);
        numbers_lie_between_infinities(b.plus(c));
        lemma_units_order(b.magnitude(), INFINITE as nat);
    }
    if a.finite() && b.finite() && c.finite() {
        rounded_units_keep_order(a.value() + c.value(), b.value() + c.value());
    }
}

/// Addition does not depend on the order of what is added.
pub proof fn plus_commutes(a: Binary64, b: Binary64)
    ensures
        a.plus(b) == b.plus(a),
{
}

/// Subtracting turns order round: less taken away leaves no less, where both
/// differences are numbers. From a finite number they always are.
pub proof fn minus_turns_order(a: Binary64, b: Binary64, c: Binary64)
    requires
        !a.nan(),
        !b.nan(),
        !c.nan(),
        a.value() <= b.value(),
    ensures
        c.finite() ==> !c.minus(a).nan() && !c.minus(b).nan(),
        !c.minus(a).nan() && !c.minus(b).nan() ==> c.minus(b).value() <= c.minus(a).value(),
{
    plus_keeps_order(b.opposite(), a.opposite(), c);
}

/// Subtracting the same number keeps order, where both differences are numbers.
/// With a finite one they always are.
pub proof fn minus_keeps_order(a: Binary64, b: Binary64, c: Binary64)
    requires
        !a.nan(),
        !b.nan(),
        !c.nan(),
        a.value() <= b.value(),
    ensures
        c.finite() ==> !a.minus(c).nan() && !b.minus(c).nan(),
        !a.minus(c).nan() && !b.minus(c).nan() ==> a.minus(c).value() <= b.minus(c).value(),
{
    opposite_flips_value(c);
    plus_keeps_order(a, b, c.opposite());
}

/// A difference of finite numbers is zero only where they are the same number,
/// and otherwise has the sign of the exact difference.
pub proof fn difference_has_exact_sign(a: Binary64, b: Binary64)
    requires
        a.finite(),
        b.finite(),
    ensures
        !a.minus(b).nan(),
        a.minus(b).value() > 0 <==> a.value() > b.value(),
        a.minus(b).value() < 0 <==> a.value() < b.value(),
        a.minus(b).value() == 0 <==> a.value() == b.value(),
{
    opposite_flips_value(b);
    sum_rounds_exact_sum(a, b.opposite());
    let exact = a.value() - b.value();
    lemma_zero_has_no_units(1);
    lemma2_to64();
    assert(units(1) == 1) by (nonlinear_arith)
        requires
            units(1) == 1 * pow2(0),
            pow2(0) == 1,
    ;
    lemma_exact_rounds_to_itself(1, 1, 1);
    lemma_exact_rounds_to_itself(0, 1, 0);
    if exact > 0 {
        nearest_keeps_order(1, 1, exact as nat, 1);
    } else if exact < 0 {
        nearest_keeps_order(1, 1, (-exact) as nat, 1);
    }
}

/// Of two different numbers, infinities among them, the greater minus the
/// lesser is above zero.
pub proof fn greater_minus_lesser_is_positive(a: Binary64, b: Binary64)
    requires
        !a.nan(),
        !b.nan(),
        a.value() > b.value(),
    ensures
        !a.minus(b).nan(),
        !b.minus(a).nan(),
        a.minus(b).value() > 0,
        b.minus(a).value() < 0,
{
    lemma_zero_has_no_units(INFINITE as nat);
    if a.finite() && b.finite() {
        difference_has_exact_sign(a, b);
        difference_has_exact_sign(b, a);
    } else {
        lemma_units_order(a.magnitude(), b.magnitude());
    }
}

/// Adding zero changes no number.
pub proof fn plus_zero_is_the_same_number(a: Binary64, z: Binary64)
    requires
        !a.nan(),
        z.zero(),
    ensures
        a.plus(z).equals(a),
        z.plus(a).equals(a),
{
    lemma_zero_has_no_units(0);
    if a.finite() {
        sum_rounds_exact_sum(a, z);
        exact_units_round_to_themselves(a);
    }
    plus_commutes(a, z);
}

/// A product of finite numbers not below zero has the value that the exact
/// product rounds to.
pub proof fn product_rounds_exact_product(a: Binary64, b: Binary64)
    requires
        a.finite(),
        b.finite(),
        a.value() >= 0,
        b.value() >= 0,
    ensures
        !a.times(b).nan(),
        a.times(b).value() == units(
            nearest((a.value() * b.value()) as nat, one_in_units()),
        ),
        a.value() * b.value() >= 0,
{
    let ua = units(a.magnitude());
    let ub = units(b.magnitude());
    lemma_pow2_pos(SCALE as nat);
    lemma_zero_has_no_units(a.magnitude());
    lemma_zero_has_no_units(b.magnitude());
    assert(a.value() == ua && b.value() == ub);
    lemma_rounds_somewhere(ua * ub, one_in_units());
    assert(ua * ub >= 0) by (nonlinear_arith);
    if a.negative() || b.negative() {
        // A negative sign on a value that is not below zero is that of a zero.
        assert(ua * ub == 0) by (nonlinear_arith)
            requires
                ua == 0 || ub == 0,
        ;
        assert(units(0) * one_in_units() == 0) by (nonlinear_arith)
            requires
                units(0) == 0,
        ;
        lemma_exact_rounds_to_itself(0, one_in_units(), 0);
    }
}

/// Multiplying by a number not below zero keeps order among those not below
/// zero, where both products are numbers. Of finite numbers they always are.
pub proof fn times_keeps_order(a: Binary64, b: Binary64, c: Binary64)
    requires
        !a.nan(),
        !b.nan(),
        !c.nan(),
        0 <= a.value() <= b.value(),
        c.value() >= 0,
    ensures
        a.finite() && c.finite() ==> !a.times(c).nan(),
        b.finite() && c.finite() ==> !b.times(c).nan(),
        !a.times(c).nan() ==> a.times(c).value() >= 0,
        !a.times(c).nan() && !b.times(c).nan() ==> a.times(c).value() <= b.times(c).value(),
{
    let one = one_in_units();
    lemma_pow2_pos(SCALE as nat);
    lemma_zero_has_no_units(a.magnitude());
    lemma_zero_has_no_units(c.magnitude());
    lemma_units_order(b.magnitude(), a.magnitude());
    if a.finite() && c.finite() {
        product_rounds_exact_product(a, c);
        numbers_lie_between_infinities(a.times(c));
    }
    if b.finite() && c.finite() {
        product_rounds_exact_product(b, c);
        if a.finite() {
            let x = a.value() * c.value();
            let y = b.value() * c.value();
            assert(x <= y) by (nonlinear_arith)
                requires
                    x == a.value() * c.value(),
                    y == b.value() * c.value(),
                    a.value() <= b.value(),
                    c.value() >= 0,
            ;
            assert(x * one <= y * one) by (nonlinear_arith)
                requires
                    x <= y,
            ;
            nearest_keeps_order(x as nat, one, y as nat, one);
        }
    }
}

/// Multiplication does not depend on the order of what is multiplied.
pub proof fn times_commutes(a: Binary64, b: Binary64)
    ensures
        a.times(b) == b.times(a),
{
    let ua = units(a.magnitude());
    let ub = units(b.magnitude());
    assert(ua * ub == ub * ua) by (nonlinear_arith);
}

/// Multiplying by one changes no number.
pub proof fn times_one_is_the_same(a: Binary64)
    requires
        !a.nan(),
    ensures
        a.times(Binary64::of_whole(1)) == a,
{
    let one = one_in_units();
    lemma_pow2_pos(SCALE as nat);
    lemma_whole_is_exact(1);
    if a.finite() {
        let u = units(a.magnitude());
        assert(u * (1 * one) == u * one);
        lemma_exact_rounds_to_itself(u * one, one, a.magnitude());
    }
}

/// Zero times a finite number is zero.
pub proof fn times_zero_is_zero(z: Binary64, a: Binary64)
    requires
        z.zero(),
        a.finite(),
    ensures
        z.times(a).zero(),
{
    lemma_pow2_pos(SCALE as nat);
    lemma_zero_has_no_units(0);
    assert(units(0) * units(a.magnitude()) == 0) by (nonlinear_arith)
        requires
            units(0) == 0,
    ;
    assert(units(0) * one_in_units() == 0) by (nonlinear_arith)
        requires
            units(0) == 0,
    ;
    lemma_exact_rounds_to_itself(0, one_in_units(), 0);
}

/// The value that a quotient of units rounds to.
pub open spec fn rounded_quotient(num: int, den: nat) -> int {
    if num >= 0 {
        units(nearest((num * one_in_units()) as nat, den)) as int
    } else {
        -(units(nearest((-num * one_in_units()) as nat, den)) as int)
    }
}

/// A finite number over a positive finite one has the value that the exact
/// quotient rounds to.
pub proof fn quotient_rounds_exact_quotient(a: Binary64, b: Binary64)
    requires
        a.finite(),
        b.finite(),
        b.value() > 0,
    ensures
        !a.over(b).nan(),
        a.over(b).value() == rounded_quotient(a.value(), b.value() as nat),
{
    let ua = units(a.magnitude());
    let one = one_in_units();
    lemma_pow2_pos(SCALE as nat);
    lemma_zero_has_no_units(a.magnitude());
    lemma_zero_has_no_units(b.magnitude());
    lemma_rounds_somewhere(ua * one, units(b.magnitude()));
    if a.negative() && a.value() == 0 {
        assert(0 * one == 0 && units(0) * units(b.magnitude()) == 0) by (nonlinear_arith)
            requires
                units(0) == 0,
        ;
        lemma_exact_rounds_to_itself(0, units(b.magnitude()), 0);
    }
    if a.value() < 0 {
        assert(-a.value() == ua);
    }
}

/// Dividing by the same number keeps order where its sign is not negative and
/// both quotients are numbers. By a finite number above zero they always are.
pub proof fn over_keeps_order(a: Binary64, b: Binary64, c: Binary64)
    requires
        !a.nan(),
        !b.nan(),
        !c.nan(),
        !c.negative(),
        a.value() <= b.value(),
    ensures
        c.finite() && c.value() > 0 ==> !a.over(c).nan() && !b.over(c).nan(),
        !a.over(c).nan() && !b.over(c).nan() ==> a.over(c).value() <= b.over(c).value(),
{
    lemma_zero_has_no_units(b.magnitude());
    lemma_zero_has_no_units(c.magnitude());
    let one = one_in_units();
    let d = c.value() as nat;
    lemma_units_order(a.magnitude(), INFINITE as nat);
    lemma_units_order(b.magnitude(), INFINITE as nat);
    let proper = c.finite() && c.value() > 0;
    if a.finite() && proper {
        quotient_rounds_exact_quotient(a, c);
        numbers_lie_between_infinities(a.over(c));
    }
    if b.finite() && proper {
        quotient_rounds_exact_quotient(b, c);
        numbers_lie_between_infinities(b.over(c));
    }
    if a.finite() && b.finite() && proper {
        let x = a.value();
        let y = b.value();
        if x >= 0 {
            assert(0 <= x * one && (x * one) * d <= (y * one) * d) by (nonlinear_arith)
                requires
                    0 <= x <= y,
            ;
            assert(0 <= y * one) by (nonlinear_arith)
                requires
                    0 <= y,
            ;
            nearest_keeps_order((x * one) as nat, d, (y * one) as nat, d);
        } else if y < 0 {
            assert(0 <= -y * one && (-y * one) * d <= (-x * one) * d) by (nonlinear_arith)
                requires
                    x <= y < 0,
            ;
            assert(0 <= -x * one) by (nonlinear_arith)
                requires
                    x < 0,
            ;
            nearest_keeps_order((-y * one) as nat, d, (-x * one) as nat, d);
        }
    }
}

/// Dividing by one changes no number.
pub proof fn over_one_is_the_same(a: Binary64)
    requires
        !a.nan(),
    ensures
        a.over(Binary64::of_whole(1)) == a,
{
    let one = one_in_units();
    lemma_pow2_pos(SCALE as nat);
    lemma_whole_is_exact(1);
    if a.finite() {
        let u = units(a.magnitude());
        lemma_exact_rounds_to_itself(u * one, 1 * one, a.magnitude());
    }
}

/// A finite number other than zero over itself is one.
pub proof fn over_itself_is_one(a: Binary64)
    requires
        a.finite(),
        !a.zero(),
    ensures
        a.over(a) == Binary64::of_whole(1),
{
    let u = units(a.magnitude());
    let one = one_in_units();
    lemma_zero_has_no_units(a.magnitude());
    assert((u * one) * 1 == (1 * one) * u) by (nonlinear_arith);
    lemma_nearest_of_ratio(u * one, u, 1 * one, 1);
}

/// Zero over a finite number other than zero is zero.
pub proof fn zero_over_is_zero(z: Binary64, a: Binary64)
    requires
        z.zero(),
        a.finite(),
        !a.zero(),
    ensures
        z.over(a).zero(),
{
    let u = units(a.magnitude());
    lemma_zero_has_no_units(a.magnitude());
    assert(units(0) * one_in_units() == 0) by (nonlinear_arith)
        requires
            units(0) == 0,
    ;
    assert(units(0) * u == 0) by (nonlinear_arith)
        requires
            units(0) == 0,
    ;
    lemma_exact_rounds_to_itself(0, u, 0);
}

} // verus!
