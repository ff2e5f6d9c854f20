//! Places in a range, from zero at its low end to one at its high end.

use crate::binary64::accuracy::{
    nearest_is_accurate, over_rounds_exact_quotient, rounded_product, rounded_ratio,
    rounded_units_are_accurate, special_products, special_quotients, special_sums,
    times_rounds_exact_product,
};
use crate::binary64::arithmetic::lemma_whole_is_exact;
use crate::binary64::laws::{
    difference_has_exact_sign, minus_keeps_order, nearest_keeps_order,
    numbers_lie_between_infinities, opposite_flips_value, over_itself_is_one, over_keeps_order,
    over_one_is_the_same, plus_keeps_order, plus_zero_is_the_same_number, rounded_units,
    rounded_units_keep_order, sum_rounds_exact_sum, times_keeps_order, times_one_is_the_same,
    times_zero_is_zero, zero_over_is_zero,
};
use crate::binary64::model::{
    lemma_exact_rounds_to_itself, lemma_units_order, nearest, one_in_units, units, INFINITE, SCALE,
};
use crate::binary64::order::lemma_zero_has_no_units;
use crate::binary64::Binary64;
use crate::config::RangeConfig;
use vstd::arithmetic::power2::*;
use vstd::math::abs;
use vstd::prelude::*;

verus! {

/// A number held between zero and one.
pub open spec fn held_to_unit(x: Binary64) -> Binary64 {
    x.held_within(Binary64::of_whole(0), Binary64::of_whole(1))
}

/// Holds a number between zero and one.
pub fn hold_to_unit(x: Binary64) -> (r: Binary64)
    ensures
        r == held_to_unit(x),
{
    proof {
        lemma_whole_is_exact(0);
        lemma_whole_is_exact(1);
    }
    x.clamped(Binary64::from_whole(0), Binary64::from_whole(1))
}

impl RangeConfig {
    /// How wide the range is.
    pub open spec fn width(self) -> Binary64 {
        self.hi.minus(self.lo)
    }

    /// Where a number lies in the range; one past an end lies at that end.
    pub open spec fn place_of(self, x: Binary64) -> Binary64 {
        held_to_unit(x.minus(self.lo).over(self.width()))
    }

    /// The number at a place in the range.
    pub open spec fn at_place(self, place: Binary64) -> Binary64 {
        place.times(self.width()).plus(self.lo)
    }

    /// The range has finite ends, the low one below the high one, and a finite
    /// width.
    pub open spec fn proper(self) -> bool {
        &&& self.lo.finite()
        &&& self.hi.finite()
        &&& self.lo.value() < self.hi.value()
        &&& self.width().finite()
    }

    /// Where a number lies in the range; one past an end lies at that end.
    pub fn find_place(&self, x: Binary64) -> (r: Binary64)
        ensures
            r == self.place_of(x),
            ({
                let width = rounded_units(self.hi.value() - self.lo.value());
                x.finite() && self.lo.finite() && self.hi.finite() && 0 < abs(width) < units(
                    INFINITE as nat,
                ) ==> !r.nan() && r.value() == held_units(
                    rounded_ratio(rounded_units(x.value() - self.lo.value()), width),
                )
            }),
    {
        proof {
            let width = rounded_units(self.hi.value() - self.lo.value());
            if x.finite() && self.lo.finite() && self.hi.finite() && 0 < abs(width) < units(
                INFINITE as nat,
            ) {
                places_are_quotients(*self, x);
            }
        }
        hold_to_unit(x.difference(self.lo).quotient(self.hi.difference(self.lo)))
    }

    /// The number at a place in the range.
    pub fn number_at(&self, place: Binary64) -> (r: Binary64)
        ensures
            r == self.at_place(place),
            ({
                let width = rounded_units(self.hi.value() - self.lo.value());
                let part = rounded_product(place.value(), width);
                place.finite() && self.lo.finite() && self.hi.finite() && abs(width) < units(
                    INFINITE as nat,
                ) && abs(part) < units(INFINITE as nat) ==> !r.nan() && r.value()
                    == rounded_units(part + self.lo.value())
            }),
    {
        proof {
            let width = rounded_units(self.hi.value() - self.lo.value());
            let part = rounded_product(place.value(), width);
            if place.finite() && self.lo.finite() && self.hi.finite() && abs(width) < units(
                INFINITE as nat,
            ) && abs(part) < units(INFINITE as nat) {
                numbers_are_sums(*self, place);
            }
        }
        place.product(self.hi.difference(self.lo)).sum(self.lo)
    }
}

/// The width of a proper range is above zero.
pub proof fn proper_ranges_are_wide(range: RangeConfig)
    requires
        range.proper(),
    ensures
        range.width().value() > 0,
        !range.width().negative(),
{
    difference_has_exact_sign(range.hi, range.lo);
}

/// A place lies from zero to one where it is a number, and in a proper range it
/// is one for every number.
pub proof fn places_lie_in_unit(range: RangeConfig, x: Binary64)
    ensures
        range.proper() && !x.nan() ==> !range.place_of(x).nan(),
        !range.place_of(x).nan() ==> range.place_of(x).finite() && 0 <= range.place_of(x).value()
            <= one_in_units(),
{
    let p = range.place_of(x);
    lemma_whole_is_exact(0);
    lemma_whole_is_exact(1);
    if range.proper() && !x.nan() {
        proper_ranges_are_wide(range);
        places_keep_order(range, x, x);
    }
    lemma_units_order(Binary64::of_whole(1).magnitude(), p.magnitude());
}

/// A greater number has no lesser place, where both places are numbers and the
/// range is not turned round, so that its width has no negative sign. In a proper
/// range they are numbers.
pub proof fn places_keep_order(range: RangeConfig, x: Binary64, y: Binary64)
    requires
        !range.width().negative(),
        !x.nan(),
        !y.nan(),
        x.value() <= y.value(),
    ensures
        range.proper() ==> !range.place_of(x).nan() && !range.place_of(y).nan(),
        !range.place_of(x).nan() && !range.place_of(y).nan() ==> 0 <= range.place_of(x).value()
            <= range.place_of(y).value() <= one_in_units(),
{
    lemma_whole_is_exact(0);
    lemma_whole_is_exact(1);
    if range.proper() {
        proper_ranges_are_wide(range);
    }
    if !range.lo.nan() && !range.width().nan() {
        minus_keeps_order(x, y, range.lo);
        if !x.minus(range.lo).nan() && !y.minus(range.lo).nan() {
            over_keeps_order(x.minus(range.lo), y.minus(range.lo), range.width());
        }
    }
}

/// The ends of a range that is not turned round lie at zero and at one, and so
/// does what is past them, where their places are numbers.
pub proof fn ends_lie_at_zero_and_one(range: RangeConfig, x: Binary64)
    requires
        !range.width().negative(),
        !range.place_of(x).nan(),
    ensures
        x.value() <= range.lo.value() ==> range.place_of(x).value() == 0,
        x.value() >= range.hi.value() ==> range.place_of(x).value() == one_in_units(),
{
    let w = range.width();
    let d = x.minus(range.lo);
    lemma_whole_is_exact(0);
    lemma_whole_is_exact(1);
    lemma_zero_has_no_units(d.magnitude());
    lemma_zero_has_no_units(w.magnitude());
    if x.value() <= range.lo.value() {
        let z = range.lo.minus(range.lo);
        minus_keeps_order(x, range.lo, range.lo);
        if w.finite() && w.value() > 0 {
            zero_over_is_zero(z, w);
            over_keeps_order(d, z, w);
        }
    }
    if x.value() >= range.hi.value() {
        minus_keeps_order(range.hi, x, range.lo);
        lemma_units_order(w.magnitude(), d.magnitude());
        lemma_units_order(Binary64::of_whole(1).magnitude(), INFINITE as nat);
        if w.finite() && w.value() > 0 {
            over_itself_is_one(w);
            over_keeps_order(w, d, w);
        }
    }
}

/// In a range that is turned round, every number up to its high end lies at one,
/// where its place is a number.
pub proof fn turned_ranges_have_one_place(range: RangeConfig, x: Binary64)
    requires
        range.width().negative(),
        !range.place_of(x).nan(),
        x.value() <= range.hi.value(),
    ensures
        range.place_of(x) == Binary64::of_whole(1),
{
    let w = range.width();
    let d = x.minus(range.lo);
    let one = Binary64::of_whole(1);
    lemma_whole_is_exact(0);
    lemma_whole_is_exact(1);
    minus_keeps_order(x, range.hi, range.lo);
    lemma_units_order(d.magnitude(), w.magnitude());
    if w.finite() && !w.zero() {
        over_itself_is_one(w.opposite());
        over_keeps_order(w.opposite(), d.opposite(), w.opposite());
    }
    let q = d.over(w);
    lemma_units_order(one.magnitude(), q.magnitude());
}

/// In a range whose width is not below zero, a greater place has no lesser
/// number, where both are numbers. In a finite range they are.
pub proof fn numbers_keep_order(range: RangeConfig, p: Binary64, q: Binary64)
    requires
        !range.width().nan(),
        range.width().value() >= 0,
        !p.nan(),
        !q.nan(),
        0 <= p.value() <= q.value(),
    ensures
        range.lo.finite() && range.width().finite() && p.finite() && q.finite()
            ==> !range.at_place(p).nan() && !range.at_place(q).nan(),
        !range.at_place(p).nan() && !range.at_place(q).nan() ==> range.at_place(p).value()
            <= range.at_place(q).value(),
{
    let a = p.times(range.width());
    let b = q.times(range.width());
    times_keeps_order(p, q, range.width());
    if !a.nan() && !b.nan() && !range.lo.nan() {
        plus_keeps_order(a, b, range.lo);
    }
}

/// The low end of a range of finite width is the number at place zero. The
/// number at place one is the width added to the low end.
pub proof fn places_zero_and_one_are_the_ends(range: RangeConfig)
    requires
        range.width().finite(),
    ensures
        range.at_place(Binary64::of_whole(0)).equals(range.lo),
        range.at_place(Binary64::of_whole(1)) == range.width().plus(range.lo),
{
    let z = Binary64::of_whole(0);
    let w = range.width();
    lemma_whole_is_exact(0);
    times_zero_is_zero(z, w);
    plus_zero_is_the_same_number(range.lo, z.times(w));
    times_one_is_the_same(w);
}

/// The width of the range from zero to one is one.
pub proof fn unit_range_is_one_wide()
    ensures
        RangeConfig::unit().width() == Binary64::of_whole(1),
        RangeConfig::unit().proper(),
{
    let z = Binary64::of_whole(0);
    let one = Binary64::of_whole(1);
    let w = RangeConfig::unit().width();
    lemma_whole_is_exact(0);
    lemma_whole_is_exact(1);
    opposite_flips_value(z);
    plus_zero_is_the_same_number(one, z.opposite());
    lemma_zero_has_no_units(w.magnitude());
    lemma_units_order(w.magnitude(), one.magnitude());
}

/// The range from zero to one leaves the numbers in it where they are, both
/// ways.
pub proof fn unit_range_changes_nothing(x: Binary64)
    requires
        !x.nan(),
        0 <= x.value() <= one_in_units(),
    ensures
        RangeConfig::unit().place_of(x).equals(x),
        RangeConfig::unit().at_place(x).equals(x),
{
    let z = Binary64::of_whole(0);
    unit_range_is_one_wide();
    lemma_whole_is_exact(0);
    lemma_whole_is_exact(1);
    opposite_flips_value(z);
    plus_zero_is_the_same_number(x, z.opposite());
    over_one_is_the_same(x.minus(z));
    times_one_is_the_same(x);
    plus_zero_is_the_same_number(x, z);
}

/// A whole number of units, held between zero and one.
pub open spec fn held_units(x: int) -> int {
    if x < 0 {
        0
    } else if x > one_in_units() {
        one_in_units() as int
    } else {
        x
    }
}

/// What is held between zero and one is the same number there, and else the end
/// that it is past. What is not a number stays none.
pub proof fn holding_keeps_what_lies_in_unit(x: Binary64)
    ensures
        held_to_unit(x).nan() == x.nan(),
        !x.nan() ==> 0 <= held_to_unit(x).value() <= one_in_units(),
        !x.nan() && 0 <= x.value() <= one_in_units() ==> held_to_unit(x) == x,
        !x.nan() && x.value() < 0 ==> held_to_unit(x).value() == 0,
        !x.nan() && x.value() > one_in_units() ==> held_to_unit(x).value() == one_in_units(),
{
    lemma_whole_is_exact(0);
    lemma_whole_is_exact(1);
}

/// A quotient of something by something no greater is at least one.
proof fn lemma_ratio_from_one_on(x: int, y: int)
    requires
        y != 0,
        abs(x) >= abs(y),
    ensures
        abs(rounded_ratio(x, y)) >= one_in_units(),
{
    let one = one_in_units();
    let n = abs(x) * one;
    let d = abs(y);
    let top = Binary64::of_whole(1).magnitude();
    lemma_whole_is_exact(1);
    lemma_exact_rounds_to_itself(one * d, d, top);
    assert((one * d) * d <= n * d) by (nonlinear_arith)
        requires
            n == abs(x) * one,
            d <= abs(x),
    ;
    nearest_keeps_order(one * d, d, n, d);
}

/// The place of a finite number in a range of finite width is the quotient of
/// its distance from the low end and the width, each rounded, held between zero
/// and one.
pub proof fn places_are_quotients(range: RangeConfig, x: Binary64)
    requires
        x.finite(),
        range.lo.finite(),
        range.hi.finite(),
        rounded_units(range.hi.value() - range.lo.value()) != 0,
        abs(rounded_units(range.hi.value() - range.lo.value())) < units(INFINITE as nat),
    ensures
        !range.place_of(x).nan(),
        range.place_of(x).value() == held_units(
            rounded_ratio(
                rounded_units(x.value() - range.lo.value()),
                rounded_units(range.hi.value() - range.lo.value()),
            ),
        ),
{
    let w = range.width();
    let d = x.minus(range.lo);
    let q = d.over(w);
    opposite_flips_value(range.lo);
    sum_rounds_exact_sum(x, range.lo.opposite());
    sum_rounds_exact_sum(range.hi, range.lo.opposite());
    lemma_units_order(w.magnitude(), INFINITE as nat);
    lemma_zero_has_no_units(w.magnitude());
    lemma_zero_has_no_units(d.magnitude());
    lemma_zero_has_no_units(INFINITE as nat);
    lemma_whole_is_exact(1);
    holding_keeps_what_lies_in_unit(q);
    if d.finite() {
        over_rounds_exact_quotient(d, w);
    } else {
        lemma_ratio_from_one_on(d.value(), w.value());
        lemma_units_order(Binary64::of_whole(1).magnitude(), INFINITE as nat);
    }
}

/// Places in ranges that are not proper. Where anything is not a number, the
/// place is none. In a range of no width there is none where the ends are, one
/// above them and zero below. In an infinite range all that is finitely far from
/// the low end is at zero. From an infinite low end there are no places. An
/// infinity lies at an end of a range of finite width.
pub proof fn places_in_improper_ranges(range: RangeConfig, x: Binary64)
    ensures
        x.nan() || range.lo.nan() || range.hi.nan() ==> range.place_of(x).nan(),
        x.finite() && range.lo.finite() && range.hi.finite() && range.lo.value()
            == range.hi.value() ==> {
            &&& range.place_of(x).nan() <==> x.value() == range.lo.value()
            &&& x.value() > range.lo.value() && !range.width().negative() ==> range.place_of(
                x,
            ).value() == one_in_units()
            &&& x.value() < range.lo.value() && !range.width().negative() ==> range.place_of(
                x,
            ).value() == 0
        },
        x.finite() && range.lo.finite() && !range.hi.nan() && (range.hi.infinite() || abs(
            rounded_units(range.hi.value() - range.lo.value()),
        ) >= units(INFINITE as nat)) ==> {
            let far = abs(rounded_units(x.value() - range.lo.value())) >= units(INFINITE as nat);
            &&& range.place_of(x).nan() <==> far
            &&& !far ==> range.place_of(x).value() == 0
        },
        range.lo.infinite() ==> range.place_of(x).nan(),
        x.infinite() && range.lo.finite() && range.width().infinite() ==> range.place_of(x).nan(),
        x.infinite() && range.lo.finite() && range.width().finite() ==> !range.place_of(x).nan()
            && range.place_of(x).value() == if x.negative() == range.width().negative() {
            one_in_units() as int
        } else {
            0
        },
{
    let w = range.width();
    let d = x.minus(range.lo);
    let q = d.over(w);
    opposite_flips_value(range.lo);
    special_sums(x, range.lo.opposite());
    special_sums(range.hi, range.lo.opposite());
    special_quotients(d, w);
    holding_keeps_what_lies_in_unit(q);
    lemma_zero_has_no_units(0);
    lemma_zero_has_no_units(d.magnitude());
    lemma_zero_has_no_units(w.magnitude());
    lemma_zero_has_no_units(INFINITE as nat);
    if x.finite() && range.lo.finite() {
        sum_rounds_exact_sum(x, range.lo.opposite());
        difference_has_exact_sign(x, range.lo);
        numbers_lie_between_infinities(d);
        lemma_units_order(d.magnitude(), INFINITE as nat);
        if range.hi.finite() {
            sum_rounds_exact_sum(range.hi, range.lo.opposite());
            difference_has_exact_sign(range.hi, range.lo);
            numbers_lie_between_infinities(w);
            lemma_units_order(w.magnitude(), INFINITE as nat);
        }
    }
    lemma_whole_is_exact(1);
    lemma_units_order(Binary64::of_whole(1).magnitude(), INFINITE as nat);
}

/// Numbers at places in ranges that are not finite. Where anything is not a
/// number, or the low end is infinite, there is none. In a range of infinite
/// width the number at zero is none, and at any place beyond it the width is all
/// there is.
pub proof fn numbers_in_improper_ranges(range: RangeConfig, place: Binary64)
    requires
        place.nan() || place.value() >= 0,
    ensures
        place.nan() || range.lo.nan() || range.hi.nan() ==> range.at_place(place).nan(),
        range.lo.infinite() ==> range.at_place(place).nan(),
        range.lo.finite() && range.width().infinite() && place.zero() ==> range.at_place(
            place,
        ).nan(),
        range.lo.finite() && range.width().infinite() && !place.nan() && !place.zero()
            ==> range.at_place(place) == range.width(),
{
    let w = range.width();
    let part = place.times(w);
    opposite_flips_value(range.lo);
    special_sums(range.hi, range.lo.opposite());
    special_products(place, w);
    special_products(w, place);
    special_sums(part, range.lo);
    lemma_zero_has_no_units(place.magnitude());
}

/// In a proper range the place of a number in it, times the width, is the
/// distance from the low end, up to a part of `2^-50` of the width.
pub proof fn places_scale_with_the_width(range: RangeConfig, x: Binary64)
    requires
        range.proper(),
        x.finite(),
        range.lo.value() <= x.value() <= range.hi.value(),
    ensures
        ({
            let width = range.hi.value() - range.lo.value();
            let along = x.value() - range.lo.value();
            0x4_0000_0000_0000 * abs(
                range.place_of(x).value() * width - along * one_in_units(),
            ) <= width * one_in_units()
        }),
{
    let one = one_in_units();
    let width = range.hi.value() - range.lo.value();
    let along = x.value() - range.lo.value();
    let w = rounded_units(width);
    let d = rounded_units(along);
    let p = range.place_of(x).value();
    lemma_pow2_pos(SCALE as nat);
    proper_ranges_are_wide(range);
    opposite_flips_value(range.lo);
    sum_rounds_exact_sum(range.hi, range.lo.opposite());
    lemma_units_order(range.width().magnitude(), INFINITE as nat);
    numbers_lie_between_infinities(range.width());
    places_are_quotients(range, x);
    rounded_units_keep_order(along, width);
    rounded_units_keep_order(0, along);
    lemma_zero_has_no_units(0);
    lemma_exact_rounds_to_itself(0, 1, 0);
    lemma_width_within_finite(range);
    rounded_units_are_accurate(width);
    rounded_units_are_accurate(along);
    let num = (d * one) as nat;
    assert(0 <= d * one <= one * w) by (nonlinear_arith)
        requires
            0 <= d <= w,
            one > 0,
    ;
    let q = units(nearest(num, w as nat)) as int;
    assert(num * (w as nat) <= (one * w) * w) by (nonlinear_arith)
        requires
            num <= one * w,
            w > 0,
    ;
    lemma_whole_is_exact(1);
    lemma_exact_rounds_to_itself((one * w) as nat, w as nat, Binary64::of_whole(1).magnitude());
    nearest_keeps_order(num, w as nat, (one * w) as nat, w as nat);
    assert(p == q);
    lemma_units_order(Binary64::of_whole(1).magnitude(), INFINITE as nat);
    assert(num <= units(INFINITE as nat) * (w as nat)) by (nonlinear_arith)
        requires
            num <= one * w,
            one <= units(INFINITE as nat),
            w > 0,
    ;
    nearest_is_accurate(num, w as nat);
    lemma2_to64_rest();
    lemma_pow2_strictly_increases(53, SCALE as nat);
    lemma_place_errors(p, w, d, width, along, one as int);
}

/// The exact width of a range of finite width is within the finite numbers.
proof fn lemma_width_within_finite(range: RangeConfig)
    requires
        range.proper(),
    ensures
        0 < range.hi.value() - range.lo.value() <= units(INFINITE as nat),
{
    let top = units(INFINITE as nat) as int;
    let width = range.hi.value() - range.lo.value();
    opposite_flips_value(range.lo);
    sum_rounds_exact_sum(range.hi, range.lo.opposite());
    lemma_units_order(range.width().magnitude(), INFINITE as nat);
    if width > top {
        lemma_exact_rounds_to_itself(units(INFINITE as nat), 1, INFINITE as nat);
        nearest_keeps_order(top as nat, 1, width as nat, 1);
        numbers_lie_between_infinities(range.width());
    }
}

proof fn lemma_place_errors(p: int, w: int, d: int, width: int, along: int, one: int)
    requires
        0 <= p <= one,
        0 < w,
        0 <= d <= w,
        0 <= along <= width,
        one >= 0x20_0000_0000_0000,
        0x20_0000_0000_0000 * abs(w - width) <= width,
        0x20_0000_0000_0000 * abs(d - along) <= along,
        0x20_0000_0000_0000 * abs(p * w - d * one) <= d * one + 0x10_0000_0000_0000 * w,
    ensures
        0x4_0000_0000_0000 * abs(p * width - along * one) <= width * one,
{
    let z = width * one;
    // The place by the error of the width.
    let e1 = p * width - p * w;
    assert(0x20_0000_0000_0000 * e1 <= z && -(0x20_0000_0000_0000 * e1) <= z) by (nonlinear_arith)
        requires
            e1 == p * width - p * w,
            z == width * one,
            0 <= p <= one,
            0x20_0000_0000_0000 * (width - w) <= width,
            0x20_0000_0000_0000 * (w - width) <= width,
            width >= 0,
    ;
    // The error of the distance.
    let e3 = d * one - along * one;
    assert(0x20_0000_0000_0000 * e3 <= z && -(0x20_0000_0000_0000 * e3) <= z) by (nonlinear_arith)
        requires
            e3 == d * one - along * one,
            z == width * one,
            0x20_0000_0000_0000 * (d - along) <= along,
            0x20_0000_0000_0000 * (along - d) <= along,
            0 <= along <= width,
            one > 0,
    ;
    // The error of the quotient.
    let e2 = p * w - d * one;
    assert(w <= 2 * width) by (nonlinear_arith)
        requires
            0x20_0000_0000_0000 * (w - width) <= width,
            width >= 0,
    ;
    assert(d * one + 0x10_0000_0000_0000 * w <= 4 * z) by (nonlinear_arith)
        requires
            0 <= d <= w,
            w <= 2 * width,
            z == width * one,
            one >= 0x20_0000_0000_0000,
    ;
    assert(p * width - along * one == e1 + e2 + e3);
}

/// The number at a place is the low end and the part of the width that the place
/// makes, each rounded.
pub proof fn numbers_are_sums(range: RangeConfig, place: Binary64)
    requires
        place.finite(),
        range.lo.finite(),
        range.hi.finite(),
        abs(rounded_units(range.hi.value() - range.lo.value())) < units(INFINITE as nat),
        abs(
            rounded_product(
                place.value(),
                rounded_units(range.hi.value() - range.lo.value()),
            ),
        ) < units(INFINITE as nat),
    ensures
        !range.at_place(place).nan(),
        range.at_place(place).value() == rounded_units(
            rounded_product(place.value(), rounded_units(range.hi.value() - range.lo.value()))
                + range.lo.value(),
        ),
{
    let w = range.width();
    let part = place.times(w);
    opposite_flips_value(range.lo);
    sum_rounds_exact_sum(range.hi, range.lo.opposite());
    lemma_units_order(w.magnitude(), INFINITE as nat);
    times_rounds_exact_product(place, w);
    lemma_units_order(part.magnitude(), INFINITE as nat);
    sum_rounds_exact_sum(part, range.lo);
}

} // verus!
