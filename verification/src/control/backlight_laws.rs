//! What holds of every backlight, whatever position it is driven to.

use super::linux_backlight::{BacklightMap, Drive};
use crate::binary64::arithmetic::{
    lemma_nearest_of_ratio, lemma_whole_has_magnitude, lemma_whole_is_exact,
};
use crate::binary64::laws::{
    exact_units_round_to_themselves, nearest_keeps_order, numbers_lie_between_infinities,
    over_itself_is_one, over_keeps_order, sum_rounds_exact_sum, times_commutes, times_keeps_order,
    times_one_is_the_same, times_zero_is_zero, zero_over_is_zero,
};
use crate::binary64::model::{
    exponent_of, lemma_exact_rounds_to_itself, lemma_rounds_somewhere, lemma_units_of_parts,
    lemma_units_order, lemma_units_step, nearest, one_in_units, units, HIDDEN, INFINITE, SCALE,
};
use crate::binary64::order::lemma_zero_has_no_units;
use crate::binary64::Binary64;
use crate::config::{MaxBehavior, RangeConfig};
use crate::range::{
    numbers_keep_order, places_keep_order, places_lie_in_unit, places_zero_and_one_are_the_ends,
    proper_ranges_are_wide, turned_ranges_have_one_place, unit_range_changes_nothing,
};
use vstd::arithmetic::power2::*;
use vstd::math::abs;
use vstd::prelude::*;

verus! {

/// A backlight is switched off for a position above the input range where that
/// is the behaviour asked for, and for no other.
pub proof fn off_only_above_input(map: BacklightMap, position: Binary64)
    ensures
        map.drives(position) is Off <==> map.input.hi.less(position)
            && map.max_behavior == MaxBehavior::Off,
{
}

/// A backlight that saturates answers to any position above the input range as
/// it does to the end of the range.
pub proof fn saturates_above_input(map: BacklightMap, position: Binary64)
    requires
        map.max_behavior == MaxBehavior::Saturate,
        map.input.hi.less(position),
    ensures
        map.drives(position) == map.drives(map.input.hi),
{
}

/// A greater position is answered by no lesser level, where both levels are
/// numbers and the output range is not turned round, or the input range is: every
/// position then has the same level. The levels are numbers where the input range
/// is proper and the output range is finite.
pub proof fn greater_positions_are_no_darker(map: BacklightMap, x: Binary64, y: Binary64)
    requires
        map.output.width().value() >= 0 || map.input.width().negative(),
        !x.nan(),
        !y.nan(),
        x.value() <= y.value(),
        map.drives(y) is Level,
    ensures
        map.drives(x) is Level,
        map.input.proper() && map.output.lo.finite() && map.output.width().finite()
            ==> !map.drives(x)->Level_0.nan() && !map.drives(y)->Level_0.nan(),
        !map.drives(x)->Level_0.nan() && !map.drives(y)->Level_0.nan()
            ==> map.drives(x)->Level_0.value() <= map.drives(y)->Level_0.value(),
{
    let hi = map.input.hi;
    let a = if hi.less(x) {
        hi
    } else {
        x
    };
    let b = if hi.less(y) {
        hi
    } else {
        y
    };
    let p = map.input.place_of(a);
    let q = map.input.place_of(b);
    places_lie_in_unit(map.input, a);
    places_lie_in_unit(map.input, b);
    if map.input.proper() {
        proper_ranges_are_wide(map.input);
    }
    if !p.nan() && !q.nan() {
        if map.input.width().negative() {
            turned_ranges_have_one_place(map.input, a);
            turned_ranges_have_one_place(map.input, b);
        } else {
            places_keep_order(map.input, a, b);
        }
        if map.output.width().value() >= 0 && !map.output.width().nan() {
            numbers_keep_order(map.output, p, q);
        }
    }
}

/// A level that is a number lies from the low end of the output range up to what
/// the width of the range, as rounded, adds to it, where the range is not turned
/// round. Where the width is exact, that is the high end.
pub proof fn levels_lie_in_output(map: BacklightMap, position: Binary64)
    requires
        map.output.width().value() >= 0,
        map.drives(position) is Level,
    ensures
        map.input.proper() && map.output.lo.finite() && map.output.width().finite()
            && !position.nan() ==> !map.drives(position)->Level_0.nan(),
        !map.drives(position)->Level_0.nan() ==> map.output.lo.value() <= map.drives(
            position,
        )->Level_0.value() <= map.output.width().plus(map.output.lo).value(),
        map.output.width().finite() && map.output.width().value() == map.output.hi.value()
            - map.output.lo.value() ==> map.output.width().plus(map.output.lo).equals(
            map.output.hi,
        ),
{
    let hi = map.input.hi;
    let at = if hi.less(position) {
        hi
    } else {
        position
    };
    let place = map.input.place_of(at);
    let w = map.output.width();
    let lo = map.output.lo;
    let z = Binary64::of_whole(0);
    let one = Binary64::of_whole(1);
    lemma_whole_is_exact(0);
    lemma_whole_is_exact(1);
    places_lie_in_unit(map.input, at);
    if w.finite() {
        places_zero_and_one_are_the_ends(map.output);
        if !place.nan() {
            numbers_keep_order(map.output, z, place);
            numbers_keep_order(map.output, place, one);
        }
        sum_rounds_exact_sum(w, lo);
        exact_units_round_to_themselves(map.output.hi);
    } else if !map.drives(position)->Level_0.nan() {
        // Some of an infinite width is all of it.
        numbers_lie_between_infinities(lo);
        lemma_zero_has_no_units(place.magnitude());
    }
}

/// With no ranges set, a position from zero to one is the level itself.
pub proof fn unset_ranges_change_nothing(map: BacklightMap, position: Binary64)
    requires
        map.input == RangeConfig::unit(),
        map.output == RangeConfig::unit(),
        !position.nan(),
        0 <= position.value() <= one_in_units(),
    ensures
        map.drives(position) matches Drive::Level(level) && level.equals(position),
{
    lemma_whole_is_exact(1);
    unit_range_changes_nothing(position);
    unit_range_changes_nothing(RangeConfig::unit().place_of(position));
}

/// The whole number nearest to a whole number is that number.
proof fn lemma_whole_is_nearest(n: u32)
    ensures
        Binary64::of_whole(n as nat).nearest_u32() == n,
{
    let one = one_in_units();
    lemma_pow2_pos(SCALE as nat);
    lemma_whole_is_exact(n as nat);
    let u = n as nat * one;
    assert((2 * u + one) / (2 * one) == n) by (nonlinear_arith)
        requires
            u == n * one,
            one > 0,
    ;
}

/// Full level is full brightness, and no level is none.
pub proof fn full_level_is_full_brightness(map: BacklightMap)
    ensures
        map.raw(Binary64::of_whole(1)) == map.max,
        map.raw(Binary64::of_whole(0)) == 0,
{
    let m = Binary64::of_whole(map.max as nat);
    let z = Binary64::of_whole(0);
    lemma_whole_is_exact(0);
    lemma_whole_is_exact(map.max as nat);
    times_commutes(Binary64::of_whole(1), m);
    times_one_is_the_same(m);
    lemma_whole_is_nearest(map.max);
    times_zero_is_zero(z, m);
    lemma_zero_has_no_units(0);
    lemma_pow2_pos(SCALE as nat);
    let one = one_in_units();
    assert((2 * 0 + one) / (2 * one) == 0) by (nonlinear_arith)
        requires
            one > 0,
    ;
}

/// A greater level, raised to the exponent, is no darker.
pub proof fn greater_levels_are_no_darker(map: BacklightMap, p: Binary64, q: Binary64)
    requires
        !p.nan(),
        !q.nan(),
        p.value() <= q.value(),
    ensures
        map.raw(p) <= map.raw(q),
{
    let m = Binary64::of_whole(map.max as nat);
    let one = one_in_units();
    lemma_whole_is_exact(map.max as nat);
    lemma_pow2_pos(SCALE as nat);
    lemma_zero_has_no_units(p.magnitude());
    lemma_rounds_somewhere(units(p.magnitude()) * units(m.magnitude()), one);
    // Zero in magnitude is zero on the scale.
    assert((2 * 0 + one) / (2 * one) == 0) by (nonlinear_arith)
        requires
            one > 0,
    ;
    if map.max > 0 && !p.negative() {
        if q.negative() {
            // Both are zero.
            times_zero_is_zero(p, m);
        } else {
            times_keeps_order(p, q, m);
            let a = units(p.times(m).magnitude());
            let b = units(q.times(m).magnitude());
            assert((2 * a + one) / (2 * one) <= (2 * b + one) / (2 * one)) by (nonlinear_arith)
                requires
                    a <= b,
                    one > 0,
            ;
        }
    }
}

/// The part of full brightness lies from zero to one, is zero at none and one
/// from the maximum on, and is no lesser for a greater raw brightness. Where the
/// maximum is zero, that holds of any brightness above it.
pub proof fn fractions_follow_raw_brightness(map: BacklightMap, a: u32, b: u32)
    requires
        map.max > 0 || a > 0,
        a <= b,
    ensures
        map.fraction(a).finite(),
        map.fraction(b).finite(),
        0 <= map.fraction(a).value() <= map.fraction(b).value() <= one_in_units(),
        map.max > 0 ==> map.fraction(0).value() == 0,
        a >= map.max ==> map.fraction(a).value() == one_in_units(),
{
    let one = one_in_units();
    let x = Binary64::of_whole(a as nat);
    let y = Binary64::of_whole(b as nat);
    let z = Binary64::of_whole(0);
    let t = Binary64::of_whole(map.max as nat);
    let top = Binary64::of_whole(1);
    lemma_pow2_pos(SCALE as nat);
    lemma_whole_is_exact(0);
    lemma_whole_is_exact(1);
    lemma_whole_is_exact(a as nat);
    lemma_whole_is_exact(b as nat);
    lemma_whole_is_exact(map.max as nat);
    lemma_scaled_order(a as nat, b as nat, one);
    if map.max > 0 {
        over_keeps_order(x, y, t);
        zero_over_is_zero(z, t);
        over_itself_is_one(t);
        if a >= map.max {
            lemma_scaled_order(map.max as nat, a as nat, one);
            over_keeps_order(t, x, t);
        }
    }
    lemma_units_order(top.magnitude(), map.fraction(a).magnitude());
    lemma_units_order(top.magnitude(), map.fraction(b).magnitude());
}

proof fn lemma_scaled_order(a: nat, b: nat, scale: nat)
    requires
        a <= b,
    ensures
        a * scale <= b * scale,
        0 * scale == 0,
        1 * scale == scale,
{
    assert(a * scale <= b * scale) by (nonlinear_arith)
        requires
            a <= b,
    ;
}

/// The gap above a magnitude that is not past one is small beside one.
proof fn lemma_gap_below_one(g: nat)
    requires
        units(g) <= one_in_units(),
    ensures
        g < INFINITE,
        pow2(exponent_of(g)) * 0x10_0000_0000_0000 <= one_in_units(),
{
    let h = HIDDEN as nat;
    lemma2_to64_rest();
    lemma_units_of_parts(1022, h);
    lemma_pow2_adds(52, 1022);
    lemma_units_order(1022 * h + h, g);
    let k = exponent_of(g);
    assert(k <= 1022);
    if k < 1022 {
        lemma_pow2_strictly_increases(k, 1022);
    }
}

/// A quotient that is not past one is rounded by less than the gap there.
proof fn lemma_rounded_closely(num: nat, den: nat)
    requires
        den > 0,
        num <= one_in_units() * den,
    ensures
        ({
            let u = units(nearest(num, den));
            let slack = one_in_units() * den;
            &&& u <= one_in_units()
            &&& 0x10_0000_0000_0000 * num <= 0x10_0000_0000_0000 * (u * den) + slack
            &&& 0x10_0000_0000_0000 * (u * den) <= 0x10_0000_0000_0000 * num + slack
        }),
{
    let c: nat = 0x10_0000_0000_0000;
    let one = one_in_units();
    let g = nearest(num, den);
    let u = units(g);
    lemma_rounds_somewhere(num, den);
    lemma_whole_is_exact(1);
    let top = Binary64::of_whole(1).magnitude();
    lemma_exact_rounds_to_itself(one * den, den, top);
    assert(num * den <= (one * den) * den) by (nonlinear_arith)
        requires
            num <= one * den,
    ;
    nearest_keeps_order(num, den, one * den, den);
    lemma_gap_below_one(g);
    lemma_units_step(g);
    let gap = pow2(exponent_of(g));
    assert(2 * num <= (u + (u + gap)) * den);
    assert(c * num <= c * (u * den) + one * den) by (nonlinear_arith)
        requires
            2 * num <= (u + (u + gap)) * den,
            gap * c <= one,
    ;
    if g > 0 {
        let f = (g - 1) as nat;
        lemma_units_step(f);
        lemma_gap_below_one(f);
        let low = units(f);
        let less = pow2(exponent_of(f));
        assert((low + u) * den <= 2 * num);
        assert(c * (u * den) <= c * num + one * den) by (nonlinear_arith)
            requires
                (low + u) * den <= 2 * num,
                u == low + less,
                less * c <= one,
        ;
    } else {
        lemma_zero_has_no_units(0);
        assert(u * den == 0) by (nonlinear_arith)
            requires
                u == 0,
        ;
        assert(one * den >= 0) by (nonlinear_arith);
    }
}

/// A number closer to a whole one than a quarter, rounded, is still no further
/// than a quarter, and its nearest whole number is that one.
proof fn lemma_close_to_whole(x: nat, n: u32)
    requires
        4 * (n * one_in_units()) <= 4 * x + one_in_units(),
        4 * x <= 4 * (n * one_in_units()) + one_in_units(),
    ensures
        ({
            let u = units(nearest(x, 1));
            (2 * u + one_in_units()) / (2 * one_in_units()) == n
        }),
{
    let one = one_in_units();
    let quarter = pow2((SCALE - 2) as nat);
    lemma_pow2_unfold(SCALE as nat);
    lemma_pow2_unfold((SCALE - 1) as nat);
    lemma_pow2_pos((SCALE - 2) as nat);
    lemma2_to64();
    assert(one == 4 * quarter);
    let u = units(nearest(x, 1));
    let high = 4 * n as nat + 1;
    let hm = lemma_whole_has_magnitude(high, 2);
    assert(4 * (n * one) == 4 * ((4 * n) * quarter)) by (nonlinear_arith)
        requires
            one == 4 * quarter,
    ;
    assert(high * quarter == (4 * n) * quarter + quarter) by (nonlinear_arith)
        requires
            high == 4 * n + 1,
    ;
    lemma_exact_rounds_to_itself(high * quarter, 1, hm);
    nearest_keeps_order(x, 1, high * quarter, 1);
    let t = (4 * n) * quarter;
    assert(u <= t + quarter);
    if n > 0 {
        let low = (4 * n - 1) as nat;
        let lm = lemma_whole_has_magnitude(low, 2);
        assert(low * quarter == t - quarter) by (nonlinear_arith)
            requires
                low == 4 * n - 1,
                t == (4 * n) * quarter,
        ;
        lemma_exact_rounds_to_itself(low * quarter, 1, lm);
        nearest_keeps_order(low * quarter, 1, x, 1);
    } else {
        assert(t == 0) by (nonlinear_arith)
            requires
                t == (4 * n) * quarter,
                n == 0,
        ;
    }
    assert(u + quarter >= t);
    assert((2 * u + one) / (2 * one) == n) by (nonlinear_arith)
        requires
            u <= t + quarter,
            u + quarter >= t,
            t == (4 * n) * quarter,
            one == 4 * quarter,
            quarter > 0,
    ;
}

/// A level whose product with the maximum lies within a quarter of a whole
/// number, not past the maximum, makes that raw brightness. So a part of full
/// brightness that went through a root and then a power makes the raw brightness
/// it was read from, as long as that moved it no further.
pub proof fn nearby_levels_make_the_same_brightness(
    map: BacklightMap,
    powered: Binary64,
    raw_start: u32,
)
    requires
        powered.finite(),
        powered.value() >= 0,
        raw_start <= map.max,
        4 * abs(powered.value() * map.max - raw_start * one_in_units()) <= one_in_units(),
    ensures
        map.raw(powered) == raw_start,
{
    let one = one_in_units();
    let n = raw_start as nat;
    let m = map.max as nat;
    let u = units(powered.magnitude());
    let x = u * m;
    lemma_pow2_pos(SCALE as nat);
    lemma_whole_is_exact(m);
    assert((u * (m * one)) * 1 == x * one) by (nonlinear_arith)
        requires
            x == u * m,
    ;
    lemma_nearest_of_ratio(u * (m * one), one, x, 1);
    lemma_close_to_whole(x, raw_start);
    lemma_rounds_somewhere(x, 1);
    if powered.negative() {
        // Only a zero, which makes no brightness.
        assert(x == 0) by (nonlinear_arith)
            requires
                x == u * m,
                u == 0,
        ;
        assert(n == 0) by (nonlinear_arith)
            requires
                4 * (n * one) <= one,
                one > 0,
        ;
    }
}

/// The raw brightness that a backlight had, read as a part of full brightness,
/// is the raw brightness that this part makes.
pub proof fn raw_brightness_reads_back(map: BacklightMap, raw_start: u32)
    requires
        raw_start <= map.max,
    ensures
        map.raw(map.fraction(raw_start)) == raw_start,
{
    if map.max > 0 {
        let one = one_in_units();
        let n = raw_start as nat;
        let m = map.max as nat;
        lemma_pow2_pos(SCALE as nat);
        lemma_whole_is_exact(0);
        lemma_whole_is_exact(1);
        lemma_whole_is_exact(n);
        lemma_whole_is_exact(m);
        let q = Binary64::of_whole(n).over(Binary64::of_whole(m));
        let num = (n * one) * one;
        let den = m * one;
        assert(num <= one * den) by (nonlinear_arith)
            requires
                num == (n * one) * one,
                den == m * one,
                n <= m,
        ;
        lemma_rounded_closely(num, den);
        let u = units(nearest(num, den));
        lemma_units_order(nearest(num, den), Binary64::of_whole(1).magnitude());
        lemma_close_after_scaling(num, den, u, n, m, u * m, one);
        nearby_levels_make_the_same_brightness(map, q, raw_start);
    }
}

proof fn lemma_close_after_scaling(
    num: nat,
    den: nat,
    u: nat,
    n: nat,
    m: nat,
    x: nat,
    one: nat,
)
    requires
        one > 0,
        num == (n * one) * one,
        den == m * one,
        x == u * m,
        m < 0x1_0000_0000,
        0x10_0000_0000_0000 * num <= 0x10_0000_0000_0000 * (u * den) + one * den,
        0x10_0000_0000_0000 * (u * den) <= 0x10_0000_0000_0000 * num + one * den,
    ensures
        4 * (n * one) <= 4 * x + one,
        4 * x <= 4 * (n * one) + one,
{
    let c: nat = 0x10_0000_0000_0000;
    let a = n * one;
    assert(u * den == x * one) by (nonlinear_arith)
        requires
            den == m * one,
            x == u * m,
    ;
    assert(one * den == (m * one) * one) by (nonlinear_arith)
        requires
            den == m * one,
    ;
    let d = m * one;
    assert(c * a <= c * x + d) by (nonlinear_arith)
        requires
            c * (a * one) <= c * (x * one) + d * one,
            one > 0,
    ;
    assert(c * x <= c * a + d) by (nonlinear_arith)
        requires
            c * (x * one) <= c * (a * one) + d * one,
            one > 0,
    ;
    assert(d <= 0x1_0000_0000 * one) by (nonlinear_arith)
        requires
            d == m * one,
            m < 0x1_0000_0000,
    ;
}

} // verus!
