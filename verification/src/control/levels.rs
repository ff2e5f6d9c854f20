//! What a configuration makes of positions, levels and raw brightness.

use super::linux_backlight::{is_control_for, names_listed, BacklightMap, Drive, Listed};
use crate::binary64::accuracy::{
    over_rounds_exact_quotient, rounded_product, rounded_ratio, special_products,
    special_quotients, times_rounds_exact_product, whole_numbers_are_nearest,
};
use crate::binary64::arithmetic::lemma_whole_is_exact;
use crate::binary64::laws::{
    nearest_keeps_order, numbers_lie_between_infinities, opposite_flips_value,
    plus_zero_is_the_same_number, rounded_units, sum_rounds_exact_sum, times_zero_is_zero,
};
use crate::binary64::model::{
    lemma_exact_rounds_to_itself, lemma_units_order, one_in_units, units, INFINITE, SCALE,
};
use crate::binary64::order::lemma_zero_has_no_units;
use crate::binary64::Binary64;
use crate::config::{
    BacklightConfig, CommonControlConfig, ControlBackendConfig, ControlConfig, MaxBehavior,
};
use crate::range::{
    ends_lie_at_zero_and_one, held_units, holding_keeps_what_lies_in_unit, numbers_are_sums,
    numbers_in_improper_ranges, places_are_quotients, places_in_improper_ranges,
    places_lie_in_unit, proper_ranges_are_wide, unit_range_is_one_wide,
};
use vstd::arithmetic::power2::*;
use vstd::math::abs;
use vstd::prelude::*;

verus! {

/// What a configuration sets is what the map has, and what it leaves unset has
/// its default: ranges from zero to one, saturation above the input range, an
/// exponent of three, and the maximum that the driver reports.
pub proof fn settings_are_taken(
    common: CommonControlConfig,
    backlight: BacklightConfig,
    reported_max: u32,
    map: BacklightMap,
)
    requires
        map.made_for(common, backlight, reported_max),
    ensures
        common.input matches Some(range) ==> map.input.lo == range.lo && map.input.hi == range.hi,
        common.output matches Some(range) ==> map.output.lo == range.lo && map.output.hi
            == range.hi,
        common.input is None ==> map.input.lo.bits == 0 && map.input.hi.value() == one_in_units(),
        common.output is None ==> map.output.lo.bits == 0 && map.output.hi.value()
            == one_in_units(),
        common.max_behavior matches Some(behavior) ==> map.max_behavior == behavior,
        common.max_behavior is None ==> map.max_behavior is Saturate,
        common.exponent matches Some(exponent) ==> map.exponent == exponent,
        common.exponent is None ==> map.exponent.value() == 3 * one_in_units(),
        backlight.raw_max matches Some(max) ==> map.max == max,
        backlight.raw_max is None ==> map.max == reported_max,
{
    lemma_whole_is_exact(0);
    lemma_whole_is_exact(1);
    lemma_whole_is_exact(3);
}

/// A part of something is no more than all of it.
proof fn lemma_part_of_width(p: int, w: Binary64)
    requires
        w.finite(),
        0 <= p <= one_in_units(),
    ensures
        abs(rounded_product(p, w.value())) <= abs(w.value()),
{
    let one = one_in_units();
    let u = units(w.magnitude());
    let x = p * w.value();
    lemma_pow2_pos(SCALE as nat);
    lemma_zero_has_no_units(w.magnitude());
    assert(abs(x) <= u * one) by (nonlinear_arith)
        requires
            x == p * w.value(),
            w.value() == u || w.value() == -u,
            0 <= p <= one,
            abs(x) == x || abs(x) == -x,
            abs(x) >= 0,
    ;
    lemma_exact_rounds_to_itself(u * one, one, w.magnitude());
    assert(abs(x) * one <= (u * one) * one) by (nonlinear_arith)
        requires
            abs(x) <= u * one,
    ;
    nearest_keeps_order(abs(x), one, u * one, one);
}

/// From configuration to level. A position above the input range switches a
/// backlight off where that is set, and else counts as the end of the range. The
/// level lies in the output range where the position lies in the input range:
/// the quotient of the position's distance from the low end and the width of the
/// input range, held between zero and one, times the width of the output range,
/// added to its low end, each rounded. An unset range is the one from zero to
/// one.
pub proof fn levels_follow_the_configuration(
    common: CommonControlConfig,
    backlight: BacklightConfig,
    reported_max: u32,
    map: BacklightMap,
    position: Binary64,
)
    requires
        map.made_for(common, backlight, reported_max),
        position.finite(),
        common.input matches Some(range) ==> {
            &&& range.lo.finite()
            &&& range.hi.finite()
            &&& 0 < abs(rounded_units(range.hi.value() - range.lo.value())) < units(
                INFINITE as nat,
            )
        },
        common.output matches Some(range) ==> {
            &&& range.lo.finite()
            &&& range.hi.finite()
            &&& abs(rounded_units(range.hi.value() - range.lo.value())) < units(INFINITE as nat)
        },
    ensures
        ({
            let one = one_in_units() as int;
            let (in_lo, in_hi) = match common.input {
                Some(range) => (range.lo.value(), range.hi.value()),
                None => (0, one),
            };
            let (out_lo, out_hi) = match common.output {
                Some(range) => (range.lo.value(), range.hi.value()),
                None => (0, one),
            };
            let above = position.value() > in_hi;
            let at = if above {
                in_hi
            } else {
                position.value()
            };
            let place = held_units(
                rounded_ratio(rounded_units(at - in_lo), rounded_units(in_hi - in_lo)),
            );
            if above && common.max_behavior == Some(MaxBehavior::Off) {
                map.drives(position) is Off
            } else {
                &&& map.drives(position) matches Drive::Level(level)
                &&& !level.nan()
                &&& level.value() == rounded_units(
                    rounded_product(place, rounded_units(out_hi - out_lo)) + out_lo,
                )
            }
        }),
{
    let one = one_in_units();
    settings_are_taken(common, backlight, reported_max, map);
    lemma_whole_is_exact(0);
    lemma_whole_is_exact(1);
    lemma_pow2_pos(SCALE as nat);
    lemma_units_order(Binary64::of_whole(1).magnitude(), INFINITE as nat);
    lemma_exact_rounds_to_itself(one, 1, Binary64::of_whole(1).magnitude());
    let hi = map.input.hi;
    let at = if hi.less(position) {
        hi
    } else {
        position
    };
    let place = map.input.place_of(at);
    let w = map.output.width();
    places_are_quotients(map.input, at);
    places_lie_in_unit(map.input, at);
    opposite_flips_value(map.output.lo);
    sum_rounds_exact_sum(map.output.hi, map.output.lo.opposite());
    lemma_units_order(w.magnitude(), INFINITE as nat);
    lemma_part_of_width(place.value(), w);
    numbers_are_sums(map.output, place);
}

/// At and below the low end of the input range a backlight has the level that
/// the configuration sets as the low end of its output.
pub proof fn darkness_has_the_low_level(
    common: CommonControlConfig,
    backlight: BacklightConfig,
    reported_max: u32,
    map: BacklightMap,
    position: Binary64,
)
    requires
        map.made_for(common, backlight, reported_max),
        !position.nan(),
        common.input matches Some(range) ==> range.proper() && position.value() <= range.lo.value(),
        common.input is None ==> position.value() <= 0,
        common.output matches Some(range) ==> range.lo.finite() && range.width().finite(),
    ensures
        map.drives(position) is Level,
        common.output matches Some(range) ==> map.drives(position)->Level_0.equals(range.lo),
        common.output is None ==> map.drives(position)->Level_0.value() == 0,
{
    settings_are_taken(common, backlight, reported_max, map);
    lemma_whole_is_exact(0);
    lemma_whole_is_exact(1);
    lemma_pow2_pos(SCALE as nat);
    unit_range_is_one_wide();
    proper_ranges_are_wide(map.input);
    places_lie_in_unit(map.input, position);
    ends_lie_at_zero_and_one(map.input, position);
    let place = map.input.place_of(position);
    let w = map.output.width();
    lemma_zero_has_no_units(place.magnitude());
    lemma_zero_has_no_units(0);
    times_zero_is_zero(place, w);
    plus_zero_is_the_same_number(map.output.lo, place.times(w));
}

/// A position that is not a number asks for a level that is none, and that makes
/// no brightness.
pub proof fn no_position_has_no_level(map: BacklightMap, position: Binary64, powered: Binary64)
    requires
        position.nan(),
        powered.nan(),
    ensures
        map.drives(position) matches Drive::Level(level) && level.nan(),
        map.raw(powered) == 0,
{
    places_in_improper_ranges(map.input, position);
    numbers_in_improper_ranges(map.output, map.input.place_of(position));
    brightness_is_the_nearest_step(map, powered);
}

/// The raw brightness is the whole number nearest to the level, raised to the
/// exponent, times the maximum, as rounded, and no more than the maximum; half
/// way between two it is the greater. A level below zero, or none, is dark, and
/// an infinite one is full brightness.
pub proof fn brightness_is_the_nearest_step(map: BacklightMap, powered: Binary64)
    ensures
        map.raw(powered) <= map.max,
        powered.nan() || powered.value() < 0 ==> map.raw(powered) == 0,
        powered.infinite() && !powered.negative() ==> map.raw(powered) == map.max,
        powered.finite() && powered.value() >= 0 ==> {
            let one = one_in_units();
            let product = rounded_product(powered.value(), map.max * one);
            &&& 2 * (map.raw(powered) * one) <= 2 * product + one
            &&& map.raw(powered) < map.max ==> 2 * product + one < 2 * ((map.raw(powered) + 1)
                * one)
        },
{
    let one = one_in_units();
    let m = Binary64::of_whole(map.max as nat);
    let p = powered.times(m);
    lemma_whole_is_exact(map.max as nat);
    lemma_pow2_pos(SCALE as nat);
    lemma_zero_has_no_units(powered.magnitude());
    lemma_zero_has_no_units(m.magnitude());
    lemma_zero_has_no_units(p.magnitude());
    special_products(powered, m);
    whole_numbers_are_nearest(p);
    if powered.finite() {
        times_rounds_exact_product(powered, m);
        let r = map.raw(powered) as nat;
        let n = p.nearest_u32() as nat;
        assert(r * one <= n * one) by (nonlinear_arith)
            requires
                r <= n,
        ;
        if powered.value() >= 0 {
            assert(powered.value() * (map.max * one) >= 0) by (nonlinear_arith)
                requires
                    powered.value() >= 0,
                    map.max >= 0,
            ;
        }
    } else if powered.infinite() {
        lemma_infinity_is_past_u32(p);
    }
}

/// The whole number for an infinity is the end of the range.
proof fn lemma_infinity_is_past_u32(a: Binary64)
    ensures
        a.infinite() && !a.negative() ==> a.nearest_u32() == u32::MAX,
{
    if a.infinite() && !a.negative() {
        let one = one_in_units();
        let n = 0x1_0000_0000nat;
        lemma_pow2_pos(SCALE as nat);
        whole_numbers_are_nearest(a);
        lemma_whole_is_exact(n);
        numbers_lie_between_infinities(Binary64::of_whole(n));
        let r = a.nearest_u32() as nat;
        if r < u32::MAX {
            assert(2 * ((r + 1) * one) <= 2 * (n * one)) by (nonlinear_arith)
                requires
                    r + 1 <= n,
            ;
        }
    }
}

/// The part of full brightness that a raw brightness is: the quotient of it and
/// the maximum, rounded, and no more than one. With a maximum of zero there is
/// none for darkness, and one for all else.
pub proof fn fractions_are_quotients(map: BacklightMap, raw_start: u32)
    ensures
        map.max > 0 ==> !map.fraction(raw_start).nan() && map.fraction(raw_start).value()
            == held_units(
            rounded_ratio(raw_start * one_in_units(), map.max * one_in_units()),
        ),
        map.max == 0 && raw_start == 0 ==> map.fraction(raw_start).nan(),
        map.max == 0 && raw_start > 0 ==> map.fraction(raw_start).value() == one_in_units(),
{
    let one = one_in_units();
    let a = Binary64::of_whole(raw_start as nat);
    let m = Binary64::of_whole(map.max as nat);
    lemma_whole_is_exact(raw_start as nat);
    lemma_whole_is_exact(map.max as nat);
    lemma_whole_is_exact(1);
    lemma_pow2_pos(SCALE as nat);
    lemma_zero_has_no_units(a.magnitude());
    lemma_zero_has_no_units(m.magnitude());
    special_quotients(a, m);
    holding_keeps_what_lies_in_unit(a.over(m));
    lemma_units_order(Binary64::of_whole(1).magnitude(), INFINITE as nat);
    if map.max > 0 {
        assert(map.max * one > 0) by (nonlinear_arith)
            requires
                map.max > 0,
                one > 0,
        ;
        over_rounds_exact_quotient(a, m);
    }
}

/// The list of backlights is read in order, one entry at a time: a name is
/// listed behind those before it, an entry without a usable name is passed over,
/// and nothing is listed from where the list breaks off.
pub proof fn listing_goes_entry_by_entry(entries: Seq<Listed>, entry: Listed)
    requires
        forall|i: int| 0 <= i < entries.len() ==> !(#[trigger] entries[i] is Broken),
    ensures
        names_listed(Seq::<Listed>::empty()) == Seq::<Seq<char>>::empty(),
        entry matches Listed::Named(name) ==> names_listed(entries.push(entry)) == names_listed(
            entries,
        ).push(name@),
        !(entry is Named) ==> names_listed(entries.push(entry)) == names_listed(entries),
    decreases entries.len(),
{
    let all = entries.push(entry);
    if entries.len() == 0 {
        assert(all.skip(1) =~= entries);
        assert(names_listed(entries) =~= Seq::empty());
        if let Listed::Named(name) = entry {
            assert(names_listed(all) =~= Seq::empty().push(name@));
        }
    } else {
        let rest = entries.skip(1);
        listing_goes_entry_by_entry(rest, entry);
        assert(all.skip(1) =~= rest.push(entry));
        assert(all[0] == entries[0]);
        if let Listed::Named(first) = entries[0] {
            if let Listed::Named(name) = entry {
                assert(seq![first@] + names_listed(rest).push(name@) =~= (seq![first@]
                    + names_listed(rest)).push(name@));
            }
        }
    }
}

/// Nothing that stands behind a break in the list is listed.
pub proof fn nothing_is_listed_behind_a_break(entries: Seq<Listed>, rest: Seq<Listed>)
    ensures
        names_listed(entries.push(Listed::Broken) + rest) == names_listed(
            entries.push(Listed::Broken),
        ),
    decreases entries.len(),
{
    let all = entries.push(Listed::Broken);
    let more = all + rest;
    assert(more[0] == all[0]);
    if entries.len() > 0 {
        nothing_is_listed_behind_a_break(entries.skip(1), rest);
        assert(all.skip(1) =~= entries.skip(1).push(Listed::Broken));
        assert(more.skip(1) =~= entries.skip(1).push(Listed::Broken) + rest);
    }
}

/// The control that is made for a backlight drives the device of that name, under
/// the name with `backlight_` before it, and has nothing set.
pub proof fn made_controls_have_nothing_set(entry: (String, ControlConfig), name: Seq<char>)
    requires
        is_control_for(entry, name),
    ensures
        entry.0@ == "backlight_"@ + name,
        entry.1.driver matches ControlBackendConfig::Backlight(backlight) && backlight.device@
            == name && backlight.raw_max is None,
        entry.1.common.input is None,
        entry.1.common.output is None,
        entry.1.common.max_behavior is None,
        entry.1.common.exponent is None,
        entry.1.common.adjust_slope is None,
        entry.1.common.update_rate is None,
{
}

} // verus!
