//! What holds of every light sensor, whatever it reads.

use super::iio_sensors_proxy::{settings_for, settles, LightSensor, SensorError, SensorEvent};
use crate::binary64::accuracy::{ratios_are_closest, reciprocals, rounded_ratio};
use crate::binary64::arithmetic::lemma_whole_is_exact;
use crate::binary64::laws::{opposite_flips_value, plus_zero_is_the_same_number, rounded_units};
use crate::binary64::model::{lemma_units_order, one_in_units, units, INFINITE, SCALE};
use crate::binary64::order::lemma_zero_has_no_units;
use crate::binary64::Binary64;
use crate::config::{CommonSensorConfig, OptRangeConfig};
use crate::range::{
    ends_lie_at_zero_and_one, held_units, places_are_quotients, places_in_improper_ranges,
    places_keep_order, places_lie_in_unit, places_scale_with_the_width,
};
use vstd::arithmetic::power2::lemma_pow2_pos;
use vstd::math::abs;
use vstd::prelude::*;

verus! {

/// A raw reading that repeats the last one is not passed on, and neither is any
/// failure; neither changes anything.
pub proof fn repeats_and_failures_are_dropped(
    sensor: LightSensor,
    event: SensorEvent,
    next: LightSensor,
    share: Option<Binary64>,
)
    requires
        sensor.takes(event, next, share),
        event matches SensorEvent::Level(level) ==> sensor.last matches Some(last) && last.equals(
            level,
        ),
    ensures
        next == sensor,
        share is None,
{
}

/// A raw reading is passed on once: taken again, it gives nothing.
pub proof fn readings_are_passed_on_once(
    sensor: LightSensor,
    level: Binary64,
    middle: LightSensor,
    first: Option<Binary64>,
    next: LightSensor,
    second: Option<Binary64>,
)
    requires
        !level.nan(),
        sensor.takes(SensorEvent::Level(level), middle, first),
        middle.takes(SensorEvent::Level(level), next, second),
    ensures
        middle.last matches Some(last) && last.equals(level),
        next == middle,
        second is None,
{
}

/// The first raw reading, and every one that differs from the last, is passed
/// on and remembered.
pub proof fn changes_are_passed_on(
    sensor: LightSensor,
    level: Binary64,
    next: LightSensor,
    share: Option<Binary64>,
)
    requires
        sensor.takes(SensorEvent::Level(level), next, share),
        sensor.last matches Some(last) ==> !last.equals(level),
    ensures
        share == Some(sensor.range.place_of(level)),
        next.last == Some(level),
{
}

/// The range and the power of a sensor stay as they were set.
pub proof fn settings_stay(
    sensor: LightSensor,
    event: SensorEvent,
    next: LightSensor,
    share: Option<Binary64>,
)
    requires
        sensor.takes(event, next, share),
    ensures
        next.range == sensor.range,
        next.root == sensor.root,
{
}

/// What is passed on is a share from zero to one where it is a number, as it is
/// for every level in a proper range. It is zero for darkness and below, and one
/// for full light and above, where the range is not turned round.
pub proof fn shares_lie_from_zero_to_one(
    sensor: LightSensor,
    level: Binary64,
    next: LightSensor,
    share: Binary64,
)
    requires
        sensor.takes(SensorEvent::Level(level), next, Some(share)),
    ensures
        sensor.range.proper() && !level.nan() ==> !share.nan(),
        !share.nan() ==> share.finite() && 0 <= share.value() <= one_in_units(),
        !share.nan() && !sensor.range.width().negative() && level.value()
            <= sensor.range.lo.value() ==> share.value() == 0,
        !share.nan() && !sensor.range.width().negative() && level.value()
            >= sensor.range.hi.value() ==> share.value() == one_in_units(),
{
    places_lie_in_unit(sensor.range, level);
    if !share.nan() && !sensor.range.width().negative() {
        ends_lie_at_zero_and_one(sensor.range, level);
    }
}

/// More light is no lesser share, where both shares are numbers and the range is
/// not turned round. In a proper range they are numbers.
pub proof fn more_light_is_no_lesser_share(
    sensor: LightSensor,
    darker: Binary64,
    after_darker: LightSensor,
    less: Binary64,
    brighter: Binary64,
    after_brighter: LightSensor,
    more: Binary64,
)
    requires
        !sensor.range.width().negative(),
        !darker.nan(),
        !brighter.nan(),
        darker.value() <= brighter.value(),
        sensor.takes(SensorEvent::Level(darker), after_darker, Some(less)),
        sensor.takes(SensorEvent::Level(brighter), after_brighter, Some(more)),
    ensures
        sensor.range.proper() ==> !less.nan() && !more.nan(),
        !less.nan() && !more.nan() ==> less.value() <= more.value(),
{
    places_keep_order(sensor.range, darker, brighter);
}

/// A sensor in a known unit can be set up with the settings that are made for
/// it, and its range is then proper.
pub proof fn made_settings_are_accepted(unit: Seq<char>, r: Result<LightSensor, SensorError>)
    requires
        unit == "vendor"@ || unit == "lux"@,
        settles(settings_for(unit), unit, r),
    ensures
        r matches Ok(sensor) && sensor.range.proper(),
{
    reveal_strlit("vendor");
    reveal_strlit("lux");
    assert("vendor"@.len() != "lux"@.len());
    lemma_whole_is_exact(0);
    lemma_whole_is_exact(255);
    lemma_whole_is_exact(1000);
    let one = one_in_units();
    lemma_pow2_pos(SCALE as nat);
    let range = r->Ok_0.range;
    opposite_flips_value(range.lo);
    plus_zero_is_the_same_number(range.hi, range.lo.opposite());
    lemma_units_order(range.width().magnitude(), INFINITE as nat);
    lemma_units_order(range.hi.magnitude(), INFINITE as nat);
    lemma_zero_has_no_units(range.width().magnitude());
}

/// Where a maximum is set, the unit does not matter: full light is at exactly that
/// reading, unless it is below zero, which is refused.
pub proof fn a_set_maximum_is_taken(
    common: CommonSensorConfig,
    range: OptRangeConfig,
    hi: Binary64,
    unit: Seq<char>,
    r: Result<LightSensor, SensorError>,
)
    requires
        common.input == Some(range),
        range.hi == Some(hi),
        settles(common, unit, r),
    ensures
        !hi.nan() && hi.value() < 0 ==> (r matches Err(e) && e is NegativeMax),
        hi.nan() || hi.value() >= 0 ==> (r matches Ok(sensor) && sensor.range.hi == hi),
{
    lemma_whole_is_exact(0);
}

/// Two units with the same set maximum give the same sensor.
pub proof fn units_do_not_matter_beside_a_set_maximum(
    common: CommonSensorConfig,
    range: OptRangeConfig,
    unit: Seq<char>,
    r: Result<LightSensor, SensorError>,
    other_unit: Seq<char>,
    other: Result<LightSensor, SensorError>,
)
    requires
        common.input == Some(range),
        range.hi is Some,
        settles(common, unit, r),
        settles(common, other_unit, other),
    ensures
        r is Ok <==> other is Ok,
        r matches Ok(sensor) ==> other == Ok::<LightSensor, SensorError>(sensor),
        r matches Err(e) ==> e is NegativeMax && other->Err_0 is NegativeMax,
{
}

/// Where no maximum is set, the unit decides: readings by the vendor go up to
/// 255, and no other unit has a maximum of its own.
pub proof fn an_unset_maximum_is_that_of_the_unit(
    common: CommonSensorConfig,
    unit: Seq<char>,
    r: Result<LightSensor, SensorError>,
)
    requires
        common.input matches Some(range) ==> range.hi is None,
        settles(common, unit, r),
    ensures
        unit == "vendor"@ ==> (r matches Ok(sensor) && sensor.range.hi.value() == 255
            * one_in_units()),
        unit == "lux"@ ==> (r matches Err(e) && e is LuxNeedsMax),
        unit != "vendor"@ && unit != "lux"@ ==> (r matches Err(SensorError::UnrecognizedUnit(named))
            && named@ == unit),
{
    reveal_strlit("vendor");
    reveal_strlit("lux");
    assert("vendor"@.len() != "lux"@.len());
    lemma_whole_is_exact(255);
}

/// What else is set is taken, and what is not has its default: darkness at zero,
/// and an exponent of three. The power that shares are raised to is one over the
/// exponent, rounded. Nothing has been read yet.
pub proof fn other_settings_are_taken(
    common: CommonSensorConfig,
    unit: Seq<char>,
    sensor: LightSensor,
)
    requires
        settles(common, unit, Ok(sensor)),
    ensures
        common.input matches Some(range) ==> (range.lo matches Some(lo) ==> sensor.range.lo == lo),
        (common.input is None || common.input->0.lo is None) ==> sensor.range.lo.bits == 0,
        common.exponent matches Some(exponent) ==> {
            &&& exponent.finite() && exponent.value() != 0 ==> !sensor.root.nan()
                && sensor.root.value() == rounded_ratio(one_in_units() as int, exponent.value())
            &&& exponent.zero() ==> sensor.root.infinite() && sensor.root.negative()
                == exponent.negative()
            &&& exponent.infinite() ==> sensor.root.zero()
            &&& exponent.nan() ==> sensor.root.nan()
        },
        common.exponent is None ==> !sensor.root.nan() && sensor.root.value() == rounded_ratio(
            one_in_units() as int,
            3 * one_in_units() as int,
        ),
        sensor.last is None,
{
    lemma_pow2_pos(SCALE as nat);
    lemma_whole_is_exact(0);
    lemma_whole_is_exact(3);
    reciprocals(Binary64::of_whole(3));
    if let Some(exponent) = common.exponent {
        reciprocals(exponent);
    }
}

/// The settings that are made for a sensor: a maximum of a thousand for readings
/// in lux and none for others, and a reading asked for every ten seconds, in the
/// number closest to a tenth.
pub proof fn made_settings(unit: Seq<char>, other: Binary64)
    requires
        !other.nan(),
    ensures
        unit == "lux"@ ==> (settings_for(unit).input matches Some(range) && range.lo is None
            && range.hi is Some && range.hi->0.value() == 1000 * one_in_units()),
        unit != "lux"@ ==> settings_for(unit).input is None,
        settings_for(unit).poll_hz matches Some(hz) && !hz.nan() && abs(
            hz.value() * 10 - one_in_units(),
        ) <= abs(other.value() * 10 - one_in_units()),
        settings_for(unit).exponent is None,
{
    lemma_whole_is_exact(1000);
    ratios_are_closest(1, 10, other);
}

/// A sensor passes on exactly the readings that are not the number which came
/// last, remembers what it was given then, and does nothing else.
pub proof fn passes_on_exactly_the_changes(
    sensor: LightSensor,
    event: SensorEvent,
    next: LightSensor,
    share: Option<Binary64>,
)
    requires
        sensor.takes(event, next, share),
    ensures
        share is Some <==> (event matches SensorEvent::Level(level) && !(sensor.last matches Some(
            last,
        ) && !last.nan() && !level.nan() && last.value() == level.value())),
        share is Some ==> next.last == Some(event->Level_0),
        share is None ==> next.last == sensor.last,
        next.range.lo == sensor.range.lo,
        next.range.hi == sensor.range.hi,
        next.root == sensor.root,
{
}

/// From configuration to share. What is passed on for a reading is the quotient
/// of its distance from darkness and the distance of full light from darkness,
/// each rounded, held between zero and one. Full light is at the maximum that is
/// set, or else at 255 in the unit that goes up to there; darkness is at the
/// minimum that is set, or else at zero.
pub proof fn shares_follow_the_configuration(
    common: CommonSensorConfig,
    unit: Seq<char>,
    made: LightSensor,
    sensor: LightSensor,
    level: Binary64,
    next: LightSensor,
    share: Binary64,
)
    requires
        settles(common, unit, Ok(made)),
        sensor.range == made.range,
        sensor.takes(SensorEvent::Level(level), next, Some(share)),
        level.finite(),
        made.range.lo.finite(),
        made.range.hi.finite(),
        0 < abs(rounded_units(made.range.hi.value() - made.range.lo.value())) < units(
            INFINITE as nat,
        ),
    ensures
        ({
            let lo = if common.input is Some && common.input->0.lo is Some {
                common.input->0.lo->0.value()
            } else {
                0
            };
            let hi = if common.input is Some && common.input->0.hi is Some {
                common.input->0.hi->0.value()
            } else {
                255 * one_in_units() as int
            };
            &&& !share.nan()
            &&& share.value() == held_units(
                rounded_ratio(rounded_units(level.value() - lo), rounded_units(hi - lo)),
            )
        }),
{
    lemma_whole_is_exact(0);
    lemma_whole_is_exact(255);
    places_are_quotients(sensor.range, level);
}

/// A reading that is not a number gives a share that is none.
pub proof fn no_reading_has_no_share(
    sensor: LightSensor,
    level: Binary64,
    next: LightSensor,
    share: Binary64,
)
    requires
        level.nan(),
        sensor.takes(SensorEvent::Level(level), next, Some(share)),
    ensures
        share.nan(),
{
    places_in_improper_ranges(sensor.range, level);
}

/// In a proper range a share, times what lies between darkness and full light,
/// is how far the reading is from darkness, up to a part of `2^-50`.
pub proof fn shares_scale_with_the_light(
    sensor: LightSensor,
    level: Binary64,
    next: LightSensor,
    share: Binary64,
)
    requires
        sensor.takes(SensorEvent::Level(level), next, Some(share)),
        sensor.range.proper(),
        level.finite(),
        sensor.range.lo.value() <= level.value() <= sensor.range.hi.value(),
    ensures
        ({
            let full = sensor.range.hi.value() - sensor.range.lo.value();
            let light = level.value() - sensor.range.lo.value();
            0x4_0000_0000_0000 * abs(share.value() * full - light * one_in_units()) <= full
                * one_in_units()
        }),
{
    places_scale_with_the_width(sensor.range, level);
}

/// What is said of each error.
pub proof fn errors_say_what_is_wrong(e: SensorError)
    ensures
        e is NoAmbientLight ==> e.text() == "no ambient light sensor supported"@,
        e is LuxNeedsMax ==> e.text()
            == "sensor with unit 'lux' requires sensor.input.hi to be specified"@,
        e matches SensorError::UnrecognizedUnit(unit) ==> e.text()
            == "unrecognized light sensor unit: "@ + unit@,
        e is NegativeMax ==> e.text() == "sensor max must be greater than zero"@,
{
}

} // verus!
