//! The light sensor that the system's sensor proxy offers.

use crate::binary64::accuracy::{reciprocals, rounded_ratio, small_ratios_are_finite};
use crate::binary64::arithmetic::lemma_whole_is_exact;
use crate::binary64::model::one_in_units;
use crate::binary64::Binary64;
use crate::config::{
    CommonSensorConfig, OptRangeConfig, RangeConfig, SensorBackendConfig, SensorConfig,
};
use vstd::prelude::*;

verus! {

/// Why a sensor cannot be used.
#[derive(Clone, Debug, PartialEq, Eq)]
pub enum SensorError {
    /// The proxy has no ambient light sensor.
    NoAmbientLight,
    /// Readings in lux have no natural maximum, and none is set.
    LuxNeedsMax,
    /// The unit of the readings is not known.
    UnrecognizedUnit(String),
    /// The maximum is below zero.
    NegativeMax,
}

impl SensorError {
    /// The text of the error.
    pub open spec fn text(self) -> Seq<char> {
        match self {
            SensorError::NoAmbientLight => "no ambient light sensor supported"@,
            SensorError::LuxNeedsMax =>
                "sensor with unit 'lux' requires sensor.input.hi to be specified"@,
            SensorError::UnrecognizedUnit(unit) => "unrecognized light sensor unit: "@ + unit@,
            SensorError::NegativeMax => "sensor max must be greater than zero"@,
        }
    }

    /// The text of the error.
    pub fn message(&self) -> (r: String)
        ensures
            r@ == self.text(),
    {
        match self {
            SensorError::NoAmbientLight => "no ambient light sensor supported".to_owned(),
            SensorError::LuxNeedsMax =>
                "sensor with unit 'lux' requires sensor.input.hi to be specified".to_owned(),
            SensorError::UnrecognizedUnit(unit) => {
                let mut r: String = "unrecognized light sensor unit: ".to_owned();
                r.append(unit.as_str());
                r
            },
            SensorError::NegativeMax => "sensor max must be greater than zero".to_owned(),
        }
    }
}

/// Whether a proxy can be used, by whether it has an ambient light sensor.
pub fn check_ambient_light(present: bool) -> (r: Result<(), SensorError>)
    ensures
        r is Ok <==> present,
        r matches Err(e) ==> e is NoAmbientLight,
{
    if present {
        Ok(())
    } else {
        Err(SensorError::NoAmbientLight)
    }
}

/// The seconds between two readings that are asked for.
pub fn poll_period(common: &CommonSensorConfig) -> (r: Binary64)
    ensures
        r == Binary64::of_whole(1).over(
            match common.poll_hz {
                Some(hz) => hz,
                None => Binary64::of_ratio(2, 10),
            },
        ),
        common.poll_hz matches Some(hz) ==> {
            &&& hz.finite() && hz.value() != 0 ==> !r.nan() && r.value() == rounded_ratio(
                one_in_units() as int,
                hz.value(),
            )
            &&& hz.zero() ==> r.infinite() && r.negative() == hz.negative()
            &&& hz.infinite() ==> r.zero()
            &&& hz.nan() ==> r.nan()
        },
        common.poll_hz is None ==> !r.nan() && r.value() == rounded_ratio(
            one_in_units() as int,
            Binary64::of_ratio(2, 10).value(),
        ),
{
    proof {
        lemma_whole_is_exact(1);
        small_ratios_are_finite(2, 10);
        reciprocals(Binary64::of_ratio(2, 10));
        if let Some(hz) = common.poll_hz {
            reciprocals(hz);
        }
    }
    let hz: Binary64 = match common.poll_hz {
        Some(hz) => hz,
        None => CommonSensorConfig::default_poll_hz(),
    };
    Binary64::from_whole(1).quotient(hz)
}

/// A range in which either end may be open, or one with both ends open where
/// none is set.
pub open spec fn range_or_open(range: Option<OptRangeConfig>) -> OptRangeConfig {
    match range {
        Some(r) => r,
        None => OptRangeConfig { lo: None, hi: None },
    }
}

/// What comes of setting up a sensor whose readings are in a given unit. The
/// reading for full light is the one that is set, which is not to be below zero,
/// or else the one that the unit implies.
pub open spec fn settles(
    common: CommonSensorConfig,
    unit: Seq<char>,
    r: Result<LightSensor, SensorError>,
) -> bool {
    let input = range_or_open(common.input);
    &&& match input.hi {
        Some(hi) => if hi.less(Binary64::of_whole(0)) {
            r matches Err(e) && e is NegativeMax
        } else {
            r matches Ok(s) && s.range.hi == hi
        },
        None => if unit == "vendor"@ {
            r matches Ok(s) && s.range.hi == Binary64::of_whole(255)
        } else if unit == "lux"@ {
            r matches Err(e) && e is LuxNeedsMax
        } else {
            r matches Err(SensorError::UnrecognizedUnit(u)) && u@ == unit
        },
    }
    &&& r matches Ok(s) ==> {
        &&& s.range.lo == (match input.lo {
            Some(lo) => lo,
            None => Binary64::of_whole(0),
        })
        &&& s.root == Binary64::of_whole(1).over(
            match common.exponent {
                Some(exponent) => exponent,
                None => Binary64::of_whole(3),
            },
        )
        &&& s.last is None
    }
}

/// The settings that are made for a sensor whose readings are in a given unit.
/// Readings in lux need a maximum: the backlight is taken to be equivalent to
/// about a thousand.
pub open spec fn settings_for(unit: Seq<char>) -> CommonSensorConfig {
    CommonSensorConfig {
        input: if unit == "lux"@ {
            Some(OptRangeConfig { lo: None, hi: Some(Binary64::of_whole(1000)) })
        } else {
            None
        },
        poll_hz: Some(Binary64::of_ratio(1, 10)),
        exponent: None,
    }
}

/// A light sensor in use.
#[derive(Copy, Clone, Debug, PartialEq, Eq)]
pub struct LightSensor {
    /// The raw readings that stand for darkness and for full light.
    pub range: RangeConfig,
    /// The power that the share of full light is raised to.
    pub root: Binary64,
    /// The raw reading that came last.
    pub last: Option<Binary64>,
}

/// What can come of waiting for a sensor.
#[derive(Copy, Clone, Debug, PartialEq, Eq)]
pub enum SensorEvent {
    /// The stream of changes ended.
    ChangesEnded,
    /// A change was announced and could not be read.
    ChangeUnreadable,
    /// The reading that was asked for failed.
    PollFailed,
    /// A raw reading, announced or asked for.
    Level(Binary64),
}

impl LightSensor {
    /// A raw reading is news: it is not the number that came last.
    pub open spec fn news(self, level: Binary64) -> bool {
        match self.last {
            None => true,
            Some(last) => !last.equals(level),
        }
    }

    /// What a sensor becomes and passes on: a raw reading that is news is
    /// remembered and gives its share of full light, and all else changes and
    /// gives nothing.
    pub open spec fn takes(
        self,
        event: SensorEvent,
        next: LightSensor,
        share: Option<Binary64>,
    ) -> bool {
        match event {
            SensorEvent::Level(level) if self.news(level) => {
                &&& next == LightSensor { range: self.range, root: self.root, last: Some(level) }
                &&& share == Some(self.range.place_of(level))
            },
            _ => next == self && share is None,
        }
    }

    /// A sensor whose readings are in a given unit.
    pub fn new(common: &CommonSensorConfig, unit: &str) -> (r: Result<LightSensor, SensorError>)
        ensures
            settles(*common, unit@, r),
            common.input matches Some(range) ==> (range.hi matches Some(hi) ==> {
                &&& r is Ok <==> hi.nan() || hi.value() >= 0
                &&& r matches Ok(sensor) ==> sensor.range.hi == hi
                &&& r matches Err(e) ==> e is NegativeMax
            }),
            common.input matches Some(range) ==> (range.lo matches Some(lo) ==> (r matches Ok(
                sensor,
            ) ==> sensor.range.lo == lo)),
    {
        let input: OptRangeConfig = match common.input {
            Some(range) => range,
            None => OptRangeConfig::default(),
        };
        let hi: Binary64 = match input.hi {
            Some(hi) => hi,
            None => {
                let text: String = unit.to_owned();
                if text == "vendor".to_owned() {
                    Binary64::from_whole(255)
                } else if text == "lux".to_owned() {
                    return Err(SensorError::LuxNeedsMax);
                } else {
                    return Err(SensorError::UnrecognizedUnit(text));
                }
            },
        };
        let lo: Binary64 = match input.lo {
            Some(lo) => lo,
            None => Binary64::from_whole(0),
        };
        proof {
            lemma_whole_is_exact(0);
            lemma_whole_is_exact(255);
        }
        if hi.less_than(Binary64::from_whole(0)) {
            return Err(SensorError::NegativeMax);
        }
        let exponent: Binary64 = match common.exponent {
            Some(exponent) => exponent,
            None => CommonSensorConfig::default_exponent(),
        };
        Ok(
            LightSensor {
                range: RangeConfig { lo, hi },
                root: Binary64::from_whole(1).quotient(exponent),
                last: None,
            },
        )
    }

    /// Takes what came of waiting. A raw reading that is news gives its share of
    /// full light, which is then to be raised to `root` and passed on; all else
    /// gives nothing.
    pub fn take(&mut self, event: SensorEvent) -> (r: Option<Binary64>)
        ensures
            old(self).takes(event, *final(self), r),
    {
        match event {
            SensorEvent::ChangesEnded => None,
            SensorEvent::ChangeUnreadable => None,
            SensorEvent::PollFailed => None,
            SensorEvent::Level(level) => {
                if let Some(last) = self.last {
                    if last.same_number(level) {
                        return None;
                    }
                }
                self.last = Some(level);
                Some(self.range.find_place(level))
            },
        }
    }
}

/// Whether the unit of the readings is worth asking for, by what the proxy said
/// of having an ambient light sensor; nothing where it did not answer.
pub fn asks_unit(present: Option<bool>) -> (r: bool)
    ensures
        r <==> present == Some(true),
{
    match present {
        Some(flag) => flag,
        None => false,
    }
}

/// The configuration for the sensor of a proxy, by what it said of having an
/// ambient light sensor and of the unit of its readings; nothing where it did
/// not answer.
pub fn try_generate(present: Option<bool>, unit: Option<String>) -> (r: Option<SensorConfig>)
    ensures
        r is Some <==> present == Some(true) && unit is Some,
        r matches Some(config) ==> {
            &&& config.driver == SensorBackendConfig::IioSensorProxy
            &&& config.common == settings_for(unit->0@)
        },
{
    if !asks_unit(present) {
        return None;
    }
    match unit {
        None => None,
        Some(unit) => {
            let mut common: CommonSensorConfig = CommonSensorConfig::default();
            common.poll_hz = Some(Binary64::from_ratio(1, 10));
            if unit == "lux".to_owned() {
                common.input = Some(
                    OptRangeConfig { lo: None, hi: Some(Binary64::from_whole(1000)) },
                );
            }
            Some(SensorConfig { driver: SensorBackendConfig::IioSensorProxy, common })
        },
    }
}

} // verus!
