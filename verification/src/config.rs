//! What a configuration file can say.

pub mod controls;

use crate::binary64::arithmetic::lemma_whole_is_exact;
use crate::binary64::model::one_in_units;
use crate::binary64::Binary64;
use controls::Controls;
use vstd::prelude::*;

verus! {

/// The upper bound that a range has where none is written.
pub fn one() -> (r: Binary64)
    ensures
        r == Binary64::of_whole(1),
{
    Binary64::from_whole(1)
}

/// The whole configuration: one sensor, and the controls that follow it.
#[derive(Clone, Debug, PartialEq, Eq)]
pub struct Config {
    pub sensor: SensorConfig,
    pub controls: Controls,
}

/// Which sensor to read, and how.
#[derive(Clone, Debug, PartialEq, Eq)]
pub struct SensorConfig {
    pub driver: SensorBackendConfig,
    pub common: CommonSensorConfig,
}

/// The kinds of sensor.
#[derive(Copy, Clone, Debug, PartialEq, Eq, Structural)]
pub enum SensorBackendConfig {
    IioSensorProxy,
}

/// What is set alike for every kind of sensor.
#[derive(Copy, Clone, Debug, PartialEq, Eq)]
pub struct CommonSensorConfig {
    pub input: Option<OptRangeConfig>,
    pub poll_hz: Option<Binary64>,
    pub exponent: Option<Binary64>,
}

/// A control under its name: what to drive, and how.
#[derive(Clone, Debug, PartialEq, Eq)]
pub struct ControlConfig {
    pub driver: ControlBackendConfig,
    pub common: CommonControlConfig,
}

/// What is set alike for every kind of control.
#[derive(Copy, Clone, Debug, PartialEq, Eq)]
pub struct CommonControlConfig {
    pub input: Option<RangeConfig>,
    pub output: Option<RangeConfig>,
    pub max_behavior: Option<MaxBehavior>,
    pub exponent: Option<Binary64>,
    pub adjust_slope: Option<Binary64>,
    pub update_rate: Option<Binary64>,
}

/// What a control does with a reading above its input range.
#[derive(Copy, Clone, Debug, PartialEq, Eq, Structural)]
pub enum MaxBehavior {
    Off,
    Saturate,
}

/// The kinds of control.
#[derive(Clone, Debug, PartialEq, Eq)]
pub enum ControlBackendConfig {
    Backlight(BacklightConfig),
    ThinkpadKeyboardBacklight,
}

/// Which backlight to drive, and the raw maximum to take in place of the one
/// that its driver reports.
#[derive(Clone, Debug, PartialEq, Eq)]
pub struct BacklightConfig {
    pub device: String,
    pub raw_max: Option<u32>,
}

/// A range with both bounds.
#[derive(Copy, Clone, Debug, PartialEq, Eq)]
pub struct RangeConfig {
    pub lo: Binary64,
    pub hi: Binary64,
}

/// A range in which either bound may be left open.
#[derive(Copy, Clone, Debug, PartialEq, Eq)]
pub struct OptRangeConfig {
    pub lo: Option<Binary64>,
    pub hi: Option<Binary64>,
}

impl CommonSensorConfig {
    /// The configuration in which nothing is set.
    pub open spec fn unset() -> CommonSensorConfig {
        CommonSensorConfig { input: None, poll_hz: None, exponent: None }
    }

    /// How often the sensor is read where no rate is set, in hertz.
    pub fn default_poll_hz() -> (r: Binary64)
        ensures
            r == Binary64::of_ratio(2, 10),
    {
        Binary64::from_ratio(2, 10)
    }

    /// The exponent of the sensor's response where none is set.
    pub fn default_exponent() -> (r: Binary64)
        ensures
            r == Binary64::of_whole(3),
    {
        Binary64::from_whole(3)
    }
}

impl Default for CommonSensorConfig {
    fn default() -> (r: CommonSensorConfig)
        ensures
            r == CommonSensorConfig::unset(),
    {
        CommonSensorConfig { input: None, poll_hz: None, exponent: None }
    }
}

impl CommonControlConfig {
    /// The configuration in which nothing is set.
    pub open spec fn unset() -> CommonControlConfig {
        CommonControlConfig {
            input: None,
            output: None,
            max_behavior: None,
            exponent: None,
            adjust_slope: None,
            update_rate: None,
        }
    }

    /// What fraction of the full range a control moves in a second where no
    /// slope is set.
    pub fn default_adjust_slope() -> (r: Binary64)
        ensures
            r == Binary64::of_ratio(5, 10),
    {
        Binary64::from_ratio(5, 10)
    }

    /// How often a moving control is updated where no rate is set, in hertz.
    pub fn default_update_rate() -> (r: Binary64)
        ensures
            r == Binary64::of_whole(60),
    {
        Binary64::from_whole(60)
    }

    /// The exponent of a control's response where none is set.
    pub fn default_exponent() -> (r: Binary64)
        ensures
            r == Binary64::of_whole(3),
    {
        Binary64::from_whole(3)
    }
}

impl Default for CommonControlConfig {
    fn default() -> (r: CommonControlConfig)
        ensures
            r == CommonControlConfig::unset(),
    {
        CommonControlConfig {
            input: None,
            output: None,
            max_behavior: None,
            exponent: None,
            adjust_slope: None,
            update_rate: None,
        }
    }
}

impl Default for MaxBehavior {
    fn default() -> (r: MaxBehavior)
        ensures
            r == MaxBehavior::Saturate,
    {
        MaxBehavior::Saturate
    }
}

impl RangeConfig {
    /// The range from zero to one.
    pub open spec fn unit() -> RangeConfig {
        RangeConfig { lo: Binary64::of_whole(0), hi: Binary64::of_whole(1) }
    }
}

impl Default for RangeConfig {
    fn default() -> (r: RangeConfig)
        ensures
            r == RangeConfig::unit(),
    {
        RangeConfig { lo: Binary64::from_whole(0), hi: one() }
    }
}

impl Default for OptRangeConfig {
    fn default() -> (r: OptRangeConfig)
        ensures
            r == (OptRangeConfig { lo: None, hi: None }),
    {
        OptRangeConfig { lo: None, hi: None }
    }
}

/// Where nothing is set, each setting is left to its default, and a range runs
/// from zero to one.
pub proof fn unset_is_left_to_defaults()
    ensures
        CommonSensorConfig::unset().input is None,
        CommonSensorConfig::unset().poll_hz is None,
        CommonSensorConfig::unset().exponent is None,
        CommonControlConfig::unset().input is None,
        CommonControlConfig::unset().output is None,
        CommonControlConfig::unset().max_behavior is None,
        CommonControlConfig::unset().exponent is None,
        CommonControlConfig::unset().adjust_slope is None,
        CommonControlConfig::unset().update_rate is None,
        RangeConfig::unit().lo.bits == 0,
        RangeConfig::unit().hi.finite(),
        RangeConfig::unit().hi.value() == one_in_units(),
{
    lemma_whole_is_exact(0);
    lemma_whole_is_exact(1);
}

/// The configuration that a user starts from: the light sensor that the system
/// offers, and one backlight, whose device is to be filled in.
pub fn make_example() -> (r: Config)
    ensures
        r.sensor.driver == SensorBackendConfig::IioSensorProxy,
        r.sensor.common == CommonSensorConfig::unset(),
        r.controls.well_formed(),
        r.controls@.dom() == set!["backlight"@],
        r.controls@["backlight"@].common == CommonControlConfig::unset(),
        r.controls@["backlight"@].driver matches ControlBackendConfig::Backlight(b)
            && b.device@ == "my_backlight_device"@ && b.raw_max is None,
{
    let mut controls: Controls = Controls::new();
    controls.insert(
        "backlight".to_owned(),
        ControlConfig {
            driver: ControlBackendConfig::Backlight(
                BacklightConfig { device: "my_backlight_device".to_owned(), raw_max: None },
            ),
            common: CommonControlConfig::default(),
        },
    );
    Config {
        sensor: SensorConfig {
            driver: SensorBackendConfig::IioSensorProxy,
            common: CommonSensorConfig { input: None, poll_hz: None, exponent: None },
        },
        controls,
    }
}

} // verus!
