use ambientwalrus::binary64::Binary64;
use ambientwalrus::config::{
    BacklightConfig, CommonControlConfig, ControlBackendConfig, MaxBehavior, RangeConfig,
};
use ambientwalrus::control::linux_backlight::{try_generate, BacklightMap, Drive, Listed};

fn b(x: f64) -> Binary64 {
    Binary64::from_bits(x.to_bits())
}

fn f(x: Binary64) -> f64 {
    f64::from_bits(x.to_bits())
}

fn range(lo: f64, hi: f64) -> RangeConfig {
    RangeConfig { lo: b(lo), hi: b(hi) }
}

fn backlight(raw_max: Option<u32>) -> BacklightConfig {
    BacklightConfig { device: "d".to_string(), raw_max }
}

fn map(input: Option<RangeConfig>, output: Option<RangeConfig>, behavior: Option<MaxBehavior>) -> BacklightMap {
    let mut common = CommonControlConfig::default();
    common.input = input;
    common.output = output;
    common.max_behavior = behavior;
    BacklightMap::new(&common, &backlight(None), 1000)
}

fn level(m: &BacklightMap, x: f64) -> f64 {
    match m.drive(b(x)) {
        Drive::Off => panic!("off"),
        Drive::Level(l) => f(l),
    }
}

#[test]
fn what_is_unset_has_its_default() {
    let m = BacklightMap::new(&CommonControlConfig::default(), &backlight(None), 937);
    assert_eq!(m.input, RangeConfig::default());
    assert_eq!(m.output, RangeConfig::default());
    assert_eq!(m.max_behavior, MaxBehavior::Saturate);
    assert_eq!(f(m.exponent), 3.0);
    assert_eq!(f(m.root()), 1.0 / 3.0);
    assert_eq!(m.max, 937);
}

#[test]
fn what_is_set_is_taken() {
    let mut common = CommonControlConfig::default();
    common.exponent = Some(b(2.2));
    common.max_behavior = Some(MaxBehavior::Off);
    common.input = Some(range(0.1, 0.9));
    common.output = Some(range(0.2, 0.8));
    let m = BacklightMap::new(&common, &backlight(Some(50)), 937);
    assert_eq!(f(m.exponent), 2.2);
    assert_eq!(f(m.root()), 1.0 / 2.2);
    assert_eq!(m.max_behavior, MaxBehavior::Off);
    assert_eq!(m.input, range(0.1, 0.9));
    assert_eq!(m.output, range(0.2, 0.8));
    assert_eq!(m.max, 50);
}

#[test]
fn levels_are_mapped_from_range_to_range() {
    let m = map(Some(range(0.1, 0.7)), Some(range(0.25, 0.9)), None);
    for i in 0..=100 {
        let x = f64::from(i) / 80.0;
        let sample: f64 = if x > 0.7 { 0.7 } else { x };
        let place = ((sample - 0.1) / (0.7 - 0.1)).clamp(0.0, 1.0);
        assert_eq!(level(&m, x), place * (0.9 - 0.25) + 0.25);
    }
}

#[test]
fn unset_ranges_leave_positions_alone() {
    let m = map(None, None, None);
    for x in [0.0, 0.1, 1.0 / 3.0, 0.99, 1.0] {
        assert_eq!(level(&m, x), x);
    }
    assert_eq!(level(&m, -0.5), 0.0);
}

#[test]
fn above_the_input_range_a_backlight_saturates_or_goes_off() {
    let saturating = map(Some(range(0.0, 0.5)), None, Some(MaxBehavior::Saturate));
    assert_eq!(saturating.drive(b(0.6)), saturating.drive(b(0.5)));
    assert_eq!(saturating.drive(b(0.5)), Drive::Level(b(1.0)));
    let switching = map(Some(range(0.0, 0.5)), None, Some(MaxBehavior::Off));
    assert_eq!(switching.drive(b(0.6)), Drive::Off);
    assert_eq!(switching.drive(b(0.5)), Drive::Level(b(1.0)));
    assert_eq!(switching.brightness(None), 0);
}

#[test]
fn more_light_is_no_darker() {
    let m = map(Some(range(0.13, 0.71)), Some(range(0.2, 0.9)), None);
    let mut last_level = 0.0;
    let mut last_raw = 0;
    for i in 0..=1000 {
        let l = level(&m, f64::from(i) / 1000.0);
        assert!(l >= last_level);
        last_level = l;
        let raw = m.brightness(Some(b(l.powf(3.0))));
        assert!(raw >= last_raw && raw <= m.max);
        last_raw = raw;
    }
}

#[test]
fn brightness_is_the_nearest_step_and_never_past_the_maximum() {
    let m = map(None, None, None);
    for x in [0.0, 0.0004, 0.0005, 0.12345, 0.5, 0.9994, 0.9995, 1.0, 1.5, -0.5, 1e300] {
        let expected = u32::min((x * 1000.0f64).round() as u32, 1000);
        assert_eq!(m.brightness(Some(b(x))), expected, "{x}");
    }
    assert_eq!(m.brightness(Some(b(f64::NAN))), 0);
    assert_eq!(m.brightness(Some(b(f64::INFINITY))), 1000);
    assert_eq!(m.brightness(Some(b(1.0))), 1000);
}

#[test]
fn raw_brightness_reads_back() {
    for max in [1u32, 7, 255, 937, 96000, u32::MAX] {
        let mut m = map(None, None, None);
        m.max = max;
        for raw in [0, 1, max / 3, max / 2, max - 1, max] {
            assert_eq!(m.brightness(Some(m.start_fraction(raw))), raw, "{raw} of {max}");
        }
    }
}

#[test]
fn a_control_starts_where_the_backlight_is() {
    let m = map(None, Some(range(0.25, 0.75)), None);
    assert_eq!(f(m.start_fraction(0)), 0.0);
    assert_eq!(f(m.start_fraction(1000)), 1.0);
    assert_eq!(f(m.start_fraction(2000)), 1.0);
    assert_eq!(f(m.start_fraction(333)), 333.0 / 1000.0);
    assert_eq!(f(m.start_position(b(0.9))), 0.9 - 0.25 / (0.75 - 0.25));
    let mut none = m;
    none.max = 0;
    assert!(none.start_fraction(0).is_nan());
    assert_eq!(f(none.start_fraction(1)), 1.0);
}

fn named(s: &str) -> Listed {
    Listed::Named(s.to_string())
}

#[test]
fn a_control_is_made_for_each_backlight_listed() {
    let made = try_generate(Some(vec![
        named("intel"),
        Listed::Nameless,
        named("acpi_video0"),
        Listed::NotText,
        Listed::Broken,
        named("unseen"),
    ]));
    assert_eq!(made.len(), 2);
    for (entry, name) in made.iter().zip(["intel", "acpi_video0"]) {
        assert_eq!(entry.0, format!("backlight_{name}"));
        assert_eq!(
            entry.1.driver,
            ControlBackendConfig::Backlight(BacklightConfig { device: name.to_string(), raw_max: None })
        );
        assert_eq!(entry.1.common, CommonControlConfig::default());
    }
}

#[test]
fn no_list_gives_no_controls() {
    assert_eq!(try_generate(None), vec![]);
    assert_eq!(try_generate(Some(vec![])), vec![]);
    assert_eq!(try_generate(Some(vec![Listed::Broken, named("x")])), vec![]);
}

#[test]
fn levels_lie_in_the_output_range() {
    let exact = map(None, Some(range(0.25, 0.75)), None);
    assert_eq!(level(&exact, 0.0), 0.25);
    assert_eq!(level(&exact, 1.0), 0.75);
    // Here the width is rounded, and full level falls short of the high end.
    let (lo, hi) = (0.2, 0.9);
    let short = map(None, Some(range(lo, hi)), None);
    assert_eq!(level(&short, 0.0), lo);
    assert_eq!(level(&short, 1.0), (hi - lo) + lo);
    assert!(level(&short, 1.0) < hi);
}

#[test]
fn infinite_levels_are_the_darkest_and_the_brightest() {
    for max in [0, 1, 1000, u32::MAX] {
        let mut m = map(None, None, None);
        m.max = max;
        let mut last = 0;
        for x in [f64::NEG_INFINITY, -1e300, -0.0, 0.0, 1e-320, 0.3, 1.0, 1e300, f64::INFINITY] {
            let raw = m.brightness(Some(b(x)));
            assert!(raw >= last && raw <= max);
            last = raw;
        }
        assert_eq!(m.brightness(Some(b(f64::NEG_INFINITY))), 0);
        assert_eq!(m.brightness(Some(b(f64::INFINITY))), max);
    }
}

#[test]
fn raw_brightness_reads_back_through_a_root_and_a_power() {
    for max in [1u32, 7, 255, 937, 96000] {
        let mut m = map(None, None, None);
        m.max = max;
        for raw in [0, 1, max / 3, max / 2, max - 1, max] {
            let powered = f(m.start_fraction(raw)).powf(1.0 / 3.0).powf(3.0);
            assert_eq!(m.brightness(Some(b(powered))), raw, "{raw} of {max}");
        }
    }
    let mut none = map(None, None, None);
    none.max = 0;
    assert_eq!(none.brightness(Some(none.start_fraction(0))), 0);
}

#[test]
fn a_level_within_a_quarter_step_makes_the_step() {
    let m = map(None, None, None);
    assert_eq!(m.brightness(Some(b(0.49975))), 500);
    assert_eq!(m.brightness(Some(b(0.50025))), 500);
    assert_eq!(m.brightness(Some(b(-0.0))), 0);
    // More than half a step is too far.
    assert_eq!(m.brightness(Some(b(0.5006))), 501);
}

#[test]
fn a_turned_input_range_has_one_level() {
    let m = map(Some(range(0.8, 0.2)), Some(range(0.1, 0.5)), None);
    let full = level(&m, 0.2);
    for x in [-3.0, 0.0, 0.1, 0.5, 0.9, 40.0] {
        assert_eq!(level(&m, x), full);
    }
    // The output range may then be turned as well.
    let both = map(Some(range(0.8, 0.2)), Some(range(0.5, 0.1)), None);
    assert_eq!(level(&both, -3.0), level(&both, 40.0));
}

#[test]
fn an_infinite_output_range_is_no_darker_for_more() {
    let m = map(None, Some(range(0.5, f64::INFINITY)), None);
    assert!(level(&m, 0.0).is_nan());
    assert_eq!(level(&m, 0.1), f64::INFINITY);
    assert_eq!(level(&m, 1.0), f64::INFINITY);
}
