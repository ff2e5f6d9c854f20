use ambientwalrus::config::controls::Controls;
use ambientwalrus::config::{
    make_example, one, BacklightConfig, CommonControlConfig, CommonSensorConfig,
    ControlBackendConfig, ControlConfig, MaxBehavior, OptRangeConfig, RangeConfig,
    SensorBackendConfig,
};

fn keyboard() -> ControlConfig {
    ControlConfig {
        driver: ControlBackendConfig::ThinkpadKeyboardBacklight,
        common: CommonControlConfig::default(),
    }
}

fn panel() -> ControlConfig {
    ControlConfig {
        driver: ControlBackendConfig::Backlight(BacklightConfig {
            device: "panel".to_string(),
            raw_max: Some(7),
        }),
        common: CommonControlConfig::default(),
    }
}

fn names(c: &Controls) -> Vec<&str> {
    c.entries.iter().map(|e| e.0.as_str()).collect()
}

#[test]
fn example_has_one_sensor_and_one_backlight() {
    let c = make_example();
    assert_eq!(c.sensor.driver, SensorBackendConfig::IioSensorProxy);
    assert_eq!(c.sensor.common, CommonSensorConfig::default());
    assert_eq!(names(&c.controls), vec!["backlight"]);
    assert_eq!(c.controls.entries[0].1, ControlConfig {
        driver: ControlBackendConfig::Backlight(BacklightConfig {
            device: "my_backlight_device".to_string(),
            raw_max: None,
        }),
        common: CommonControlConfig::default(),
    });
}

#[test]
fn defaults_are_the_documented_numbers() {
    assert_eq!(one().to_bits(), 1.0f64.to_bits());
    assert_eq!(CommonSensorConfig::default_poll_hz().to_bits(), 0.2f64.to_bits());
    assert_eq!(CommonSensorConfig::default_exponent().to_bits(), 3.0f64.to_bits());
    assert_eq!(CommonControlConfig::default_adjust_slope().to_bits(), 0.5f64.to_bits());
    assert_eq!(CommonControlConfig::default_update_rate().to_bits(), 60.0f64.to_bits());
    assert_eq!(CommonControlConfig::default_exponent().to_bits(), 3.0f64.to_bits());
    assert_eq!(MaxBehavior::default(), MaxBehavior::Saturate);
    assert_eq!(RangeConfig::default().lo.to_bits(), 0.0f64.to_bits());
    assert_eq!(RangeConfig::default().hi.to_bits(), 1.0f64.to_bits());
    assert_eq!(OptRangeConfig::default(), OptRangeConfig { lo: None, hi: None });
    assert_eq!(CommonControlConfig::default().output, None);
}

#[test]
fn controls_stand_in_order_of_names() {
    let mut c = Controls::new();
    let mut reference = std::collections::BTreeMap::new();
    for name in ["screen", "b", "", "ba", "a", "éclair", "zz", "Z", "b"] {
        c.insert(name.to_string(), keyboard());
        reference.insert(name.to_string(), keyboard());
    }
    let expected: Vec<&str> = reference.keys().map(|k| k.as_str()).collect();
    assert_eq!(names(&c), expected);
}

#[test]
fn a_name_holds_the_control_put_there_last() {
    let mut c = Controls::new();
    c.insert("x".to_string(), keyboard());
    c.insert("y".to_string(), keyboard());
    c.insert("x".to_string(), panel());
    assert_eq!(names(&c), vec!["x", "y"]);
    assert_eq!(c.entries[0].1, panel());
    assert_eq!(c.entries[1].1, keyboard());
}

#[test]
fn the_order_of_putting_controls_in_does_not_matter() {
    let mut forth = Controls::new();
    let mut back = Controls::new();
    for name in ["a", "ab", "b", "c"] {
        forth.insert(name.to_string(), keyboard());
    }
    for name in ["c", "b", "ab", "a"] {
        back.insert(name.to_string(), keyboard());
    }
    assert_eq!(forth, back);
}
