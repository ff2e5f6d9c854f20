use ambientwalrus::binary64::Binary64;
use ambientwalrus::config::{CommonSensorConfig, OptRangeConfig, SensorBackendConfig};
use ambientwalrus::sensor::iio_sensors_proxy::{
    asks_unit, check_ambient_light, poll_period, try_generate, LightSensor, SensorError,
    SensorEvent,
};

fn b(x: f64) -> Binary64 {
    Binary64::from_bits(x.to_bits())
}

fn f(x: Binary64) -> f64 {
    f64::from_bits(x.to_bits())
}

fn common(lo: Option<f64>, hi: Option<f64>) -> CommonSensorConfig {
    let mut c = CommonSensorConfig::default();
    c.input = Some(OptRangeConfig { lo: lo.map(b), hi: hi.map(b) });
    c
}

fn level(x: f64) -> SensorEvent {
    SensorEvent::Level(b(x))
}

#[test]
fn a_sensor_needs_ambient_light_support() {
    assert_eq!(check_ambient_light(true), Ok(()));
    let e = check_ambient_light(false).unwrap_err();
    assert_eq!(e, SensorError::NoAmbientLight);
    assert_eq!(e.message(), "no ambient light sensor supported");
}

#[test]
fn vendor_readings_go_up_to_255() {
    let s = LightSensor::new(&CommonSensorConfig::default(), "vendor").unwrap();
    assert_eq!(f(s.range.lo), 0.0);
    assert_eq!(f(s.range.hi), 255.0);
    assert_eq!(f(s.root), 1.0 / 3.0);
    assert_eq!(s.last, None);
}

#[test]
fn lux_readings_need_a_maximum() {
    let e = LightSensor::new(&CommonSensorConfig::default(), "lux").unwrap_err();
    assert_eq!(e, SensorError::LuxNeedsMax);
    assert_eq!(e.message(), "sensor with unit 'lux' requires sensor.input.hi to be specified");
    let s = LightSensor::new(&common(Some(10.0), Some(800.0)), "lux").unwrap();
    assert_eq!(f(s.range.lo), 10.0);
    assert_eq!(f(s.range.hi), 800.0);
}

#[test]
fn unknown_units_are_refused_unless_a_maximum_is_set() {
    let e = LightSensor::new(&common(Some(1.0), None), "candela").unwrap_err();
    assert_eq!(e, SensorError::UnrecognizedUnit("candela".to_string()));
    assert_eq!(e.message(), "unrecognized light sensor unit: candela");
    assert!(LightSensor::new(&common(None, Some(5.0)), "candela").is_ok());
}

#[test]
fn the_maximum_is_not_below_zero() {
    let e = LightSensor::new(&common(None, Some(-0.5)), "vendor").unwrap_err();
    assert_eq!(e, SensorError::NegativeMax);
    assert_eq!(e.message(), "sensor max must be greater than zero");
    assert!(LightSensor::new(&common(None, Some(0.0)), "vendor").is_ok());
    assert!(LightSensor::new(&common(None, Some(-0.0)), "vendor").is_ok());
    assert!(LightSensor::new(&common(None, Some(f64::NAN)), "vendor").is_ok());
}

#[test]
fn the_exponent_and_the_rate_are_turned_over() {
    let mut c = common(None, None);
    assert_eq!(f(poll_period(&c)), 1.0 / 0.2);
    c.exponent = Some(b(2.0));
    c.poll_hz = Some(b(4.0));
    assert_eq!(f(poll_period(&c)), 0.25);
    assert_eq!(f(LightSensor::new(&c, "vendor").unwrap().root), 0.5);
}

#[test]
fn readings_become_shares_of_full_light() {
    let c = common(Some(20.0), Some(500.0));
    for x in [-5.0, 0.0, 20.0, 33.3, 250.0, 499.9, 500.0, 1e9] {
        let mut s = LightSensor::new(&c, "lux").unwrap();
        let expected = ((x - 20.0f64) / (500.0 - 20.0)).clamp(0.0, 1.0);
        assert_eq!(f(s.take(level(x)).unwrap()), expected);
        assert_eq!(s.last, Some(b(x)));
    }
}

#[test]
fn more_light_is_no_lesser_share() {
    let mut s = LightSensor::new(&common(Some(3.0), Some(77.0)), "lux").unwrap();
    let mut last = 0.0;
    for i in 0..400 {
        let share = f(s.take(level(f64::from(i) / 4.0)).unwrap());
        assert!(share >= last && share <= 1.0);
        last = share;
    }
    assert_eq!(last, 1.0);
}

#[test]
fn repeats_and_failures_give_nothing() {
    let mut s = LightSensor::new(&CommonSensorConfig::default(), "vendor").unwrap();
    assert!(s.take(level(51.0)).is_some());
    let before = s;
    assert_eq!(s.take(level(51.0)), None);
    assert_eq!(s.take(SensorEvent::ChangesEnded), None);
    assert_eq!(s.take(SensorEvent::ChangeUnreadable), None);
    assert_eq!(s.take(SensorEvent::PollFailed), None);
    assert_eq!(s, before);
    assert!(s.take(level(52.0)).is_some());
    assert!(s.take(level(51.0)).is_some());
}

#[test]
fn the_zeros_are_one_reading_and_what_is_no_number_is_always_news() {
    let mut s = LightSensor::new(&CommonSensorConfig::default(), "vendor").unwrap();
    assert!(s.take(level(0.0)).is_some());
    assert_eq!(s.take(level(-0.0)), None);
    assert!(s.take(level(f64::NAN)).unwrap().is_nan());
    assert!(s.take(level(f64::NAN)).unwrap().is_nan());
}

#[test]
fn a_sensor_is_configured_by_what_the_proxy_answers() {
    assert!(asks_unit(Some(true)));
    assert!(!asks_unit(Some(false)));
    assert!(!asks_unit(None));
    assert_eq!(try_generate(None, Some("lux".to_string())), None);
    assert_eq!(try_generate(Some(false), Some("lux".to_string())), None);
    assert_eq!(try_generate(Some(true), None), None);
    let vendor = try_generate(Some(true), Some("vendor".to_string())).unwrap();
    assert_eq!(vendor.driver, SensorBackendConfig::IioSensorProxy);
    assert_eq!(vendor.common.poll_hz.map(f), Some(0.1));
    assert_eq!(vendor.common.exponent, None);
    assert_eq!(vendor.common.input, None);
    let lux = try_generate(Some(true), Some("lux".to_string())).unwrap();
    assert_eq!(lux.common.input, Some(OptRangeConfig { lo: None, hi: Some(b(1000.0)) }));
    assert!(LightSensor::new(&lux.common, "lux").is_ok());
}

#[test]
fn a_range_of_no_width_has_two_shares() {
    let c = common(Some(5.0), Some(5.0));
    for (x, share) in [(-2.0, 0.0), (4.0, 0.0), (5.5, 1.0), (f64::INFINITY, 1.0)] {
        let mut s = LightSensor::new(&c, "lux").unwrap();
        assert_eq!(f(s.take(level(x)).unwrap()), share);
    }
    let mut s = LightSensor::new(&c, "lux").unwrap();
    assert!(s.take(level(5.0)).unwrap().is_nan());
}

#[test]
fn an_infinite_range_is_all_dark() {
    let c = common(Some(0.0), Some(f64::INFINITY));
    for x in [0.0, 1.0, 1e308] {
        let mut s = LightSensor::new(&c, "lux").unwrap();
        assert_eq!(f(s.take(level(x)).unwrap()), 0.0);
    }
    let mut s = LightSensor::new(&c, "lux").unwrap();
    assert!(s.take(level(f64::INFINITY)).unwrap().is_nan());
}
