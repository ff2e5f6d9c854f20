use ambientwalrus::binary64::Binary64;
use ambientwalrus::config::{BacklightConfig, CommonControlConfig, ControlBackendConfig};
use ambientwalrus::control::{
    backlight_of, coarse_hysteresis, hysteresis, update_period, Action, Event, Seek, Seeker, Timer,
    REST_SECONDS,
};

const SECOND: u64 = 1_000_000_000;

fn b(x: f64) -> Binary64 {
    Binary64::from_bits(x.to_bits())
}

fn f(x: Binary64) -> f64 {
    f64::from_bits(x.to_bits())
}

fn at_rest(current: f64) -> Seeker {
    Seeker::new(&CommonControlConfig::default(), b(current), hysteresis())
}

fn reading(x: f64, now: u64) -> Event {
    Event::Reading { reading: Some(b(x)), now }
}

fn go(timer: Timer) -> Action {
    Action::Go { timer, apply: None }
}

#[test]
fn settings_have_their_defaults() {
    assert_eq!(f(hysteresis()), 0.01);
    assert_eq!(f(coarse_hysteresis()), 0.1);
    assert_eq!(REST_SECONDS, 60);
    assert_eq!(f(update_period(&CommonControlConfig::default())), 1.0 / 60.0);
    let mut common = CommonControlConfig::default();
    common.update_rate = Some(b(7.0));
    common.adjust_slope = Some(b(0.25));
    assert_eq!(f(update_period(&common)), 1.0 / 7.0);
    assert_eq!(f(Seeker::new(&common, b(0.0), hysteresis()).slope), 0.25);
    assert_eq!(f(at_rest(0.0).slope), 0.5);
}

#[test]
fn a_backlight_is_found_in_its_driver() {
    let c = BacklightConfig { device: "d".to_string(), raw_max: Some(3) };
    assert_eq!(backlight_of(ControlBackendConfig::Backlight(c.clone())), c);
}

#[test]
fn ticks_at_rest_do_nothing() {
    let mut s = at_rest(0.4);
    assert_eq!(s.step(Event::Tick { now: 5 }), go(Timer::Rest));
    assert_eq!(s, at_rest(0.4));
}

#[test]
fn small_changes_do_not_stir() {
    let mut s = at_rest(0.4);
    assert_eq!(s.step(reading(0.405, 5)), go(Timer::Keep));
    assert_eq!(s, at_rest(0.4));
}

#[test]
fn a_missing_reading_rests_only_what_rests() {
    let mut s = at_rest(0.4);
    assert_eq!(s.step(Event::Reading { reading: None, now: 1 }), go(Timer::Rest));
    assert_eq!(s, at_rest(0.4));
    s.step(reading(0.9, 2));
    let moving = s;
    assert_eq!(s.step(Event::Reading { reading: None, now: 3 }), go(Timer::Keep));
    assert_eq!(s, moving);
}

#[test]
fn cancelling_stops() {
    let mut s = at_rest(0.4);
    s.step(reading(0.9, 2));
    let moving = s;
    assert_eq!(s.step(Event::Cancelled), Action::Stop);
    assert_eq!(s, moving);
}

#[test]
fn a_large_change_starts_from_where_the_control_stands() {
    let mut s = at_rest(0.25);
    assert_eq!(s.step(reading(1.0, 10)), go(Timer::Restart));
    assert_eq!(s.seek, Some(Seek { target: b(1.0), begin_time: 10, begin_value: b(0.25) }));
    s.step(Event::Tick { now: 10 + SECOND / 2 });
    assert_eq!(f(s.current), 0.5);
    assert_eq!(s.step(reading(0.0, 99)), go(Timer::Keep));
    assert_eq!(s.seek, Some(Seek { target: b(0.0), begin_time: 99, begin_value: b(0.5) }));
    assert_eq!(f(s.current), 0.5);
}

#[test]
fn movement_follows_the_slope_and_ends_on_the_target() {
    let mut s = at_rest(1.0);
    s.step(reading(0.2, 0));
    let mut last = 1.0;
    for i in 1..=10u64 {
        let now = i * SECOND / 10;
        let t = std::time::Duration::from_nanos(now).as_secs_f64();
        let expected = (1.0f64 - t * 0.5).max(0.2);
        assert_eq!(
            s.step(Event::Tick { now }),
            Action::Go { timer: Timer::Keep, apply: Some(b(expected)) }
        );
        assert_eq!(f(s.current), expected);
        assert!(expected <= last && expected >= 0.2);
        last = expected;
    }
    assert_eq!(
        s.step(Event::Tick { now: 5 * SECOND }),
        Action::Go { timer: Timer::Keep, apply: Some(b(0.2)) }
    );
    assert_eq!(s.step(Event::Tick { now: 6 * SECOND }), go(Timer::Rest));
    assert_eq!(s.seek, None);
    assert_eq!(f(s.current), 0.2);
}

#[test]
fn movement_rises_as_it_falls() {
    let mut s = at_rest(0.0);
    s.step(reading(0.3, 0));
    s.step(Event::Tick { now: SECOND / 2 });
    assert_eq!(f(s.current), 0.25);
    s.step(Event::Tick { now: SECOND });
    assert_eq!(f(s.current), 0.3);
}

#[test]
fn coming_close_is_enough() {
    let mut s = Seeker::new(&CommonControlConfig::default(), b(0.5), coarse_hysteresis());
    s.step(reading(0.65, 0));
    s.step(Event::Tick { now: SECOND / 5 });
    let stood = s.current;
    assert_eq!(s.step(Event::Tick { now: SECOND }), go(Timer::Rest));
    assert_eq!(s.current, stood);
}

#[test]
fn a_clock_that_runs_back_covers_nothing() {
    let mut s = at_rest(0.0);
    s.step(reading(1.0, SECOND));
    s.step(Event::Tick { now: 0 });
    assert_eq!(f(s.current), 0.0);
}

#[test]
fn a_reading_that_is_no_number_is_followed_without_end() {
    let mut s = at_rest(0.5);
    assert_eq!(s.step(reading(f64::NAN, 0)), go(Timer::Restart));
    s.step(Event::Tick { now: SECOND });
    assert_eq!(f(s.current), 1.0);
}

#[test]
fn controls_stay_within_their_readings() {
    let mut s = at_rest(0.5);
    let mut now = 0;
    for i in 0..200u64 {
        let x = ((i * 37) % 101) as f64 / 100.0;
        s.step(reading(x, now));
        now += 40_000_000;
        s.step(Event::Tick { now });
        assert!((0.0..=1.0).contains(&f(s.current)));
    }
}

#[test]
fn a_settled_control_ignores_the_same_reading() {
    let mut s = at_rest(0.0);
    s.step(reading(0.5, 0));
    s.step(Event::Tick { now: 10 * SECOND });
    assert_eq!(s.step(Event::Tick { now: 11 * SECOND }), go(Timer::Rest));
    let settled = s;
    assert_eq!(s.step(reading(0.5, 12 * SECOND)), go(Timer::Keep));
    assert_eq!(s, settled);
}

fn moving(current: f64, begin: f64, target: f64, slope: f64, hysteresis: f64) -> Seeker {
    Seeker {
        current: b(current),
        seek: Some(Seek { target: b(target), begin_time: SECOND, begin_value: b(begin) }),
        slope: b(slope),
        hysteresis: b(hysteresis),
    }
}

#[test]
fn infinite_ends_and_slopes_do_not_turn_a_control_back() {
    let inf = f64::INFINITY;
    for begin in [-inf, -2.0, 0.0, 0.4, 3.0, inf] {
        for target in [-inf, -1.0, 0.0, 0.7, inf] {
            for slope in [0.0, 0.25, 1e308, inf] {
                let mut s = moving(begin, begin, target, slope, 0.01);
                let falls = begin > target;
                let mut last = begin;
                for i in 0..8u64 {
                    s.step(Event::Tick { now: SECOND + i * SECOND / 2 });
                    let stands = f(s.current);
                    if falls {
                        assert!(target <= stands && stands <= last, "{begin} {target} {slope}");
                    } else {
                        assert!(last <= stands && stands <= target, "{begin} {target} {slope}");
                    }
                    last = stands;
                }
            }
        }
    }
}

#[test]
fn without_a_hysteresis_a_control_stays_on_its_target() {
    let mut s = moving(1.0, 1.0, 0.5, 0.25, 0.0);
    for i in 1..=10u64 {
        s.step(Event::Tick { now: SECOND + i * SECOND });
        assert_eq!(f(s.current), (1.0 - 0.25 * i as f64).max(0.5));
    }
    assert!(s.seek.is_some());
    // One that has not begun above its target would turn back.
    let mut odd = moving(1.0, 0.0, 0.5, 0.25, 0.0);
    odd.step(Event::Tick { now: 2 * SECOND });
    assert_eq!(f(odd.current), 0.5);
    odd.step(Event::Tick { now: 2 * SECOND });
    assert_eq!(f(odd.current), 0.25);
}

#[test]
fn an_infinite_slope_arrives_at_once() {
    let mut s = moving(0.0, 0.0, 0.75, f64::INFINITY, 0.01);
    s.step(Event::Tick { now: SECOND });
    assert_eq!(f(s.current), 0.75);
    assert_eq!(s.step(Event::Tick { now: SECOND + 1 }), go(Timer::Rest));
    let mut far = moving(f64::INFINITY, f64::INFINITY, 0.75, f64::INFINITY, 0.01);
    far.step(Event::Tick { now: 2 * SECOND });
    assert_eq!(f(far.current), 0.75);
}

#[test]
fn an_infinite_beginning_is_not_left_with_a_finite_slope() {
    let mut s = moving(f64::INFINITY, f64::INFINITY, 0.75, 0.5, 0.01);
    s.step(Event::Tick { now: 100 * SECOND });
    assert_eq!(f(s.current), f64::INFINITY);
}

#[test]
fn a_control_that_is_close_rests_until_a_reading_comes() {
    let mut s = moving(0.5, 0.5, 0.65, 0.5, 0.1);
    s.step(Event::Tick { now: SECOND + SECOND / 5 });
    let stood = s.current;
    assert_eq!(s.step(Event::Reading { reading: None, now: SECOND }), go(Timer::Keep));
    for i in 0..50u64 {
        assert_eq!(s.step(Event::Tick { now: (2 + i) * SECOND }), go(Timer::Rest));
        assert_eq!(s.step(Event::Reading { reading: None, now: SECOND }), go(Timer::Rest));
        assert_eq!(s.seek, None);
        assert_eq!(s.current, stood);
    }
    assert_eq!(s.step(Event::Cancelled), Action::Stop);
    assert_eq!(s.step(reading(0.1, 60 * SECOND)), go(Timer::Restart));
    assert!(s.seek.is_some());
}

#[test]
fn a_control_arrives_after_the_seconds_its_slope_takes() {
    // Two full seconds at half a range a second cover any way of one.
    for (begin, target) in [(0.0, 1.0), (1.0, 0.0), (0.3, 0.9), (0.9, 0.1)] {
        let mut s = moving(begin, begin, target, 0.5, 0.01);
        s.step(Event::Tick { now: 3 * SECOND });
        assert_eq!(f(s.current), target);
        assert_eq!(s.step(Event::Tick { now: 4 * SECOND }), go(Timer::Rest));
    }
}

#[test]
fn the_distance_covered_grows() {
    let mut last = 0.0;
    for i in 0..100u64 {
        let mut s = moving(0.0, 0.0, f64::INFINITY, 0.3, 0.01);
        s.step(Event::Tick { now: i * SECOND / 20 });
        assert!(f(s.current) >= last);
        last = f(s.current);
    }
    assert!(last > 1.0);
}
