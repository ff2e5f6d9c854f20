//! Moving a control toward the target that the sensor sets.

pub mod backlight_laws;
pub mod laws;
pub mod levels;
pub mod linux_backlight;
pub mod motion;

use crate::binary64::accuracy::{reciprocals, rounded_ratio};
use crate::binary64::arithmetic::{lemma_whole_has_magnitude, lemma_whole_is_exact};
use crate::binary64::model::{lemma_exact_rounds_to_itself, one_in_units, units, SCALE};
use crate::binary64::Binary64;
use crate::clock::{as_seconds, seconds};
use crate::config::{BacklightConfig, CommonControlConfig, ControlBackendConfig};
use vstd::arithmetic::power2::*;
use vstd::pervasive::unreached;
use vstd::prelude::*;

verus! {

/// How long the timer of a control that rests is put off, in seconds.
pub const REST_SECONDS: u64 = 60;

/// The backlight that a control drives.
pub fn backlight_of(driver: ControlBackendConfig) -> (r: BacklightConfig)
    requires
        driver is Backlight,
    ensures
        driver == ControlBackendConfig::Backlight(r),
{
    match driver {
        ControlBackendConfig::Backlight(c) => c,
        ControlBackendConfig::ThinkpadKeyboardBacklight => unreached(),
    }
}

/// How close to a target a control has to come before it stops.
pub fn hysteresis() -> (r: Binary64)
    ensures
        r == Binary64::of_ratio(1, 100),
{
    Binary64::from_ratio(1, 100)
}

/// The wider margin that the daemon runs its controls with.
pub fn coarse_hysteresis() -> (r: Binary64)
    ensures
        r == Binary64::of_ratio(1, 10),
{
    Binary64::from_ratio(1, 10)
}

/// The seconds between two updates of a moving control.
pub fn update_period(common: &CommonControlConfig) -> (r: Binary64)
    ensures
        r == Binary64::of_whole(1).over(
            match common.update_rate {
                Some(rate) => rate,
                None => Binary64::of_whole(60),
            },
        ),
        common.update_rate matches Some(rate) ==> {
            &&& rate.finite() && rate.value() != 0 ==> !r.nan() && r.value() == rounded_ratio(
                one_in_units() as int,
                rate.value(),
            )
            &&& rate.zero() ==> r.infinite() && r.negative() == rate.negative()
            &&& rate.infinite() ==> r.zero()
            &&& rate.nan() ==> r.nan()
        },
        common.update_rate is None ==> !r.nan() && r.value() == rounded_ratio(
            one_in_units() as int,
            60 * one_in_units() as int,
        ),
{
    proof {
        lemma_pow2_pos(SCALE as nat);
        lemma_whole_is_exact(1);
        lemma_whole_is_exact(60);
        reciprocals(Binary64::of_whole(60));
        if let Some(rate) = common.update_rate {
            reciprocals(rate);
        }
    }
    let rate: Binary64 = match common.update_rate {
        Some(rate) => rate,
        None => CommonControlConfig::default_update_rate(),
    };
    Binary64::from_whole(1).quotient(rate)
}

/// The slope where none is set is exactly half of the range in a second.
proof fn lemma_half_is_exact()
    ensures
        Binary64::of_ratio(5, 10).finite(),
        2 * Binary64::of_ratio(5, 10).value() == one_in_units(),
{
    let one = one_in_units();
    lemma2_to64();
    lemma_pow2_unfold(SCALE as nat);
    let mag = lemma_whole_has_magnitude(1, 1);
    assert(5 * one == units(mag) * 10);
    lemma_exact_rounds_to_itself(5 * one, 10, mag);
}

/// A movement in progress: where to, and when and where it began. Moments are
/// nanoseconds on the caller's clock.
#[derive(Copy, Clone, Debug, PartialEq, Eq)]
pub struct Seek {
    pub target: Binary64,
    pub begin_time: u64,
    pub begin_value: Binary64,
}

/// What a control is up to.
#[derive(Copy, Clone, Debug, PartialEq, Eq)]
pub struct Seeker {
    /// Where the control stands.
    pub current: Binary64,
    /// The movement in progress; none where the control rests.
    pub seek: Option<Seek>,
    /// What fraction of the full range it moves in a second.
    pub slope: Binary64,
    /// How close to the target it has to come before it stops.
    pub hysteresis: Binary64,
}

/// What can happen to a control.
#[derive(Copy, Clone, Debug, PartialEq, Eq)]
pub enum Event {
    /// It is told to stop for good.
    Cancelled,
    /// Its timer ticks.
    Tick { now: u64 },
    /// The sensor has a new reading, or has none.
    Reading { reading: Option<Binary64>, now: u64 },
}

/// What becomes of the timer.
#[derive(Copy, Clone, Debug, PartialEq, Eq, Structural)]
pub enum Timer {
    /// It runs on.
    Keep,
    /// It is put off by `REST_SECONDS`.
    Rest,
    /// It ticks at once.
    Restart,
}

/// What a control does about an event.
#[derive(Copy, Clone, Debug, PartialEq, Eq)]
pub enum Action {
    /// It ends.
    Stop,
    /// It goes on, after driving the hardware to a new position where there is
    /// one.
    Go { timer: Timer, apply: Option<Binary64> },
}

impl Seek {
    /// The distance that a movement has covered by a moment.
    pub open spec fn covered(self, slope: Binary64, now: u64) -> Binary64 {
        let nanos = if now >= self.begin_time {
            (now - self.begin_time) as nat
        } else {
            0
        };
        seconds(nanos).times(slope)
    }

    /// Where a downward movement stands at a moment: as far along as the slope
    /// takes it, and no further than the target.
    pub open spec fn falling(self, slope: Binary64, now: u64) -> Binary64 {
        self.begin_value.minus(self.covered(slope, now)).greater_of(self.target)
    }

    /// Where an upward movement stands at a moment.
    pub open spec fn rising(self, slope: Binary64, now: u64) -> Binary64 {
        self.begin_value.plus(self.covered(slope, now)).lesser_of(self.target)
    }
}

impl Seeker {
    /// How far the control stands above a position.
    pub open spec fn error(self, position: Binary64) -> Binary64 {
        self.current.minus(position)
    }

    /// The control is close enough to a position to rest.
    pub open spec fn close_to(self, position: Binary64) -> bool {
        self.error(position).modulus().less(self.hysteresis)
    }

    /// The control with another position and movement.
    pub open spec fn moved(self, current: Binary64, seek: Option<Seek>) -> Seeker {
        Seeker { current, seek, slope: self.slope, hysteresis: self.hysteresis }
    }

    /// Where a control that seeks stands when its timer ticks.
    pub open spec fn advanced(self, seek: Seek, now: u64) -> Binary64 {
        if Binary64::of_whole(0).less(self.error(seek.target)) {
            seek.falling(self.slope, now)
        } else {
            seek.rising(self.slope, now)
        }
    }

    /// A tick: a control that rests goes on resting, one that has come close
    /// comes to rest, and one that has not moves on.
    pub open spec fn ticks(self, now: u64, next: Seeker, action: Action) -> bool {
        match self.seek {
            None => {
                &&& next == self
                &&& action == Action::Go { timer: Timer::Rest, apply: None }
            },
            Some(seek) => if self.close_to(seek.target) {
                &&& next == self.moved(self.current, None)
                &&& action == Action::Go { timer: Timer::Rest, apply: None }
            } else {
                let to = self.advanced(seek, now);
                &&& next == self.moved(to, Some(seek))
                &&& action == Action::Go { timer: Timer::Keep, apply: Some(to) }
            },
        }
    }

    /// A reading: a control that rests ignores one that is close, and starts
    /// toward one that is not; one that moves takes the new target from where
    /// it stands.
    pub open spec fn reads(
        self,
        reading: Option<Binary64>,
        now: u64,
        next: Seeker,
        action: Action,
    ) -> bool {
        match reading {
            None => {
                &&& next == self
                &&& action == Action::Go {
                    timer: if self.seek is None {
                        Timer::Rest
                    } else {
                        Timer::Keep
                    },
                    apply: None,
                }
            },
            Some(target) => if self.seek is None && self.close_to(target) {
                &&& next == self
                &&& action == Action::Go { timer: Timer::Keep, apply: None }
            } else {
                &&& next == self.moved(
                    self.current,
                    Some(Seek { target, begin_time: now, begin_value: self.current }),
                )
                &&& action == Action::Go {
                    timer: if self.seek is None {
                        Timer::Restart
                    } else {
                        Timer::Keep
                    },
                    apply: None,
                }
            },
        }
    }

    /// What a control becomes and does at an event.
    pub open spec fn steps(self, event: Event, next: Seeker, action: Action) -> bool {
        match event {
            Event::Cancelled => next == self && action == Action::Stop,
            Event::Tick { now } => self.ticks(now, next, action),
            Event::Reading { reading, now } => self.reads(reading, now, next, action),
        }
    }

    /// A control at rest.
    pub fn new(common: &CommonControlConfig, current: Binary64, hysteresis: Binary64) -> (r: Seeker)
        ensures
            r.current == current,
            r.seek is None,
            r.slope == (match common.adjust_slope {
                Some(slope) => slope,
                None => Binary64::of_ratio(5, 10),
            }),
            common.adjust_slope matches Some(slope) ==> r.slope == slope,
            common.adjust_slope is None ==> r.slope.finite() && 2 * r.slope.value()
                == one_in_units(),
            r.hysteresis == hysteresis,
    {
        proof {
            lemma_half_is_exact();
        }
        let slope: Binary64 = match common.adjust_slope {
            Some(slope) => slope,
            None => CommonControlConfig::default_adjust_slope(),
        };
        Seeker { current, seek: None, slope, hysteresis }
    }

    /// Whether the control is close enough to a position to rest.
    fn is_close_to(&self, position: Binary64) -> (r: bool)
        ensures
            r == self.close_to(position),
    {
        self.current.difference(position).absolute().less_than(self.hysteresis)
    }

    /// Where a control that seeks stands when its timer ticks.
    fn position_at(&self, seek: Seek, now: u64) -> (r: Binary64)
        ensures
            r == self.advanced(seek, now),
    {
        let nanos: u64 = if now >= seek.begin_time {
            now - seek.begin_time
        } else {
            0
        };
        let covered: Binary64 = as_seconds(nanos).product(self.slope);
        let error: Binary64 = self.current.difference(seek.target);
        if Binary64::from_whole(0).less_than(error) {
            seek.begin_value.difference(covered).larger(seek.target)
        } else {
            seek.begin_value.sum(covered).smaller(seek.target)
        }
    }

    /// Takes an event and says what to do about it.
    pub fn step(&mut self, event: Event) -> (action: Action)
        ensures
            old(self).steps(event, *final(self), action),
            event matches Event::Reading { reading: Some(target), now } ==> {
                &&& final(self).current == old(self).current
                &&& old(self).seek is Some ==> final(self).seek is Some
                &&& final(self).seek matches Some(movement) ==> movement.target == target
                    && movement.begin_time == now && movement.begin_value == old(self).current
            },
            event is Tick ==> final(self).seek is None || final(self).seek == old(self).seek,
            final(self).slope == old(self).slope,
            final(self).hysteresis == old(self).hysteresis,
    {
        match event {
            Event::Cancelled => Action::Stop,
            Event::Tick { now } => match self.seek {
                None => Action::Go { timer: Timer::Rest, apply: None },
                Some(seek) => {
                    if self.is_close_to(seek.target) {
                        self.seek = None;
                        Action::Go { timer: Timer::Rest, apply: None }
                    } else {
                        self.current = self.position_at(seek, now);
                        Action::Go { timer: Timer::Keep, apply: Some(self.current) }
                    }
                },
            },
            Event::Reading { reading, now } => {
                let resting: bool = self.seek.is_none();
                match reading {
                    None => Action::Go {
                        timer: if resting {
                            Timer::Rest
                        } else {
                            Timer::Keep
                        },
                        apply: None,
                    },
                    Some(target) => {
                        if resting && self.is_close_to(target) {
                            return Action::Go { timer: Timer::Keep, apply: None };
                        }
                        self.seek = Some(
                            Seek { target, begin_time: now, begin_value: self.current },
                        );
                        Action::Go {
                            timer: if resting {
                                Timer::Restart
                            } else {
                                Timer::Keep
                            },
                            apply: None,
                        }
                    },
                }
            },
        }
    }
}

} // verus!
