//! What holds of every control, whatever happens to it.

use super::{Action, Event, Seek, Seeker, Timer};
use crate::binary64::arithmetic::lemma_whole_is_exact;
use crate::binary64::laws::{
    difference_has_exact_sign, exact_units_round_to_themselves, greater_minus_lesser_is_positive,
    minus_turns_order, nearest_keeps_order, numbers_lie_between_infinities, plus_keeps_order,
    plus_zero_is_the_same_number, product_rounds_exact_product, rounded_units_keep_order,
    sum_rounds_exact_sum, times_keeps_order,
};
use crate::binary64::model::{
    lemma_exact_rounds_to_itself, lemma_units_order, one_in_units, SCALE,
};
use crate::binary64::order::lemma_zero_has_no_units;
use crate::binary64::Binary64;
use crate::clock::{full_seconds_are_exact, seconds, seconds_keep_order, NANOS_PER_SECOND};
use vstd::arithmetic::power2::lemma_pow2_pos;
use vstd::math::abs;
use vstd::prelude::*;

verus! {

/// The hardware is driven only by a tick, only while a movement is in progress,
/// and only to where the control then stands.
pub proof fn drives_only_while_seeking(
    seeker: Seeker,
    event: Event,
    next: Seeker,
    action: Action,
)
    requires
        seeker.steps(event, next, action),
    ensures
        action matches Action::Go { apply: Some(position), .. } ==> {
            &&& event is Tick
            &&& seeker.seek is Some
            &&& next.seek == seeker.seek
            &&& next.current == position
        },
{
}

/// A control stops when it is told to, and at no other event.
pub proof fn stops_only_when_cancelled(
    seeker: Seeker,
    event: Event,
    next: Seeker,
    action: Action,
)
    requires
        seeker.steps(event, next, action),
    ensures
        action is Stop <==> event is Cancelled,
        action is Stop ==> next == seeker,
{
}

/// A reading never makes a control jump: it stands where it stood, and a
/// movement toward the reading begins from there.
pub proof fn readings_never_jump(
    seeker: Seeker,
    reading: Option<Binary64>,
    now: u64,
    next: Seeker,
    action: Action,
)
    requires
        seeker.steps(Event::Reading { reading, now }, next, action),
    ensures
        next.current == seeker.current,
        next.seek != seeker.seek ==> next.seek == Some(
            Seek { target: reading->0, begin_time: now, begin_value: seeker.current },
        ),
        action matches Action::Go { apply: None, .. },
{
}

/// A control that rests does not stir for a reading within its hysteresis.
pub proof fn small_changes_are_ignored(
    seeker: Seeker,
    target: Binary64,
    now: u64,
    next: Seeker,
    action: Action,
)
    requires
        seeker.seek is None,
        seeker.close_to(target),
        seeker.steps(Event::Reading { reading: Some(target), now }, next, action),
    ensures
        next == seeker,
        action == (Action::Go { timer: Timer::Keep, apply: None }),
{
}

/// The slope and the hysteresis stay as they were set.
pub proof fn settings_stay(seeker: Seeker, event: Event, next: Seeker, action: Action)
    requires
        seeker.steps(event, next, action),
    ensures
        next.slope == seeker.slope,
        next.hysteresis == seeker.hysteresis,
{
}

/// A movement does not overshoot: a tick leaves the control on the side of the
/// target that it was on, or on the target. One that comes to rest stays where
/// it stands.
pub proof fn never_overshoots(seeker: Seeker, seek: Seek, now: u64, next: Seeker, action: Action)
    requires
        seeker.seek == Some(seek),
        !seeker.current.nan(),
        !seek.target.nan(),
        seeker.steps(Event::Tick { now }, next, action),
    ensures
        !next.current.nan(),
        next.seek is None ==> next.current == seeker.current,
        next.seek is Some && seeker.current.value() > seek.target.value() ==> next.current.value()
            >= seek.target.value(),
        next.seek is Some && seeker.current.value() <= seek.target.value() ==> next.current.value()
            <= seek.target.value(),
{
    lemma_direction(seeker, seek);
}

/// A control above its target falls, and any other rises.
pub proof fn lemma_direction(seeker: Seeker, seek: Seek)
    requires
        !seeker.current.nan(),
        !seek.target.nan(),
    ensures
        Binary64::of_whole(0).less(seeker.error(seek.target)) <==> seeker.current.value()
            > seek.target.value(),
{
    lemma_whole_is_exact(0);
    let c = seeker.current;
    let t = seek.target;
    if c.value() > t.value() {
        greater_minus_lesser_is_positive(c, t);
    } else if c.value() < t.value() {
        greater_minus_lesser_is_positive(t, c);
    } else if c.finite() && t.finite() {
        difference_has_exact_sign(c, t);
    } else {
        lemma_zero_has_no_units(c.magnitude());
        lemma_units_order(c.magnitude(), t.magnitude());
        assert(c.minus(t).nan());
    }
}

/// A control that stands on a target is close to it.
proof fn lemma_on_target_is_close(seeker: Seeker, target: Binary64)
    requires
        target.finite(),
        seeker.current.equals(target),
        Binary64::of_whole(0).less(seeker.hysteresis),
    ensures
        seeker.close_to(target),
{
    let c = seeker.current;
    lemma_whole_is_exact(0);
    lemma_units_order(c.magnitude(), target.magnitude());
}

/// A control that stands on its target comes to rest at the next tick.
pub proof fn rests_on_target(seeker: Seeker, seek: Seek, now: u64, next: Seeker, action: Action)
    requires
        seeker.seek == Some(seek),
        seek.target.finite(),
        seeker.current.equals(seek.target),
        Binary64::of_whole(0).less(seeker.hysteresis),
        seeker.steps(Event::Tick { now }, next, action),
    ensures
        next.seek is None,
        next.current == seeker.current,
        action == (Action::Go { timer: Timer::Rest, apply: None }),
{
    lemma_on_target_is_close(seeker, seek.target);
}

/// A run of a control: each event takes it from one state to the next.
pub open spec fn runs(states: Seq<Seeker>, events: Seq<Event>, actions: Seq<Action>) -> bool {
    &&& states.len() == events.len() + 1
    &&& actions.len() == events.len()
    &&& forall|i: int|
        0 <= i < events.len() ==> states[i].steps(#[trigger] events[i], states[i + 1], actions[i])
}

/// Once a tick leaves a control within the hysteresis of its target, the next
/// tick brings it to rest there, and nothing more is driven until a reading
/// comes.
pub proof fn rests_once_close(
    seeker: Seeker,
    seek: Seek,
    now: u64,
    first: Action,
    states: Seq<Seeker>,
    events: Seq<Event>,
    actions: Seq<Action>,
)
    requires
        seeker.seek == Some(seek),
        seeker.steps(Event::Tick { now }, states[0], first),
        states[0].close_to(seek.target),
        runs(states, events, actions),
        forall|i: int|
            0 <= i < events.len() ==> !(#[trigger] events[i] matches Event::Reading {
                reading: Some(_),
                ..
            }),
    ensures
        forall|i: int|
            0 <= i < states.len() ==> (#[trigger] states[i]).current == states[0].current,
        forall|i: int, j: int|
            0 <= j < i < states.len() && #[trigger] events[j] is Tick
                ==> (#[trigger] states[i]).seek is None,
        forall|i: int|
            0 <= i < actions.len() ==> !(#[trigger] actions[i] matches Action::Go {
                apply: Some(_),
                ..
            }),
        forall|i: int|
            0 <= i < actions.len() && events[i] is Tick ==> #[trigger] actions[i] == (Action::Go {
                timer: Timer::Rest,
                apply: None,
            }),
{
    assert forall|i: int| 0 <= i < states.len() implies (#[trigger] states[i]).current
        == states[0].current by {
        lemma_stays_close(seek, states, events, actions, i);
    }
    assert forall|i: int, j: int|
        0 <= j < i < states.len() && #[trigger] events[j] is Tick implies (
    #[trigger] states[i]).seek is None by {
        lemma_stays_close(seek, states, events, actions, i);
    }
    assert forall|i: int| 0 <= i < actions.len() implies ({
        &&& !(#[trigger] actions[i] matches Action::Go { apply: Some(_), .. })
        &&& events[i] is Tick ==> actions[i] == (Action::Go { timer: Timer::Rest, apply: None })
    }) by {
        lemma_stays_close(seek, states, events, actions, i);
    }
}

/// The states of such a run: none has moved, and each rests that comes after a
/// tick.
proof fn lemma_stays_close(
    seek: Seek,
    states: Seq<Seeker>,
    events: Seq<Event>,
    actions: Seq<Action>,
    at: int,
)
    requires
        states[0].seek is None || states[0].seek == Some(seek),
        states[0].close_to(seek.target),
        runs(states, events, actions),
        forall|i: int|
            0 <= i < events.len() ==> !(#[trigger] events[i] matches Event::Reading {
                reading: Some(_),
                ..
            }),
        0 <= at < states.len(),
    ensures
        states[at] == states[0] || states[at] == states[0].moved(states[0].current, None),
        forall|j: int| 0 <= j < at && #[trigger] events[j] is Tick ==> states[at].seek is None,
    decreases at,
{
    if at > 0 {
        lemma_stays_close(seek, states, events, actions, at - 1);
        assert(states[at - 1].steps(events[at - 1], states[at - 1 + 1], actions[at - 1]));
    }
}

/// A control that came to rest does not start again for the reading that it
/// moved to.
pub proof fn rests_until_readings_change(
    seeker: Seeker,
    seek: Seek,
    ticked: u64,
    middle: Seeker,
    first: Action,
    read: u64,
    next: Seeker,
    second: Action,
)
    requires
        seeker.seek == Some(seek),
        seeker.steps(Event::Tick { now: ticked }, middle, first),
        middle.seek is None,
        middle.steps(Event::Reading { reading: Some(seek.target), now: read }, next, second),
    ensures
        next == middle,
        second == (Action::Go { timer: Timer::Keep, apply: None }),
{
}

/// Once the slope has had the time to cover the way, a tick puts the control on
/// its target: between finite ends where the distance covered is as long as the
/// way, and between any where it is infinite or not a number.
pub proof fn arrives_in_time(seeker: Seeker, seek: Seek, now: u64, next: Seeker, action: Action)
    requires
        seeker.seek == Some(seek),
        !seeker.current.nan(),
        !seek.target.nan(),
        ({
            let covered = seek.covered(seeker.slope, now);
            let way = if seeker.current.value() > seek.target.value() {
                seek.begin_value.value() - seek.target.value()
            } else {
                seek.target.value() - seek.begin_value.value()
            };
            ||| covered.nan()
            ||| covered.infinite() && !covered.negative()
            ||| covered.finite() && seek.target.finite() && seek.begin_value.finite()
                && covered.value() >= way
        }),
        seeker.steps(Event::Tick { now }, next, action),
    ensures
        next.seek is Some ==> next.current.equals(seek.target),
{
    let c = seek.covered(seeker.slope, now);
    let b = seek.begin_value;
    let t = seek.target;
    lemma_direction(seeker, seek);
    if c.finite() {
        exact_units_round_to_themselves(t);
        sum_rounds_exact_sum(b, c.opposite());
        sum_rounds_exact_sum(b, c);
        if seeker.current.value() > t.value() {
            rounded_units_keep_order(b.value() - c.value(), t.value());
        } else {
            rounded_units_keep_order(t.value(), b.value() + c.value());
        }
    } else {
        numbers_lie_between_infinities(t);
    }
}

/// A control arrives after as many full seconds as its slope takes for a
/// distance that the way is no longer than, and is then close to its target.
pub proof fn arrives_after_full_seconds(
    seeker: Seeker,
    seek: Seek,
    distance: Binary64,
    full: nat,
    now: u64,
    next: Seeker,
    action: Action,
)
    requires
        seeker.seek == Some(seek),
        !seeker.current.nan(),
        seek.target.finite(),
        seek.begin_value.finite(),
        seeker.slope.finite(),
        seeker.slope.value() >= 0,
        Binary64::of_whole(0).less(seeker.hysteresis),
        distance.finite(),
        abs(seek.begin_value.value() - seek.target.value()) <= distance.value() <= full
            * seeker.slope.value(),
        seek.begin_time + full * NANOS_PER_SECOND <= now,
        seeker.steps(Event::Tick { now }, next, action),
    ensures
        next.seek is Some ==> next.current.equals(seek.target),
        next.close_to(seek.target),
{
    let one = one_in_units();
    let slope = seeker.slope.value();
    let d = distance.value();
    let nanos = (full * NANOS_PER_SECOND) as u64;
    let arrival = (seek.begin_time + nanos) as u64;
    let s = seconds(nanos as nat);
    lemma_pow2_pos(SCALE as nat);
    full_seconds_are_exact(full);
    seconds_keep_order(nanos, nanos);
    product_rounds_exact_product(s, seeker.slope);
    let x = s.value() * slope;
    assert((d * one) * one <= x * one) by (nonlinear_arith)
        requires
            x == (full * one) * slope,
            d <= full * slope,
    ;
    assert(d * one >= 0) by (nonlinear_arith)
        requires
            d >= 0,
    ;
    lemma_exact_rounds_to_itself((d * one) as nat, one, distance.magnitude());
    nearest_keeps_order((d * one) as nat, one, x as nat, one);
    lemma_covered_keeps_order(seek, seeker.slope, arrival, now);
    lemma_zero_has_no_units(seek.covered(seeker.slope, now).magnitude());
    arrives_in_time(seeker, seek, now, next, action);
    if next.seek is Some {
        lemma_on_target_is_close(next, seek.target);
    }
}

/// The distance that a movement covers grows with time, or stays, with a slope
/// that is not below zero. With a finite slope it is a number at every moment.
/// With an infinite one it is none until time has passed, and infinite from then
/// on.
pub proof fn lemma_covered_keeps_order(seek: Seek, slope: Binary64, early: u64, late: u64)
    requires
        !slope.nan(),
        slope.value() >= 0,
        early <= late,
    ensures
        slope.finite() ==> !seek.covered(slope, early).nan(),
        !seek.covered(slope, early).nan() ==> !seek.covered(slope, late).nan() && 0
            <= seek.covered(slope, early).value() <= seek.covered(slope, late).value(),
        seek.covered(slope, early).nan() && !seek.covered(slope, late).nan() ==> seek.covered(
            slope,
            late,
        ).infinite() && !seek.covered(slope, late).negative(),
{
    let a: u64 = if early >= seek.begin_time {
        (early - seek.begin_time) as u64
    } else {
        0
    };
    let b: u64 = if late >= seek.begin_time {
        (late - seek.begin_time) as u64
    } else {
        0
    };
    let s = seconds(a as nat);
    let t = seconds(b as nat);
    seconds_keep_order(a, b);
    times_keeps_order(s, t, slope);
    lemma_zero_has_no_units(s.magnitude());
    lemma_zero_has_no_units(t.magnitude());
    lemma_zero_has_no_units(slope.magnitude());
}

/// A falling control stands no lower than its target and, later, no higher than
/// before, and never higher than both where it began and its target.
proof fn lemma_falling(seek: Seek, slope: Binary64, early: u64, late: u64)
    requires
        !seek.target.nan(),
        slope.nan() || slope.value() >= 0,
        early <= late,
    ensures
        !seek.falling(slope, early).nan(),
        !seek.falling(slope, late).nan(),
        seek.target.value() <= seek.falling(slope, late).value() <= seek.falling(
            slope,
            early,
        ).value(),
        seek.falling(slope, early).value() <= seek.target.value() || seek.falling(
            slope,
            early,
        ).value() <= seek.begin_value.value(),
{
    let b = seek.begin_value;
    let c1 = seek.covered(slope, early);
    let c2 = seek.covered(slope, late);
    let z = Binary64::of_whole(0);
    if !b.nan() && !slope.nan() {
        lemma_covered_keeps_order(seek, slope, early, late);
        numbers_lie_between_infinities(seek.target);
        lemma_whole_is_exact(0);
        lemma_units_order(c2.magnitude(), c1.magnitude());
        plus_zero_is_the_same_number(b, z.opposite());
        if !c1.nan() {
            minus_turns_order(c1, c2, b);
            minus_turns_order(z, c1, b);
        }
    }
}

/// A rising control stands no higher than its target and, later, no lower than
/// before, and never lower than both where it began and its target.
proof fn lemma_rising(seek: Seek, slope: Binary64, early: u64, late: u64)
    requires
        !seek.target.nan(),
        slope.nan() || slope.value() >= 0,
        early <= late,
    ensures
        !seek.rising(slope, early).nan(),
        !seek.rising(slope, late).nan(),
        seek.rising(slope, early).value() <= seek.rising(slope, late).value()
            <= seek.target.value(),
        seek.rising(slope, early).value() >= seek.target.value() || seek.rising(
            slope,
            early,
        ).value() >= seek.begin_value.value(),
        seek.begin_value.nan() || slope.nan() ==> seek.rising(slope, early) == seek.target,
{
    let b = seek.begin_value;
    let c1 = seek.covered(slope, early);
    let c2 = seek.covered(slope, late);
    let z = Binary64::of_whole(0);
    if !b.nan() && !slope.nan() {
        lemma_covered_keeps_order(seek, slope, early, late);
        numbers_lie_between_infinities(seek.target);
        lemma_whole_is_exact(0);
        lemma_units_order(c2.magnitude(), c1.magnitude());
        plus_zero_is_the_same_number(b, z);
        if !c1.nan() {
            plus_keeps_order(c1, c2, b);
            plus_keeps_order(z, c1, b);
        }
    }
}

/// Later in a movement the way ahead is no longer: with a slope that is not
/// below zero, each tick leaves the control no further from its target than the
/// tick before did. For a control that falls this takes a hysteresis above zero,
/// which stops it on its target, or a beginning that is not below the target.
pub proof fn never_moves_away(
    seeker: Seeker,
    seek: Seek,
    early: u64,
    middle: Seeker,
    first: Action,
    late: u64,
    next: Seeker,
    second: Action,
)
    requires
        seeker.seek == Some(seek),
        !seeker.current.nan(),
        !seek.target.nan(),
        seeker.slope.nan() || seeker.slope.value() >= 0,
        Binary64::of_whole(0).less(seeker.hysteresis) || seek.begin_value.value()
            >= seek.target.value() || seeker.current.value() <= seek.target.value(),
        early <= late,
        seeker.steps(Event::Tick { now: early }, middle, first),
        middle.steps(Event::Tick { now: late }, next, second),
    ensures
        middle.seek is Some && seeker.current.value() > seek.target.value()
            ==> seek.target.value() <= next.current.value() <= middle.current.value(),
        middle.seek is Some && seeker.current.value() <= seek.target.value()
            ==> middle.current.value() <= next.current.value() <= seek.target.value(),
{
    if middle.seek is Some {
        let t = seek.target;
        lemma_direction(seeker, seek);
        lemma_direction(middle, seek);
        lemma_falling(seek, seeker.slope, early, late);
        lemma_rising(seek, seeker.slope, early, late);
        numbers_lie_between_infinities(seeker.current);
        numbers_lie_between_infinities(next.current);
        if middle.current.equals(t) && t.finite() && Binary64::of_whole(0).less(
            seeker.hysteresis,
        ) {
            rests_on_target(middle, seek, late, next, second);
        }
    }
}

/// A number between two bounds.
pub open spec fn lies(x: Binary64, low: Binary64, high: Binary64) -> bool {
    !x.nan() && low.value() <= x.value() <= high.value()
}

/// All that a control remembers lies between two bounds.
pub open spec fn lies_within(seeker: Seeker, low: Binary64, high: Binary64) -> bool {
    &&& lies(seeker.current, low, high)
    &&& seeker.seek matches Some(seek) ==> lies(seek.target, low, high) && lies(
        seek.begin_value,
        low,
        high,
    )
}

/// A control never leaves the range that its start and its readings span: what
/// lies between two bounds stays there, whatever happens, as long as the
/// readings do.
pub proof fn stays_within(
    seeker: Seeker,
    event: Event,
    next: Seeker,
    action: Action,
    low: Binary64,
    high: Binary64,
)
    requires
        seeker.slope.nan() || seeker.slope.value() >= 0,
        lies_within(seeker, low, high),
        event matches Event::Reading { reading: Some(target), .. } ==> lies(target, low, high),
        seeker.steps(event, next, action),
    ensures
        lies_within(next, low, high),
        action matches Action::Go { apply: Some(position), .. } ==> lies(position, low, high),
{
    if let Event::Tick { now } = event {
        if let Some(seek) = seeker.seek {
            lemma_falling(seek, seeker.slope, now, now);
            lemma_rising(seek, seeker.slope, now, now);
        }
    }
}

} // verus!
