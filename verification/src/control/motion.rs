//! How a control moves: when it starts, when it stops, and how fast it goes in
//! between.

use super::laws::lemma_direction;
use super::{Action, Event, Seek, Seeker, Timer};
use crate::binary64::accuracy::{
    modulus_has_no_sign, nearest_is_accurate, rounded_product, rounded_units_are_accurate,
    special_sums, times_rounds_exact_product, units_double,
};
use crate::binary64::laws::{
    exact_units_round_to_themselves, numbers_lie_between_infinities, opposite_flips_value,
    rounded_units, rounded_units_keep_order, sum_rounds_exact_sum,
};
use crate::binary64::model::{
    lemma_units_order, nearest, one_in_units, units, HIDDEN, INFINITE, SCALE,
};
use crate::binary64::order::lemma_zero_has_no_units;
use crate::binary64::Binary64;
use crate::clock::{seconds, seconds_are_accurate, seconds_keep_order, NANOS_PER_SECOND};
use vstd::arithmetic::power2::lemma_pow2_pos;
use vstd::math::abs;
use vstd::prelude::*;

verus! {

/// A control is close to a position where the distance between them, as
/// rounded, is below the hysteresis. Nothing is close to an infinity.
pub proof fn lemma_close_by_value(seeker: Seeker, position: Binary64)
    ensures
        seeker.close_to(position) <==> seeker.current.finite() && position.finite()
            && !seeker.hysteresis.nan() && abs(
            rounded_units(seeker.current.value() - position.value()),
        ) < seeker.hysteresis.value(),
{
    let c = seeker.current;
    let e = seeker.error(position);
    opposite_flips_value(position);
    modulus_has_no_sign(e);
    special_sums(c, position.opposite());
    if c.finite() && position.finite() {
        sum_rounds_exact_sum(c, position.opposite());
    } else if !seeker.hysteresis.nan() {
        numbers_lie_between_infinities(seeker.hysteresis);
    }
}

/// A control that rests does nothing at a tick but rest on.
pub proof fn ticks_at_rest_change_nothing(seeker: Seeker, now: u64, next: Seeker, action: Action)
    requires
        seeker.seek is None,
        seeker.steps(Event::Tick { now }, next, action),
    ensures
        next == seeker,
        action == (Action::Go { timer: Timer::Rest, apply: None }),
{
}

/// A tick brings a moving control to rest where its distance from the target, as
/// rounded, is below the hysteresis, and so the distance itself is. Else it
/// leaves the movement as it is, and the hardware is driven to where the control
/// then stands.
pub proof fn stops_within_the_hysteresis(
    seeker: Seeker,
    seek: Seek,
    now: u64,
    next: Seeker,
    action: Action,
)
    requires
        seeker.seek == Some(seek),
        seeker.steps(Event::Tick { now }, next, action),
    ensures
        next.seek is None <==> seeker.current.finite() && seek.target.finite()
            && !seeker.hysteresis.nan() && abs(
            rounded_units(seeker.current.value() - seek.target.value()),
        ) < seeker.hysteresis.value(),
        next.seek is None ==> abs(seeker.current.value() - seek.target.value())
            < seeker.hysteresis.value(),
        next.seek is None ==> next.current == seeker.current && action == (Action::Go {
            timer: Timer::Rest,
            apply: None,
        }),
        next.seek is Some ==> next.seek == Some(seek) && action == (Action::Go {
            timer: Timer::Keep,
            apply: Some(next.current),
        }),
{
    let e = seeker.current.value() - seek.target.value();
    let h = seeker.hysteresis;
    lemma_close_by_value(seeker, seek.target);
    if next.seek is None {
        exact_units_round_to_themselves(h);
        opposite_flips_value(h);
        exact_units_round_to_themselves(h.opposite());
        if e >= h.value() {
            rounded_units_keep_order(h.value(), e);
        }
        if e <= -h.value() {
            rounded_units_keep_order(e, -h.value());
        }
    }
}

/// Every reading is followed, but for one that a resting control is close to: a
/// movement toward it begins then and there, whatever movement was in progress.
/// Where there is no reading, nothing changes.
pub proof fn readings_are_followed(
    seeker: Seeker,
    reading: Option<Binary64>,
    now: u64,
    next: Seeker,
    action: Action,
)
    requires
        seeker.steps(Event::Reading { reading, now }, next, action),
    ensures
        next.current == seeker.current,
        next.slope == seeker.slope,
        next.hysteresis == seeker.hysteresis,
        reading matches Some(v) ==> {
            let near = seeker.current.finite() && v.finite() && !seeker.hysteresis.nan() && abs(
                rounded_units(seeker.current.value() - v.value()),
            ) < seeker.hysteresis.value();
            if seeker.seek is None && near {
                &&& next.seek is None
                &&& action == (Action::Go { timer: Timer::Keep, apply: None })
            } else {
                &&& next.seek matches Some(movement) && movement.target == v
                    && movement.begin_value == seeker.current && movement.begin_time == now
                &&& seeker.seek is None ==> action == (Action::Go {
                    timer: Timer::Restart,
                    apply: None,
                })
                &&& seeker.seek is Some ==> action == (Action::Go {
                    timer: Timer::Keep,
                    apply: None,
                })
            }
        },
        reading is None ==> {
            &&& next.seek == seeker.seek
            &&& seeker.seek is None ==> action == (Action::Go { timer: Timer::Rest, apply: None })
            &&& seeker.seek is Some ==> action == (Action::Go { timer: Timer::Keep, apply: None })
        },
{
    if let Some(v) = reading {
        lemma_close_by_value(seeker, v);
    }
}

/// The newest reading wins: what came before it leaves no trace in a movement.
pub proof fn the_newest_reading_wins(
    a: Seeker,
    b: Seeker,
    v: Binary64,
    now: u64,
    after_a: Seeker,
    action_a: Action,
    after_b: Seeker,
    action_b: Action,
)
    requires
        a.current == b.current,
        a.seek is Some,
        b.seek is Some,
        a.steps(Event::Reading { reading: Some(v), now }, after_a, action_a),
        b.steps(Event::Reading { reading: Some(v), now }, after_b, action_b),
    ensures
        after_a.seek == after_b.seek,
        after_a.current == after_b.current,
        action_a == action_b,
        after_a.seek matches Some(movement) && movement.target == v,
{
}

/// While it moves, a control stands where its beginning and the distance that
/// the slope makes of the time since put it, each rounded, but no further than
/// its target. A distance past all finite ones takes it to the target.
pub proof fn follows_the_slope(
    seeker: Seeker,
    seek: Seek,
    now: u64,
    next: Seeker,
    action: Action,
)
    requires
        seeker.seek == Some(seek),
        !seeker.current.nan(),
        !seek.target.nan(),
        seek.begin_value.finite(),
        seeker.slope.finite(),
        seeker.steps(Event::Tick { now }, next, action),
        next.seek is Some,
    ensures
        ({
            let elapsed = if now >= seek.begin_time {
                now - seek.begin_time
            } else {
                0
            };
            let way = rounded_product(seconds(elapsed as nat).value(), seeker.slope.value());
            let begin = seek.begin_value.value();
            let target = seek.target.value();
            let down = rounded_units(begin - way);
            let up = rounded_units(begin + way);
            &&& !next.current.nan()
            &&& abs(way) < units(INFINITE as nat) && seeker.current.value() > target
                ==> next.current.value() == if down < target {
                target
            } else {
                down
            }
            &&& abs(way) < units(INFINITE as nat) && seeker.current.value() <= target
                ==> next.current.value() == if up > target {
                target
            } else {
                up
            }
            &&& way >= units(INFINITE as nat) ==> next.current.value() == target
        }),
{
    let elapsed: u64 = if now >= seek.begin_time {
        (now - seek.begin_time) as u64
    } else {
        0
    };
    let s = seconds(elapsed as nat);
    let c = seek.covered(seeker.slope, now);
    let b = seek.begin_value;
    lemma_direction(seeker, seek);
    seconds_keep_order(elapsed, elapsed);
    times_rounds_exact_product(s, seeker.slope);
    opposite_flips_value(c);
    lemma_units_order(c.magnitude(), INFINITE as nat);
    lemma_zero_has_no_units(c.magnitude());
    numbers_lie_between_infinities(c);
    numbers_lie_between_infinities(seek.target);
    special_sums(b, c);
    special_sums(b, c.opposite());
    if c.finite() {
        sum_rounds_exact_sum(b, c);
        sum_rounds_exact_sum(b, c.opposite());
    }
}

/// What a movement comes to with what is not finite. From what is not a number,
/// or with a slope that is none or infinite, a control jumps to its target. No
/// finite distance leads away from an infinite beginning. Toward what is not
/// a number a control rises without end.
pub proof fn moves_among_special_numbers(
    seeker: Seeker,
    seek: Seek,
    now: u64,
    next: Seeker,
    action: Action,
)
    requires
        seeker.seek == Some(seek),
        seeker.steps(Event::Tick { now }, next, action),
        next.seek is Some,
    ensures
        seek.begin_value.nan() || seeker.slope.nan() ==> next.current == seek.target || (
        seek.target.nan() && next.current.nan()),
        seeker.slope.infinite() && !seeker.slope.negative() && !seeker.current.nan()
            && !seek.target.nan() ==> next.current.equals(seek.target),
        seeker.slope.finite() ==> ({
            let elapsed = if now >= seek.begin_time {
                now - seek.begin_time
            } else {
                0
            };
            let way = rounded_product(seconds(elapsed as nat).value(), seeker.slope.value());
            abs(way) < units(INFINITE as nat) ==> {
                &&& seek.begin_value.infinite() && !seeker.current.nan() && !seek.target.nan()
                    ==> next.current.equals(
                    if seek.begin_value.negative() == (seeker.current.value()
                        > seek.target.value()) {
                        seek.target
                    } else {
                        seek.begin_value
                    },
                )
                &&& seek.begin_value.finite() && seek.target.nan() ==> next.current.value()
                    == rounded_units(seek.begin_value.value() + way)
            }
        }),
{
    let elapsed: u64 = if now >= seek.begin_time {
        (now - seek.begin_time) as u64
    } else {
        0
    };
    let s = seconds(elapsed as nat);
    let c = seek.covered(seeker.slope, now);
    let b = seek.begin_value;
    let t = seek.target;
    seconds_keep_order(elapsed, elapsed);
    lemma_zero_has_no_units(s.magnitude());
    lemma_zero_has_no_units(c.magnitude());
    opposite_flips_value(c);
    special_sums(b, c);
    special_sums(b, c.opposite());
    if !seeker.current.nan() && !t.nan() {
        lemma_direction(seeker, seek);
        numbers_lie_between_infinities(t);
        lemma_zero_has_no_units(INFINITE as nat);
    }
    if seeker.slope.finite() {
        times_rounds_exact_product(s, seeker.slope);
        lemma_units_order(c.magnitude(), INFINITE as nat);
        lemma_zero_has_no_units(INFINITE as nat);
        if b.finite() && c.finite() {
            sum_rounds_exact_sum(b, c);
        }
    }
}

/// Bounds on a rounded product of a rounded span and a slope, free of the scale.
proof fn lemma_way_bounds(c: int, s: int, slope: int, t: int, one: int, n: int)
    requires
        one > 0,
        n > 0,
        slope >= 0,
        s >= 0,
        0x20_0000_0000_0000 * abs(c * one - s * slope) <= s * slope + 0x10_0000_0000_0000 * one,
        0x8_0000_0000_0000 * abs(s * n - t * one) <= t * one,
    ensures
        0x4_0000_0000_0000 * (c * n) <= 0x4_0000_0000_0001 * (t * slope)
            + 0x4_0000_0000_0000 * n,
        0x4_0000_0000_0000 * (c * n) + 0x4_0000_0000_0000 * n >= 0x3_FFFF_FFFF_FFFF * (t
            * slope),
{
    let y = t * slope;
    let p = s * slope;
    // The product of the span and the slope.
    assert(0x8_0000_0000_0000 * (p * n) <= 0x8_0000_0000_0001 * (y * one)) by (nonlinear_arith)
        requires
            0x8_0000_0000_0000 * (s * n) <= 0x8_0000_0000_0001 * (t * one),
            slope >= 0,
            y == t * slope,
            p == s * slope,
    ;
    assert(0x8_0000_0000_0000 * (p * n) >= 0x7_FFFF_FFFF_FFFF * (y * one)) by (nonlinear_arith)
        requires
            0x8_0000_0000_0000 * (s * n) >= 0x7_FFFF_FFFF_FFFF * (t * one),
            slope >= 0,
            y == t * slope,
            p == s * slope,
    ;
    // The product as rounded.
    let k = c * one;
    assert(0x20_0000_0000_0000 * (k * n) <= 0x20_0000_0000_0001 * (p * n)
        + 0x10_0000_0000_0000 * (one * n)) by (nonlinear_arith)
        requires
            0x20_0000_0000_0000 * k <= 0x20_0000_0000_0001 * p + 0x10_0000_0000_0000 * one,
            n > 0,
    ;
    assert(0x20_0000_0000_0000 * (k * n) + 0x10_0000_0000_0000 * (one * n) >= 0x1F_FFFF_FFFF_FFFF
        * (p * n)) by (nonlinear_arith)
        requires
            0x20_0000_0000_0000 * k + 0x10_0000_0000_0000 * one >= 0x1F_FFFF_FFFF_FFFF * p,
            n > 0,
    ;
    assert(p * n >= 0 && y * one >= 0) by (nonlinear_arith)
        requires
            p == s * slope,
            s >= 0,
            slope >= 0,
            n > 0,
            0x8_0000_0000_0000 * (p * n) <= 0x8_0000_0000_0001 * (y * one),
    ;
    assert(k * n == (c * n) * one) by (nonlinear_arith)
        requires
            k == c * one,
    ;
    assert(one * n == n * one) by (nonlinear_arith);
    let a = c * n;
    assert(0x4_0000_0000_0000 * (a * one) <= 0x4_0000_0000_0001 * (y * one)
        + 0x4_0000_0000_0000 * (n * one));
    assert(0x4_0000_0000_0000 * (a * one) + 0x4_0000_0000_0000 * (n * one) >= 0x3_FFFF_FFFF_FFFF
        * (y * one));
    assert(0x4_0000_0000_0000 * a <= 0x4_0000_0000_0001 * y + 0x4_0000_0000_0000 * n)
        by (nonlinear_arith)
        requires
            0x4_0000_0000_0000 * (a * one) <= 0x4_0000_0000_0001 * (y * one)
                + 0x4_0000_0000_0000 * (n * one),
            one > 0,
    ;
    assert(0x4_0000_0000_0000 * a + 0x4_0000_0000_0000 * n >= 0x3_FFFF_FFFF_FFFF * y)
        by (nonlinear_arith)
        requires
            0x4_0000_0000_0000 * (a * one) + 0x4_0000_0000_0000 * (n * one) >= 0x3_FFFF_FFFF_FFFF
                * (y * one),
            one > 0,
    ;
}

/// Where a control stands that began at `b` and has a distance `c` behind it, on
/// the way to a target.
proof fn lemma_position_bounds(b: Binary64, t: Binary64, c: int, falls: bool, at: int)
    requires
        b.finite(),
        t.finite(),
        c >= 0,
        falls ==> b.value() >= t.value(),
        !falls ==> b.value() <= t.value(),
        falls ==> at == if rounded_units(b.value() - c) < t.value() {
            t.value()
        } else {
            rounded_units(b.value() - c)
        },
        !falls ==> at == if rounded_units(b.value() + c) > t.value() {
            t.value()
        } else {
            rounded_units(b.value() + c)
        },
    ensures
        0x20_0000_0000_0000 * abs(at - b.value()) <= 0x20_0000_0000_0001 * c + abs(b.value()),
        at != t.value() ==> 0x20_0000_0000_0000 * abs(at - b.value()) + abs(b.value())
            >= 0x1F_FFFF_FFFF_FFFF * c,
{
    let e = if falls {
        b.value() - c
    } else {
        b.value() + c
    };
    numbers_lie_between_infinities(b);
    numbers_lie_between_infinities(t);
    exact_units_round_to_themselves(b);
    exact_units_round_to_themselves(t);
    if falls {
        rounded_units_keep_order(e, b.value());
        if e <= t.value() {
            rounded_units_keep_order(e, t.value());
        } else {
            rounded_units_are_accurate(e);
            rounded_units_keep_order(t.value(), e);
        }
    } else {
        rounded_units_keep_order(b.value(), e);
        if e >= t.value() {
            rounded_units_keep_order(t.value(), e);
        } else {
            rounded_units_are_accurate(e);
            rounded_units_keep_order(e, t.value());
        }
    }
}

/// A control moves at its slope: it is never further from where it began than
/// the slope makes of the time since, and until it has arrived it is no less
/// far, up to rounding. The rounding is a part of `2^-49` of the distance, a part
/// of `2^-49` of where it began, and two units.
pub proof fn keeps_to_the_slope(
    seeker: Seeker,
    seek: Seek,
    now: u64,
    next: Seeker,
    action: Action,
)
    requires
        seeker.seek == Some(seek),
        !seeker.current.nan(),
        seek.target.finite(),
        seek.begin_value.finite(),
        seeker.slope.finite(),
        seeker.slope.value() >= 0,
        seeker.current.value() > seek.target.value() ==> seek.begin_value.value()
            >= seek.target.value(),
        seeker.current.value() <= seek.target.value() ==> seek.begin_value.value()
            <= seek.target.value(),
        now >= seek.begin_time,
        // The distance is not past all finite ones.
        2 * ((now - seek.begin_time) * seeker.slope.value()) <= units(INFINITE as nat)
            * NANOS_PER_SECOND,
        seeker.steps(Event::Tick { now }, next, action),
        next.seek is Some,
    ensures
        ({
            let pace = (now - seek.begin_time) * seeker.slope.value();
            let moved = abs(next.current.value() - seek.begin_value.value()) * NANOS_PER_SECOND;
            let slack = (abs(seek.begin_value.value()) + 0x4_0000_0000_0000) * NANOS_PER_SECOND;
            &&& 0x2_0000_0000_0000 * moved <= 0x2_0000_0000_0001 * pace + slack
            &&& !next.current.equals(seek.target) ==> 0x2_0000_0000_0000 * moved + slack
                >= 0x1_FFFF_FFFF_FFFF * pace
        }),
{
    let n = NANOS_PER_SECOND as int;
    let one = one_in_units();
    let slope = seeker.slope.value();
    let t: u64 = (now - seek.begin_time) as u64;
    let s = seconds(t as nat).value();
    let p = s * slope;
    let b = seek.begin_value;
    let pace = t * slope;
    lemma_pow2_pos(SCALE as nat);
    seconds_are_accurate(t);
    seconds_keep_order(t, t);
    assert(p >= 0 && pace >= 0) by (nonlinear_arith)
        requires
            p == s * slope,
            s >= 0,
            pace == t * slope,
            t >= 0,
            slope >= 0,
    ;
    let top = units(INFINITE as nat);
    // The exact product is well below what rounds to an infinity.
    assert(p * 10 < (top * one) * 9 || top == 0) by {
        assert(0x8_0000_0000_0000 * (p * n) <= 0x8_0000_0000_0001 * (pace * one))
            by (nonlinear_arith)
            requires
                0x8_0000_0000_0000 * (s * n) <= 0x8_0000_0000_0001 * (t * one),
                slope >= 0,
                p == s * slope,
                pace == t * slope,
        ;
        assert(2 * (pace * one) <= (top * one) * n) by (nonlinear_arith)
            requires
                2 * pace <= top * n,
                one > 0,
        ;
        let z = top * one;
        lemma_zero_has_no_units(INFINITE as nat);
        assert(z > 0) by (nonlinear_arith)
            requires
                z == top * one,
                top > 0,
                one > 0,
        ;
        assert(p * 10 < z * 9) by (nonlinear_arith)
            requires
                0x8_0000_0000_0000 * (p * n) <= 0x8_0000_0000_0001 * (pace * one),
                2 * (pace * one) <= z * n,
                n == 1_000_000_000,
                z > 0,
        ;
    }
    lemma_zero_has_no_units(INFINITE as nat);
    assert(top * one > 0) by (nonlinear_arith)
        requires
            top > 0,
            one > 0,
    ;
    units_double(2 * HIDDEN as nat);
    lemma_units_order(2 * HIDDEN as nat, INFINITE as nat);
    nearest_is_accurate(p as nat, one);
    let c = units(nearest(p as nat, one)) as int;
    assert(c < top) by (nonlinear_arith)
        requires
            0x20_0000_0000_0000 * (c * one - p) <= p + 0x10_0000_0000_0000 * one,
            p * 10 < (top * one) * 9,
            one > 0,
            c >= 0,
            top >= 0x20_0000_0000_0000,
    ;
    lemma_way_bounds(c, s, slope, t as int, one as int, n);
    follows_the_slope(seeker, seek, now, next, action);
    lemma_position_bounds(
        b,
        seek.target,
        c,
        seeker.current.value() > seek.target.value(),
        next.current.value(),
    );
    let d = abs(next.current.value() - b.value());
    let cn = c * n;
    assert(0x20_0000_0000_0000 * (d * n) <= 0x20_0000_0000_0001 * cn + abs(b.value()) * n)
        by (nonlinear_arith)
        requires
            0x20_0000_0000_0000 * d <= 0x20_0000_0000_0001 * c + abs(b.value()),
            cn == c * n,
            n > 0,
    ;
    if next.current.value() != seek.target.value() {
        assert(0x20_0000_0000_0000 * (d * n) + abs(b.value()) * n >= 0x1F_FFFF_FFFF_FFFF
            * cn) by (nonlinear_arith)
            requires
                0x20_0000_0000_0000 * d + abs(b.value()) >= 0x1F_FFFF_FFFF_FFFF * c,
                cn == c * n,
                n > 0,
        ;
    }
    assert((abs(b.value()) + 0x4_0000_0000_0000) * n == abs(b.value()) * n + 0x4_0000_0000_0000 * n)
        by (nonlinear_arith);
    assert(abs(b.value()) * n >= 0) by (nonlinear_arith)
        requires
            n > 0,
    ;
}

/// From reading to position. A control that takes a reading stands, at any tick
/// after it, where it stood when the reading came, moved toward the reading by
/// the distance that the slope makes of the time since, each rounded, and no
/// further than the reading; what it was doing before does not matter.
pub proof fn readings_are_approached_at_the_slope(
    seeker: Seeker,
    v: Binary64,
    read: u64,
    middle: Seeker,
    first: Action,
    ticked: u64,
    next: Seeker,
    second: Action,
)
    requires
        seeker.current.finite(),
        v.finite(),
        seeker.slope.finite(),
        seeker.steps(Event::Reading { reading: Some(v), now: read }, middle, first),
        middle.steps(Event::Tick { now: ticked }, next, second),
    ensures
        ({
            let error = abs(rounded_units(seeker.current.value() - v.value()));
            let close = !seeker.hysteresis.nan() && error < seeker.hysteresis.value();
            let elapsed = if ticked >= read {
                ticked - read
            } else {
                0
            };
            let way = rounded_product(seconds(elapsed as nat).value(), seeker.slope.value());
            let from = seeker.current.value();
            let to = v.value();
            let down = rounded_units(from - way);
            let up = rounded_units(from + way);
            &&& close ==> next.seek is None && next.current == seeker.current && second == (
            Action::Go { timer: Timer::Rest, apply: None })
            &&& !close ==> second == (Action::Go { timer: Timer::Keep, apply: Some(next.current) })
            &&& !close && abs(way) < units(INFINITE as nat) && from > to ==> next.current.value()
                == if down < to {
                to
            } else {
                down
            }
            &&& !close && abs(way) < units(INFINITE as nat) && from <= to ==> next.current.value()
                == if up > to {
                to
            } else {
                up
            }
            &&& !close && way >= units(INFINITE as nat) ==> next.current.value() == to
        }),
{
    readings_are_followed(seeker, Some(v), read, middle, first);
    if let Some(seek) = middle.seek {
        stops_within_the_hysteresis(middle, seek, ticked, next, second);
        if next.seek is Some {
            follows_the_slope(middle, seek, ticked, next, second);
        }
    } else {
        ticks_at_rest_change_nothing(middle, ticked, next, second);
    }
}

} // verus!
