//! Spans of time in nanoseconds, read as seconds.

use crate::binary64::accuracy::{
    nearest_is_accurate, over_rounds_exact_quotient, rounded_ratio, rounded_units_are_accurate,
};
use crate::binary64::arithmetic::{lemma_nearest_of_ratio, lemma_whole_is_exact};
use crate::binary64::laws::{
    exact_units_round_to_themselves, numbers_lie_between_infinities, over_itself_is_one,
    over_keeps_order, plus_zero_is_the_same_number, quotient_rounds_exact_quotient, rounded_units,
    rounded_units_keep_order, sum_rounds_exact_sum, zero_over_is_zero,
};
use crate::binary64::model::{lemma_units_order, one_in_units, units, HIDDEN, INFINITE, SCALE};
use crate::binary64::order::lemma_zero_has_no_units;
use crate::binary64::Binary64;
use vstd::arithmetic::power2::*;
use vstd::math::abs;
use vstd::prelude::*;

verus! {

/// The nanoseconds in a second.
pub const NANOS_PER_SECOND: u64 = 1_000_000_000;

/// The fraction of a second in nanoseconds that do not fill one.
pub open spec fn fraction(nanos: nat) -> Binary64 {
    Binary64::of_whole(nanos).over(Binary64::of_whole(NANOS_PER_SECOND as nat))
}

/// A span in seconds: the full seconds, and the fraction over them.
pub open spec fn seconds(nanos: nat) -> Binary64 {
    Binary64::of_whole(nanos / (NANOS_PER_SECOND as nat)).plus(
        fraction(nanos % (NANOS_PER_SECOND as nat)),
    )
}

/// A span in seconds.
pub fn as_seconds(nanos: u64) -> (r: Binary64)
    ensures
        r == seconds(nanos as nat),
        r.finite(),
        0x8_0000_0000_0000 * abs(r.value() * NANOS_PER_SECOND - nanos * one_in_units()) <= nanos
            * one_in_units(),
{
    proof {
        seconds_keep_order(nanos, nanos);
        seconds_are_accurate(nanos);
    }
    let full: Binary64 = Binary64::from_whole(nanos / NANOS_PER_SECOND);
    let part: Binary64 = Binary64::from_whole(nanos % NANOS_PER_SECOND);
    full.sum(part.quotient(Binary64::from_whole(NANOS_PER_SECOND)))
}

proof fn lemma_fraction_keeps_order(a: nat, b: nat)
    requires
        a <= b <= NANOS_PER_SECOND,
    ensures
        fraction(a).finite(),
        0 <= fraction(a).value() <= fraction(b).value() <= one_in_units(),
{
    let n = NANOS_PER_SECOND as nat;
    let one = one_in_units();
    lemma_whole_is_exact(0);
    lemma_whole_is_exact(1);
    lemma_whole_is_exact(a);
    lemma_whole_is_exact(b);
    lemma_whole_is_exact(n);
    let z = Binary64::of_whole(0);
    let x = Binary64::of_whole(a);
    let y = Binary64::of_whole(b);
    let t = Binary64::of_whole(n);
    assert(z.value() <= x.value() <= y.value() <= t.value() && t.value() > 0) by (nonlinear_arith)
        requires
            z.value() == 0 * one,
            x.value() == a * one,
            y.value() == b * one,
            t.value() == n * one,
            a <= b <= n,
            n > 0,
            one > 0,
    {
    }
    over_keeps_order(z, x, t);
    over_keeps_order(x, y, t);
    over_keeps_order(y, t, t);
    zero_over_is_zero(z, t);
    over_itself_is_one(t);
    lemma_zero_has_no_units(fraction(a).magnitude());
    lemma_units_order(fraction(a).magnitude(), Binary64::of_whole(1).magnitude());
}

/// A span lies between its full seconds and one more.
proof fn lemma_seconds_bounds(a: u64)
    ensures
        seconds(a as nat).finite(),
        ({
            let q = a as nat / NANOS_PER_SECOND as nat;
            let r = a as nat % NANOS_PER_SECOND as nat;
            &&& q * one_in_units() <= seconds(a as nat).value() <= (q + 1) * one_in_units()
            &&& seconds(a as nat).value() == rounded_units(
                q * one_in_units() + fraction(r).value(),
            )
        }),
{
    let one = one_in_units();
    let q = a as nat / NANOS_PER_SECOND as nat;
    let r = a as nat % NANOS_PER_SECOND as nat;
    lemma_whole_is_exact(q);
    lemma_whole_is_exact(q + 1);
    lemma_fraction_keeps_order(r, r);
    let low = Binary64::of_whole(q);
    let high = Binary64::of_whole(q + 1);
    let s = seconds(a as nat);
    sum_rounds_exact_sum(low, fraction(r));
    exact_units_round_to_themselves(low);
    exact_units_round_to_themselves(high);
    assert((q + 1) * one == q * one + one) by (nonlinear_arith);
    rounded_units_keep_order(low.value(), low.value() + fraction(r).value());
    rounded_units_keep_order(low.value() + fraction(r).value(), high.value());
    assert(q * one >= 0) by (nonlinear_arith);
    lemma_zero_has_no_units(s.magnitude());
    lemma_units_order(s.magnitude(), high.magnitude());
}

/// A longer span is no fewer seconds, and no span is fewer than none.
pub proof fn seconds_keep_order(a: u64, b: u64)
    requires
        a <= b,
    ensures
        seconds(a as nat).finite(),
        seconds(b as nat).finite(),
        0 <= seconds(a as nat).value() <= seconds(b as nat).value(),
{
    let one = one_in_units();
    let n = NANOS_PER_SECOND as nat;
    let qa = a as nat / n;
    let qb = b as nat / n;
    lemma_seconds_bounds(a);
    lemma_seconds_bounds(b);
    assert(qa * one >= 0) by (nonlinear_arith);
    if qa == qb {
        lemma_fraction_keeps_order(a as nat % n, b as nat % n);
        rounded_units_keep_order(
            qa * one + fraction(a as nat % n).value(),
            qb * one + fraction(b as nat % n).value(),
        );
    } else {
        assert((qa + 1) * one <= qb * one) by (nonlinear_arith)
            requires
                qa + 1 <= qb,
        ;
    }
}

/// Full seconds are counted exactly.
pub proof fn full_seconds_are_exact(n: nat)
    requires
        n * NANOS_PER_SECOND <= u64::MAX,
    ensures
        seconds(n * NANOS_PER_SECOND as nat).value() == n * one_in_units(),
{
    let a = n * NANOS_PER_SECOND as nat;
    assert(a / NANOS_PER_SECOND as nat == n && a % NANOS_PER_SECOND as nat == 0);
    lemma_whole_is_exact(0);
    lemma_whole_is_exact(n);
    lemma_whole_is_exact(NANOS_PER_SECOND as nat);
    zero_over_is_zero(Binary64::of_whole(0), Binary64::of_whole(NANOS_PER_SECOND as nat));
    plus_zero_is_the_same_number(Binary64::of_whole(n), fraction(0));
}

/// The fraction of a second is off by no more than its part of `2^-53`.
proof fn lemma_fraction_is_accurate(r: nat)
    requires
        r < NANOS_PER_SECOND,
    ensures
        0x20_0000_0000_0000 * abs(fraction(r).value() * NANOS_PER_SECOND - r * one_in_units()) <= r
            * one_in_units(),
{
    let n = NANOS_PER_SECOND as nat;
    let one = one_in_units();
    lemma_whole_is_exact(0);
    lemma_whole_is_exact(1);
    lemma_whole_is_exact(r);
    lemma_whole_is_exact(n);
    lemma_pow2_pos(SCALE as nat);
    lemma_fraction_keeps_order(r, r);
    let x = Binary64::of_whole(r);
    let t = Binary64::of_whole(n);
    assert(n * one > 0) by (nonlinear_arith)
        requires
            n > 0,
            one > 0,
    ;
    assert(r * one >= 0) by (nonlinear_arith);
    quotient_rounds_exact_quotient(x, t);
    let num = r * one;
    assert((num * one) * n == num * (n * one)) by (nonlinear_arith);
    lemma_nearest_of_ratio(num * one, n * one, num, n);
    if r == 0 {
        zero_over_is_zero(x, t);
        lemma_zero_has_no_units(0);
        assert(fraction(r).value() * n == 0 && 0 * one == 0) by (nonlinear_arith)
            requires
                fraction(r).value() == 0,
        ;
    } else {
        lemma2_to64();
        lemma2_to64_rest();
        lemma_pow2_adds(32, 52);
        lemma_pow2_strictly_increases(84, SCALE as nat);
        assert(num >= HIDDEN * n) by (nonlinear_arith)
            requires
                num == r * one,
                r >= 1,
                one >= 0x1_0000_0000 * 0x10_0000_0000_0000,
                n == 1_000_000_000,
                HIDDEN == 0x10_0000_0000_0000,
        ;
        lemma_units_order(Binary64::of_whole(1).magnitude(), INFINITE as nat);
        assert(num <= units(INFINITE as nat) * n) by (nonlinear_arith)
            requires
                num == r * one,
                r <= n,
                one <= units(INFINITE as nat),
        ;
        nearest_is_accurate(num, n);
    }
}

/// A span in seconds is off by no more than its part of `2^-51`.
pub proof fn seconds_are_accurate(nanos: u64)
    ensures
        0x8_0000_0000_0000 * abs(
            seconds(nanos as nat).value() * NANOS_PER_SECOND - nanos * one_in_units(),
        ) <= nanos * one_in_units(),
{
    let n = NANOS_PER_SECOND as int;
    let one = one_in_units();
    let q = nanos as nat / NANOS_PER_SECOND as nat;
    let r = nanos as nat % NANOS_PER_SECOND as nat;
    let f = fraction(r).value();
    let s = seconds(nanos as nat).value();
    lemma_seconds_bounds(nanos);
    lemma_fraction_is_accurate(r);
    lemma_fraction_keeps_order(r, r);
    lemma_whole_is_exact(q + 1);
    numbers_lie_between_infinities(Binary64::of_whole(q + 1));
    let exact = q * one + f;
    assert(q * one >= 0) by (nonlinear_arith);
    assert((q + 1) * one == q * one + one) by (nonlinear_arith);
    rounded_units_are_accurate(exact);
    let a = (q * one) * n;
    let b = r * one;
    assert(nanos * one == a + b) by (nonlinear_arith)
        requires
            nanos == q * n + r,
            a == (q * one) * n,
            b == r * one,
    ;
    assert(exact * n == a + f * n) by (nonlinear_arith)
        requires
            exact == q * one + f,
            a == (q * one) * n,
    ;
    assert((s - exact) * n == s * n - exact * n) by (nonlinear_arith);
    assert(0x20_0000_0000_0000 * abs((s - exact) * n) <= exact * n) by (nonlinear_arith)
        requires
            0x20_0000_0000_0000 * abs(s - exact) <= exact,
            n > 0,
            abs(s - exact) == if s >= exact { s - exact } else { exact - s },
            abs((s - exact) * n) == if (s - exact) * n >= 0 {
                (s - exact) * n
            } else {
                -((s - exact) * n)
            },
    ;
    assert(a >= 0 && b >= 0) by (nonlinear_arith)
        requires
            a == (q * one) * n,
            b == r * one,
            n > 0,
    ;
}

/// A span in seconds is the full seconds and the fraction that the rest makes of
/// one, each rounded.
pub proof fn seconds_are_full_ones_and_a_fraction(nanos: u64)
    ensures
        seconds(nanos as nat).value() == rounded_units(
            (nanos / NANOS_PER_SECOND) * one_in_units() + rounded_ratio(
                (nanos % NANOS_PER_SECOND) * one_in_units(),
                NANOS_PER_SECOND * one_in_units(),
            ),
        ),
{
    let r = nanos as nat % NANOS_PER_SECOND as nat;
    let n = NANOS_PER_SECOND as nat;
    lemma_seconds_bounds(nanos);
    lemma_whole_is_exact(r);
    lemma_whole_is_exact(n);
    lemma_pow2_pos(SCALE as nat);
    over_rounds_exact_quotient(Binary64::of_whole(r), Binary64::of_whole(n));
}

} // verus!
