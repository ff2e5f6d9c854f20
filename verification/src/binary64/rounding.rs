//! Rounding a scaled whole number to the nearest magnitude.

use super::model::{
    lemma_rounds_in_bracket, lemma_rounds_past_finite, lemma_units_of_parts, rounds_to, units,
    HIDDEN, INFINITE,
};
use vstd::arithmetic::power2::*;
use vstd::prelude::*;

verus! {

/// A power of two that keeps every exponent met in rounding nonnegative.
pub(crate) open spec fn lift() -> nat {
    8192
}

/// One or nothing.
pub(crate) open spec fn bit(b: bool) -> nat {
    if b {
        1
    } else {
        0
    }
}

/// `num / den` units are `2^k` times the sum of `m`, a half where `half` says
/// so, and less than a half more, which is something where `rest` says so.
pub(crate) open spec fn splits(num: nat, den: nat, m: nat, half: bool, rest: bool, k: int) -> bool {
    let whole = 2 * m + bit(half);
    let step = den * pow2((lift() + k) as nat);
    let twice = 2 * (num * pow2(lift()));
    &&& whole * step <= twice < (whole + 1) * step
    &&& rest <==> whole * step < twice
}

/// Moving the lowest bit of the significand into the half bit.
proof fn lemma_split_shift(num: nat, den: nat, m: nat, half: bool, rest: bool, k: int)
    requires
        splits(num, den, m, half, rest, k),
        lift() + k >= 0,
    ensures
        splits(num, den, m / 2, m % 2 == 1, rest || half, k + 1),
{
    let p = den * pow2((lift() + k) as nat);
    let q = den * pow2((lift() + k + 1) as nat);
    lemma_pow2_unfold((lift() + k + 1) as nat);
    assert(q == 2 * p) by (nonlinear_arith)
        requires
            p == den * pow2((lift() + k) as nat),
            q == den * pow2((lift() + k + 1) as nat),
            pow2((lift() + k + 1) as nat) == 2 * pow2((lift() + k) as nat),
    ;
    let whole = 2 * m + bit(half);
    assert(2 * (m / 2) + bit(m % 2 == 1) == m);
    assert(whole * p == m * q + bit(half) * p) by (nonlinear_arith)
        requires
            q == 2 * p,
            whole == 2 * m + bit(half),
    ;
    assert((whole + 1) * p == m * q + (bit(half) + 1) * p) by (nonlinear_arith)
        requires
            q == 2 * p,
            whole == 2 * m + bit(half),
    ;
    assert((m + 1) * q == m * q + 2 * p) by (nonlinear_arith)
        requires
            q == 2 * p,
    ;
    assert(p > 0) by (nonlinear_arith)
        requires
            whole * p < (whole + 1) * p,
    ;
    if half {
        assert(bit(half) * p == p) by (nonlinear_arith)
            requires
                bit(half) == 1,
        ;
        assert((bit(half) + 1) * p == 2 * p) by (nonlinear_arith)
            requires
                bit(half) == 1,
        ;
    } else {
        assert(bit(half) * p == 0) by (nonlinear_arith)
            requires
                bit(half) == 0,
        ;
        assert((bit(half) + 1) * p == p) by (nonlinear_arith)
            requires
                bit(half) == 0,
        ;
    }
}

/// Doubling a significand that nothing follows.
proof fn lemma_split_double(num: nat, den: nat, m: nat, k: int)
    requires
        splits(num, den, m, false, false, k),
        lift() + k >= 1,
    ensures
        splits(num, den, 2 * m, false, false, k - 1),
{
    let p = den * pow2((lift() + k) as nat);
    let q = den * pow2((lift() + k - 1) as nat);
    lemma_pow2_unfold((lift() + k) as nat);
    assert(p == 2 * q) by (nonlinear_arith)
        requires
            p == den * pow2((lift() + k) as nat),
            q == den * pow2((lift() + k - 1) as nat),
            pow2((lift() + k) as nat) == 2 * pow2((lift() + k - 1) as nat),
    ;
    assert((2 * (2 * m)) * q == (2 * m) * p) by (nonlinear_arith)
        requires
            p == 2 * q,
    ;
    assert(p > 0) by (nonlinear_arith)
        requires
            (2 * m) * p < (2 * m + 1) * p,
    ;
    assert((2 * (2 * m) + 1) * q == (2 * (2 * m)) * q + q) by (nonlinear_arith);
}

/// A split at a nonnegative exponent, read without the lift.
proof fn lemma_split_plain(num: nat, den: nat, m: nat, half: bool, rest: bool, k: nat)
    requires
        splits(num, den, m, half, rest, k as int),
    ensures
        (2 * m + bit(half)) * (den * pow2(k)) <= 2 * num < (2 * m + bit(half) + 1) * (den * pow2(
            k,
        )),
        rest <==> (2 * m + bit(half)) * (den * pow2(k)) < 2 * num,
{
    let l = pow2(lift());
    let whole = 2 * m + bit(half);
    let c = den * pow2(k);
    lemma_pow2_pos(lift());
    lemma_pow2_adds(lift(), k);
    let step = den * pow2(lift() + k);
    assert(step == c * l) by (nonlinear_arith)
        requires
            step == den * pow2(lift() + k),
            pow2(lift() + k) == l * pow2(k),
            c == den * pow2(k),
    ;
    assert(whole * step == (whole * c) * l) by (nonlinear_arith)
        requires
            step == c * l,
    ;
    assert((whole + 1) * step == ((whole + 1) * c) * l) by (nonlinear_arith)
        requires
            step == c * l,
    ;
    let x = whole * c;
    let y = (whole + 1) * c;
    assert(x <= 2 * num && 2 * num < y && (x < 2 * num <==> x * l < 2 * (num * l)))
        by (nonlinear_arith)
        requires
            x * l <= 2 * (num * l),
            2 * (num * l) < y * l,
            l > 0,
    ;
}

/// A split with a full significand in the finite range rounds by its half bit,
/// by what follows that, and by parity.
proof fn lemma_split_rounds(num: nat, den: nat, m: nat, half: bool, rest: bool, k: nat)
    requires
        den > 0,
        splits(num, den, m, half, rest, k as int),
        k <= 2045,
        m < 2 * HIDDEN,
        k == 0 || m >= HIDDEN,
    ensures
        rounds_to(
            num,
            den,
            k * HIDDEN as nat + m + bit(half && (rest || m % 2 == 1)),
        ),
{
    let h = HIDDEN as nat;
    let low = k * h + m;
    let u = units(low);
    let v = units(low + 1);
    lemma_units_of_parts(k, m);
    lemma_units_of_parts(k, m + 1);
    lemma_split_plain(num, den, m, half, rest, k);
    let c = den * pow2(k);
    let whole = 2 * m + bit(half);
    let x = whole * c;
    let y = (whole + 1) * c;
    assert(u * den == m * c) by (nonlinear_arith)
        requires
            u == m * pow2(k),
            c == den * pow2(k),
    ;
    assert(v * den == m * c + c) by (nonlinear_arith)
        requires
            v == (m + 1) * pow2(k),
            c == den * pow2(k),
    ;
    let mid = (u + v) * den;
    assert(mid == 2 * (m * c) + c) by (nonlinear_arith)
        requires
            mid == (u + v) * den,
            u * den == m * c,
            v * den == m * c + c,
    ;
    assert(x == 2 * (m * c) + bit(half) * c) by (nonlinear_arith)
        requires
            x == whole * c,
            whole == 2 * m + bit(half),
    ;
    assert(y == x + c) by (nonlinear_arith)
        requires
            x == whole * c,
            y == (whole + 1) * c,
    ;
    assert(bit(half) * c == if half {
        c
    } else {
        0
    }) by (nonlinear_arith);
    assert(low % 2 == m % 2) by (nonlinear_arith)
        requires
            low == k * h + m,
            h == 2 * 0x8_0000_0000_0000,
    ;
    assert(low < INFINITE) by (nonlinear_arith)
        requires
            low == k * h + m,
            k <= 2045,
            m < 2 * h,
            h == 0x10_0000_0000_0000,
            INFINITE == 0x7FF0_0000_0000_0000,
    ;
    lemma_rounds_in_bracket(num, den, low, half && (rest || m % 2 == 1));
}

/// A split past the finite range rounds to an infinity.
proof fn lemma_split_past(num: nat, den: nat, m: nat, half: bool, rest: bool, k: nat)
    requires
        den > 0,
        splits(num, den, m, half, rest, k as int),
        k >= 2046,
        m >= HIDDEN,
    ensures
        rounds_to(num, den, INFINITE as nat),
{
    let h = HIDDEN as nat;
    lemma_split_plain(num, den, m, half, rest, k);
    lemma_units_of_parts(2046, h);
    assert(2046 * h + h == INFINITE as nat);
    let top = pow2(2046);
    if k > 2046 {
        lemma_pow2_strictly_increases(2046, k);
    }
    let u = units(INFINITE as nat);
    let c = den * top;
    let d = den * pow2(k);
    assert(u * den == h * c) by (nonlinear_arith)
        requires
            u == h * top,
            c == den * top,
    ;
    assert(c <= d) by (nonlinear_arith)
        requires
            top <= pow2(k),
            c == den * top,
            d == den * pow2(k),
    ;
    assert(h * c <= m * d) by (nonlinear_arith)
        requires
            h <= m,
            c <= d,
    ;
    assert(2 * (m * d) <= (2 * m + bit(half)) * d) by (nonlinear_arith);
    lemma_rounds_past_finite(num, den);
}

/// The magnitude nearest to `num / den` units, which are given as a significand
/// with a half bit, a note of what follows it, and an exponent.
pub(crate) fn round_split(
    significand: u128,
    half: bool,
    rest: bool,
    exponent: i32,
    Ghost(num): Ghost<nat>,
    Ghost(den): Ghost<nat>,
) -> (mag: u64)
    requires
        den > 0,
        -8000 <= exponent <= 8000,
        splits(num, den, significand as nat, half, rest, exponent as int),
        half || rest ==> significand >= HIDDEN,
    ensures
        rounds_to(num, den, mag as nat),
{
    let mut m: u128 = significand;
    let mut half: bool = half;
    let mut rest: bool = rest;
    let mut k: i32 = exponent;
    let wide: u128 = 2 * (HIDDEN as u128);
    while m < HIDDEN as u128 && k > 0
        invariant
            k <= 8000,
            -8000 <= k,
            splits(num, den, m as nat, half, rest, k as int),
            half || rest ==> m >= HIDDEN,
        decreases k,
    {
        proof {
            lemma_split_double(num, den, m as nat, k as int);
        }
        m = 2 * m;
        k = k - 1;
    }
    while k < 0 || (m >= wide && k <= 2045)
        invariant
            -8000 <= k <= 8000,
            wide == 2 * HIDDEN,
            k <= 0 || m >= HIDDEN,
            splits(num, den, m as nat, half, rest, k as int),
        decreases (if k < 0 {
            -k as int
        } else {
            0
        }), m,
    {
        proof {
            lemma_split_shift(num, den, m as nat, half, rest, k as int);
        }
        rest = rest || half;
        half = m % 2 == 1;
        m = m / 2;
        k = k + 1;
    }
    if k > 2045 {
        proof {
            lemma_split_past(num, den, m as nat, half, rest, k as nat);
        }
        INFINITE
    } else {
        proof {
            lemma_split_rounds(num, den, m as nat, half, rest, k as nat);
        }
        let low: u64 = (k as u64) * HIDDEN + (m as u64);
        if half && (rest || m % 2 == 1) {
            low + 1
        } else {
            low
        }
    }
}

} // verus!
