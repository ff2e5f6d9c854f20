//! Arithmetic on binary64 numbers, rounded to nearest with ties to even.

use super::model::{
    exponent_of, lemma_exact_rounds_to_itself, lemma_parts_of, lemma_rounding_keeps_order,
    lemma_rounds_once, lemma_rounds_somewhere, lemma_units_increase, lemma_units_of_parts,
    lemma_units_step, nearest, one_in_units, rounds_to, significand_of, units, HIDDEN, INFINITE,
    QUIET, SCALE, SIGN,
};
use super::order::lemma_zero_has_no_units;
use super::rounding::{bit, lift, round_split, splits};
use super::Binary64;
use vstd::arithmetic::div_mod::lemma_div_multiples_vanish_quotient;
use vstd::arithmetic::power2::*;
use vstd::prelude::*;

verus! {

/// The significand and the exponent of a finite magnitude.
fn parts(mag: u64) -> (r: (u64, i32))
    requires
        mag < INFINITE,
    ensures
        r.0 == significand_of(mag as nat),
        r.1 == exponent_of(mag as nat),
        r.0 < 2 * HIDDEN,
        0 <= r.1 <= 2045,
        r.1 == 0 || r.0 >= HIDDEN,
{
    if mag < HIDDEN {
        (mag, 0)
    } else {
        (mag % HIDDEN + HIDDEN, (mag / HIDDEN) as i32 - 1)
    }
}

/// The number with the given sign and magnitude.
fn pack(negative: bool, mag: u64) -> (r: Binary64)
    requires
        mag <= INFINITE,
    ensures
        r == Binary64::packed(negative, mag as nat),
{
    if negative {
        Binary64 { bits: SIGN + mag }
    } else {
        Binary64 { bits: mag }
    }
}

/// A whole number that comes out exactly splits with nothing left over.
proof fn lemma_split_exact(num: nat, den: nat, m: nat, k: int)
    requires
        den > 0,
        m * (den * pow2((lift() + k) as nat)) == num * pow2(lift()),
    ensures
        splits(num, den, m, false, false, k),
{
    let step = den * pow2((lift() + k) as nat);
    lemma_pow2_pos((lift() + k) as nat);
    assert(step > 0) by (nonlinear_arith)
        requires
            step == den * pow2((lift() + k) as nat),
            den > 0,
            pow2((lift() + k) as nat) > 0,
    ;
    assert((2 * m) * step == 2 * (m * step)) by (nonlinear_arith);
    assert((2 * m + 1) * step == 2 * (m * step) + step) by (nonlinear_arith);
}

/// A power of two that is small is one of a small exponent.
proof fn lemma_small_power(j: nat)
    requires
        pow2(j) < 0x4000_0000_0000_0000_0000_0000_0000_0000,
    ensures
        j < 126,
{
    lemma2_to64_rest();
    lemma_pow2_adds(63, 63);
    assert(pow2(126) == 0x4000_0000_0000_0000_0000_0000_0000_0000) by (nonlinear_arith)
        requires
            pow2(126) == pow2(63) * pow2(63),
            pow2(63) == 0x8000_0000_0000_0000,
    ;
    if j > 126 {
        lemma_pow2_strictly_increases(126, j);
    }
}

/// A significand times a power of two.
fn scaled_up(m: u64, by: i32) -> (r: u128)
    requires
        m < 2 * HIDDEN,
        0 <= by <= 60,
    ensures
        r == m * pow2(by as nat),
        r < 0x40_0000_0000_0000_0000_0000_0000_0000,
{
    let mut r: u128 = m as u128;
    let mut i: i32 = 0;
    proof {
        lemma2_to64();
        lemma2_to64_rest();
        assert(m * pow2(0) == m) by (nonlinear_arith)
            requires
                pow2(0) == 1,
        ;
    }
    while i < by
        invariant
            0 <= i <= by <= 60,
            m < 2 * HIDDEN,
            r == m * pow2(i as nat),
            pow2(60) == 0x1000_0000_0000_0000,
        decreases by - i,
    {
        proof {
            lemma_pow2_unfold((i + 1) as nat);
            lemma_pow2_strictly_increases(i as nat, 60);
            assert(m * pow2((i + 1) as nat) == 2 * (m * pow2(i as nat))) by (nonlinear_arith)
                requires
                    pow2((i + 1) as nat) == 2 * pow2(i as nat),
            ;
            assert(m * pow2(i as nat) <= m * 0x1000_0000_0000_0000) by (nonlinear_arith)
                requires
                    pow2(i as nat) <= 0x1000_0000_0000_0000,
            ;
        }
        r = 2 * r;
        i = i + 1;
    }
    proof {
        if by < 60 {
            lemma_pow2_strictly_increases(by as nat, 60);
        }
        assert(m * pow2(by as nat) <= m * 0x1000_0000_0000_0000) by (nonlinear_arith)
            requires
                pow2(by as nat) <= 0x1000_0000_0000_0000,
        ;
    }
    r
}

/// What is far below a magnitude does not move it, in either direction.
proof fn lemma_absorbs(a: nat, b: nat)
    requires
        a < INFINITE,
        b < INFINITE,
        exponent_of(a) >= exponent_of(b) + 56,
    ensures
        units(b) < units(a),
        rounds_to(units(a) + units(b), 1, a),
        rounds_to((units(a) - units(b)) as nat, 1, a),
{
    let ka = exponent_of(a);
    let kb = exponent_of(b);
    let mb = significand_of(b);
    lemma_parts_of(a);
    lemma_parts_of(b);
    // The lesser one is under an eighth of the gap above the greater one.
    let eighth = pow2((ka - 3) as nat);
    lemma2_to64();
    lemma2_to64_rest();
    lemma_pow2_adds(kb, 53);
    if kb + 53 < ka - 3 {
        lemma_pow2_strictly_increases(kb + 53, (ka - 3) as nat);
    }
    lemma_pow2_pos(kb);
    assert(mb * pow2(kb) < pow2(kb) * 0x20_0000_0000_0000) by (nonlinear_arith)
        requires
            mb < 0x20_0000_0000_0000,
            pow2(kb) > 0,
    ;
    assert(units(b) < eighth);
    lemma_pow2_unfold(ka);
    lemma_pow2_unfold((ka - 1) as nat);
    lemma_pow2_unfold((ka - 2) as nat);
    lemma_units_step(a);
    let below = (a - 1) as nat;
    lemma_units_step(below);
    assert(exponent_of(below) == ka || exponent_of(below) == ka - 1);
    let ma = significand_of(a);
    assert(units(a) >= pow2(ka)) by (nonlinear_arith)
        requires
            units(a) == ma * pow2(ka),
            ma >= 1,
    ;
}

/// The magnitude nearest to the sum of two.
fn sum_of_magnitudes(a: u64, b: u64) -> (mag: u64)
    requires
        b <= a < INFINITE,
    ensures
        rounds_to(units(a as nat) + units(b as nat), 1, mag as nat),
{
    let (ma, ka) = parts(a);
    let (mb, kb) = parts(b);
    let ghost num = units(a as nat) + units(b as nat);
    let apart: i32 = ka - kb;
    if apart > 55 {
        proof {
            lemma_absorbs(a as nat, b as nat);
        }
        return a;
    }
    let high: u128 = scaled_up(ma, apart);
    let total: u128 = high + mb as u128;
    proof {
        lemma_aligned(ma as nat, ka as nat, mb as nat, kb as nat);
        let step = pow2(kb as nat);
        assert(num == total * step) by (nonlinear_arith)
            requires
                num == ma * pow2(ka as nat) + mb * step,
                ma * pow2(ka as nat) == high * step,
                total == high + mb,
        ;
        lemma_pow2_adds(lift(), kb as nat);
        assert(total * (1 * pow2(lift() + kb as nat)) == num * pow2(lift())) by (nonlinear_arith)
            requires
                num == total * step,
                pow2(lift() + kb as nat) == pow2(lift()) * step,
        ;
        lemma_split_exact(num, 1, total as nat, kb as int);
    }
    round_split(total, false, false, kb, Ghost(num), Ghost(1))
}

/// The magnitude nearest to the difference of two.
fn difference_of_magnitudes(a: u64, b: u64) -> (mag: u64)
    requires
        b < a < INFINITE,
    ensures
        units(b as nat) < units(a as nat),
        rounds_to((units(a as nat) - units(b as nat)) as nat, 1, mag as nat),
{
    let (ma, ka) = parts(a);
    let (mb, kb) = parts(b);
    proof {
        lemma_units_increase(b as nat, a as nat);
    }
    let ghost num = (units(a as nat) - units(b as nat)) as nat;
    let apart: i32 = ka - kb;
    if apart > 55 {
        proof {
            lemma_absorbs(a as nat, b as nat);
        }
        return a;
    }
    let high: u128 = scaled_up(ma, apart);
    proof {
        lemma_aligned(ma as nat, ka as nat, mb as nat, kb as nat);
        let step = pow2(kb as nat);
        assert(high > mb) by (nonlinear_arith)
            requires
                mb * step < high * step,
        ;
    }
    let total: u128 = high - mb as u128;
    proof {
        let step = pow2(kb as nat);
        assert(num == total * step) by (nonlinear_arith)
            requires
                num == high * step - mb * step,
                total == high - mb,
        ;
        lemma_pow2_adds(lift(), kb as nat);
        assert(total * (1 * pow2(lift() + kb as nat)) == num * pow2(lift())) by (nonlinear_arith)
            requires
                num == total * step,
                pow2(lift() + kb as nat) == pow2(lift()) * step,
        ;
        lemma_split_exact(num, 1, total as nat, kb as int);
    }
    round_split(total, false, false, kb, Ghost(num), Ghost(1))
}

/// A significand moved down to a lower exponent.
proof fn lemma_aligned(ma: nat, ka: nat, mb: nat, kb: nat)
    requires
        kb <= ka,
    ensures
        ma * pow2(ka) == (ma * pow2((ka - kb) as nat)) * pow2(kb),
{
    lemma_pow2_adds((ka - kb) as nat, kb);
    assert(ma * pow2(ka) == (ma * pow2((ka - kb) as nat)) * pow2(kb)) by (nonlinear_arith)
        requires
            pow2(ka) == pow2((ka - kb) as nat) * pow2(kb),
    ;
}

/// The magnitude nearest to the product of two.
fn product_of_magnitudes(a: u64, b: u64) -> (mag: u64)
    requires
        a < INFINITE,
        b < INFINITE,
    ensures
        rounds_to(units(a as nat) * units(b as nat), one_in_units(), mag as nat),
{
    let (ma, ka) = parts(a);
    let (mb, kb) = parts(b);
    let ghost num = units(a as nat) * units(b as nat);
    let ghost one = one_in_units();
    assert(ma * mb < 0x40_0000_0000_0000_0000_0000_0000_0000) by (nonlinear_arith)
        requires
            ma < 0x20_0000_0000_0000,
            mb < 0x20_0000_0000_0000,
    ;
    let total: u128 = (ma as u128) * (mb as u128);
    let k: i32 = ka + kb - SCALE as i32;
    proof {
        let up = pow2(lift());
        let pa = pow2(ka as nat);
        let pb = pow2(kb as nat);
        let low = pow2((lift() + k) as nat);
        lemma_pow2_pos(SCALE as nat);
        lemma_pow2_adds(SCALE as nat, (lift() + k) as nat);
        lemma_pow2_adds(lift() + ka as nat, kb as nat);
        lemma_pow2_adds(lift(), ka as nat);
        assert(one * low == up * pa * pb);
        assert(num == total * (pa * pb)) by (nonlinear_arith)
            requires
                num == (ma * pa) * (mb * pb),
                total == ma * mb,
        ;
        assert(total * (one * low) == num * up) by (nonlinear_arith)
            requires
                num == total * (pa * pb),
                one * low == up * pa * pb,
        ;
        lemma_split_exact(num, one, total as nat, k as int);
    }
    round_split(total, false, false, k, Ghost(num), Ghost(one))
}

/// A quotient with its remainder gives the half bit and what follows it.
proof fn lemma_split_quotient(
    num: nat,
    den: nat,
    n: nat,
    d: nat,
    q: nat,
    half: bool,
    rest: bool,
    k: int,
    scale: nat,
)
    requires
        d > 0,
        scale > 0,
        q == n / d,
        half <==> 2 * (n % d) >= d,
        rest <==> n % d != 0 && 2 * (n % d) != d,
        den * pow2((lift() + k) as nat) == d * scale,
        num * pow2(lift()) == n * scale,
    ensures
        splits(num, den, q, half, rest, k),
{
    let r = n % d;
    let whole = 2 * q + bit(half);
    let x = whole * d;
    let y = (whole + 1) * d;
    assert(n == q * d + r && r < d) by (nonlinear_arith)
        requires
            q == n / d,
            r == n % d,
            d > 0,
    ;
    assert(x == 2 * (q * d) + bit(half) * d && y == x + d) by (nonlinear_arith)
        requires
            x == whole * d,
            y == (whole + 1) * d,
            whole == 2 * q + bit(half),
    ;
    assert(bit(half) * d == if half {
        d
    } else {
        0
    }) by (nonlinear_arith);
    assert(x <= 2 * n < y);
    assert(rest <==> x < 2 * n);
    let step = den * pow2((lift() + k) as nat);
    let twice = 2 * (num * pow2(lift()));
    assert(whole * step == x * scale) by (nonlinear_arith)
        requires
            step == d * scale,
            x == whole * d,
    ;
    assert((whole + 1) * step == y * scale) by (nonlinear_arith)
        requires
            step == d * scale,
            y == (whole + 1) * d,
    ;
    assert(twice == (2 * n) * scale) by (nonlinear_arith)
        requires
            twice == 2 * (n * scale),
    ;
    let n2 = 2 * n;
    assert(x * scale <= n2 * scale && n2 * scale < y * scale && (x < n2 <==> x * scale < n2
        * scale)) by (nonlinear_arith)
        requires
            x <= n2,
            n2 < y,
            scale > 0,
    ;
}

/// The magnitude nearest to the quotient of two.
fn quotient_of_magnitudes(a: u64, b: u64) -> (mag: u64)
    requires
        0 < a < INFINITE,
        0 < b < INFINITE,
    ensures
        rounds_to(units(a as nat) * one_in_units(), units(b as nat), mag as nat),
{
    let (ma, ka) = parts(a);
    let (mb, kb) = parts(b);
    let ghost num = units(a as nat) * one_in_units();
    let ghost den = units(b as nat);
    let floor: u128 = 0x2000_0000_0000_0000_0000_0000_0000_0000;
    let mut n: u128 = ma as u128;
    let mut j: i32 = 0;
    proof {
        lemma_zero_has_no_units(a as nat);
        lemma_zero_has_no_units(b as nat);
        lemma2_to64();
        assert(ma * pow2(0) == ma) by (nonlinear_arith)
            requires
                pow2(0) == 1,
        ;
    }
    while n < floor
        invariant
            floor == 0x2000_0000_0000_0000_0000_0000_0000_0000,
            0 < ma < 2 * HIDDEN,
            n == ma * pow2(j as nat),
            0 < n < 2 * floor,
            0 <= j < 126,
        decreases 126 - j,
    {
        proof {
            lemma_pow2_unfold((j + 1) as nat);
            assert(ma * pow2((j + 1) as nat) == 2 * (ma * pow2(j as nat))) by (nonlinear_arith)
                requires
                    pow2((j + 1) as nat) == 2 * pow2(j as nat),
            ;
            assert(pow2((j + 1) as nat) <= ma * pow2((j + 1) as nat)) by (nonlinear_arith)
                requires
                    ma >= 1,
            ;
            lemma_small_power((j + 1) as nat);
        }
        n = 2 * n;
        j = j + 1;
    }
    let d: u128 = mb as u128;
    let q: u128 = n / d;
    let r: u128 = n % d;
    let half: bool = 2 * r >= d;
    let rest: bool = r != 0 && 2 * r != d;
    let k: i32 = ka + SCALE as i32 - kb - j;
    proof {
        assert(q >= HIDDEN) by (nonlinear_arith)
            requires
                q == n / d,
                0 < d < 0x20_0000_0000_0000,
                n >= 0x2000_0000_0000_0000_0000_0000_0000_0000,
                HIDDEN == 0x10_0000_0000_0000,
        ;
        let pb = pow2(kb as nat);
        let pa = pow2(ka as nat);
        let pj = pow2(j as nat);
        let low = pow2((lift() + k) as nat);
        let scale = pow2((lift() + k + kb) as nat);
        lemma_pow2_pos((lift() + k + kb) as nat);
        lemma_pow2_adds(kb as nat, (lift() + k) as nat);
        assert(den * low == d * scale) by (nonlinear_arith)
            requires
                den == mb * pb,
                d == mb,
                scale == pb * low,
        ;
        lemma_pow2_adds(j as nat, (lift() + k + kb) as nat);
        lemma_pow2_adds(ka as nat, SCALE as nat);
        lemma_pow2_adds(ka as nat + SCALE as nat, lift());
        assert(num * pow2(lift()) == n * scale) by (nonlinear_arith)
            requires
                num == (ma * pa) * one_in_units(),
                n == ma * pj,
                pj * scale == pa * one_in_units() * pow2(lift()),
        ;
        lemma_split_quotient(
            num,
            den,
            n as nat,
            d as nat,
            q as nat,
            half,
            rest,
            k as int,
            scale,
        );
    }
    round_split(q, half, rest, k, Ghost(num), Ghost(den))
}

/// Nothing rounds to zero.
proof fn lemma_nothing_rounds_to_zero(den: nat)
    requires
        den > 0,
    ensures
        nearest(0, den) == 0,
{
    lemma_zero_has_no_units(0);
    assert(units(0) * den == 0) by (nonlinear_arith)
        requires
            units(0) == 0,
    ;
    lemma_exact_rounds_to_itself(0, den, 0);
}

impl Binary64 {
    /// The sum, rounded to nearest.
    pub fn sum(self, other: Binary64) -> (r: Binary64)
        ensures
            r == self.plus(other),
    {
        let a: u64 = self.magnitude_bits();
        let b: u64 = other.magnitude_bits();
        if a > INFINITE || b > INFINITE {
            return Binary64 { bits: QUIET };
        }
        if a == INFINITE {
            if b == INFINITE && self.is_negative() != other.is_negative() {
                return Binary64 { bits: QUIET };
            }
            return self;
        }
        if b == INFINITE {
            return other;
        }
        let ghost num: nat = if self.negative() == other.negative() {
            units(a as nat) + units(b as nat)
        } else if b < a {
            (units(a as nat) - units(b as nat)) as nat
        } else {
            (units(b as nat) - units(a as nat)) as nat
        };
        proof {
            lemma_zero_has_no_units(a as nat);
            lemma_zero_has_no_units(b as nat);
        }
        if self.is_negative() == other.is_negative() {
            let mag: u64 = if b <= a {
                sum_of_magnitudes(a, b)
            } else {
                sum_of_magnitudes(b, a)
            };
            proof {
                lemma_rounds_once(num, 1, mag as nat);
                lemma_nothing_rounds_to_zero(1);
            }
            pack(self.is_negative(), mag)
        } else if a == b {
            pack(false, 0)
        } else if b < a {
            let mag: u64 = difference_of_magnitudes(a, b);
            proof {
                lemma_rounds_once(num, 1, mag as nat);
            }
            pack(self.is_negative(), mag)
        } else {
            let mag: u64 = difference_of_magnitudes(b, a);
            proof {
                lemma_rounds_once(num, 1, mag as nat);
            }
            pack(other.is_negative(), mag)
        }
    }

    /// The difference, rounded to nearest.
    pub fn difference(self, other: Binary64) -> (r: Binary64)
        ensures
            r == self.minus(other),
    {
        self.sum(other.negated())
    }

    /// The product, rounded to nearest.
    pub fn product(self, other: Binary64) -> (r: Binary64)
        ensures
            r == self.times(other),
    {
        let a: u64 = self.magnitude_bits();
        let b: u64 = other.magnitude_bits();
        let negative: bool = self.is_negative() != other.is_negative();
        if a > INFINITE || b > INFINITE {
            return Binary64 { bits: QUIET };
        }
        if a == INFINITE || b == INFINITE {
            if a == 0 || b == 0 {
                return Binary64 { bits: QUIET };
            }
            return pack(negative, INFINITE);
        }
        let mag: u64 = product_of_magnitudes(a, b);
        proof {
            lemma_pow2_pos(SCALE as nat);
            lemma_rounds_once(units(a as nat) * units(b as nat), one_in_units(), mag as nat);
        }
        pack(negative, mag)
    }

    /// The quotient, rounded to nearest.
    pub fn quotient(self, other: Binary64) -> (r: Binary64)
        ensures
            r == self.over(other),
    {
        let a: u64 = self.magnitude_bits();
        let b: u64 = other.magnitude_bits();
        let negative: bool = self.is_negative() != other.is_negative();
        if a > INFINITE || b > INFINITE {
            return Binary64 { bits: QUIET };
        }
        if a == INFINITE {
            if b == INFINITE {
                return Binary64 { bits: QUIET };
            }
            return pack(negative, INFINITE);
        }
        if b == INFINITE {
            return pack(negative, 0);
        }
        if b == 0 {
            if a == 0 {
                return Binary64 { bits: QUIET };
            }
            return pack(negative, INFINITE);
        }
        proof {
            lemma_zero_has_no_units(b as nat);
        }
        if a == 0 {
            proof {
                lemma_zero_has_no_units(0);
                assert(units(0) * one_in_units() == 0) by (nonlinear_arith)
                    requires
                        units(0) == 0,
                ;
                lemma_nothing_rounds_to_zero(units(b as nat));
            }
            return pack(negative, 0);
        }
        let mag: u64 = quotient_of_magnitudes(a, b);
        proof {
            lemma_rounds_once(units(a as nat) * one_in_units(), units(b as nat), mag as nat);
        }
        pack(negative, mag)
    }

    /// The number nearest to a whole number.
    pub fn from_whole(n: u64) -> (r: Binary64)
        ensures
            r == Binary64::of_whole(n as nat),
    {
        let ghost num = n as nat * one_in_units();
        proof {
            lemma_pow2_adds(SCALE as nat, lift());
            assert(n * (1 * pow2(lift() + SCALE as nat)) == num * pow2(lift())) by (nonlinear_arith)
                requires
                    num == n * one_in_units(),
                    pow2(lift() + SCALE as nat) == one_in_units() * pow2(lift()),
            ;
            lemma_split_exact(num, 1, n as nat, SCALE as int);
        }
        let mag: u64 = round_split(n as u128, false, false, SCALE as i32, Ghost(num), Ghost(1));
        proof {
            lemma_rounds_once(num, 1, mag as nat);
        }
        pack(false, mag)
    }

    /// The number nearest to a ratio of whole numbers.
    pub fn from_ratio(p: u32, q: u32) -> (r: Binary64)
        requires
            q > 0,
        ensures
            r == Binary64::of_ratio(p as nat, q as nat),
    {
        proof {
            lemma_whole_is_exact(p as nat);
            lemma_whole_is_exact(q as nat);
            lemma_pow2_pos(SCALE as nat);
            lemma_zero_has_no_units(0);
            let one = one_in_units();
            let up = p as nat * one;
            let uq = q as nat * one;
            assert(uq > 0) by (nonlinear_arith)
                requires
                    uq == q * one,
                    q > 0,
                    one > 0,
            ;
            assert((up * one) * q == up * uq) by (nonlinear_arith)
                requires
                    uq == q * one,
            ;
            lemma_nearest_of_ratio(up * one, uq, up, q as nat);
        }
        Binary64::from_whole(p as u64).quotient(Binary64::from_whole(q as u64))
    }

    /// The whole number nearest to a number, halves away from zero, held to
    /// the range of `u32`. What is not a number gives zero.
    pub fn to_nearest_u32(self) -> (r: u32)
        ensures
            r == self.nearest_u32(),
    {
        let mag: u64 = self.magnitude_bits();
        if mag > INFINITE || self.is_negative() {
            return 0;
        }
        let ghost one = one_in_units();
        let ghost whole = (2 * units(mag as nat) + one) / (2 * one);
        proof {
            lemma_pow2_pos(SCALE as nat);
        }
        if mag == INFINITE {
            proof {
                lemma_units_of_parts(2046, HIDDEN as nat);
                assert(2046 * HIDDEN as nat + HIDDEN as nat == INFINITE as nat);
                lemma_pow2_strictly_increases(SCALE as nat, 2046);
                lemma_large_is_past_u32(HIDDEN as nat, 2046, units(mag as nat));
            }
            return u32::MAX;
        }
        let (m, k) = parts(mag);
        if k >= SCALE as i32 {
            proof {
                if k > SCALE {
                    lemma_pow2_strictly_increases(SCALE as nat, k as nat);
                }
                lemma_large_is_past_u32(m as nat, k as nat, units(mag as nat));
            }
            return u32::MAX;
        }
        let down: i32 = SCALE as i32 - k;
        proof {
            let pk = pow2(k as nat);
            let pd = pow2(down as nat);
            lemma_pow2_pos(k as nat);
            lemma_pow2_pos(down as nat);
            lemma_pow2_adds(k as nat, down as nat);
            let n = 2 * m as int + pd as int;
            let d = 2 * pd as int;
            assert(2 * units(mag as nat) + one == pk * n) by (nonlinear_arith)
                requires
                    units(mag as nat) == m * pk,
                    one == pk * pd,
                    n == 2 * m + pd,
            ;
            assert(2 * one == pk * d) by (nonlinear_arith)
                requires
                    one == pk * pd,
                    d == 2 * pd,
            ;
            lemma_div_multiples_vanish_quotient(pk as int, n, d);
            assert(whole == n / d);
        }
        if down > 53 {
            proof {
                lemma2_to64_rest();
                if down > 54 {
                    lemma_pow2_strictly_increases(54, down as nat);
                }
                let pd = pow2(down as nat);
                assert((2 * m + pd) / (2 * pd as int) == 0) by (nonlinear_arith)
                    requires
                        2 * m < pd,
                        pd > 0,
                ;
            }
            return 0;
        }
        let d: u128 = scaled_up(1, down);
        let w: u128 = (2 * (m as u128) + d) / (2 * d);
        if w > u32::MAX as u128 {
            u32::MAX
        } else {
            w as u32
        }
    }
}

/// From two to the fifty-second on, a number is past the range of `u32`.
proof fn lemma_large_is_past_u32(m: nat, k: nat, u: nat)
    requires
        m >= HIDDEN,
        pow2(k) >= one_in_units(),
        one_in_units() > 0,
        u == m * pow2(k),
    ensures
        (2 * u + one_in_units()) / (2 * one_in_units()) > u32::MAX,
{
    let one = one_in_units();
    assert(u >= 0x1_0000_0000 * one) by (nonlinear_arith)
        requires
            u == m * pow2(k),
            m >= 0x1_0000_0000,
            pow2(k) >= one,
    ;
    assert((2 * u + one) / (2 * one) >= 0x1_0000_0000) by (nonlinear_arith)
        requires
            u >= 0x1_0000_0000 * one,
            one > 0,
    ;
}

/// Equal ratios round to the same magnitude.
pub proof fn lemma_nearest_of_ratio(num1: nat, den1: nat, num2: nat, den2: nat)
    requires
        den1 > 0,
        den2 > 0,
        num1 * den2 == num2 * den1,
    ensures
        nearest(num1, den1) == nearest(num2, den2),
{
    let a = nearest(num1, den1);
    let b = nearest(num2, den2);
    lemma_rounds_somewhere(num1, den1);
    lemma_rounds_somewhere(num2, den2);
    lemma_rounding_keeps_order(num1, den1, a, num2, den2, b);
    lemma_rounding_keeps_order(num2, den2, b, num1, den1, a);
}

/// A small whole number of a not too small power of two is a magnitude.
pub proof fn lemma_whole_has_magnitude(n: nat, j: nat) -> (mag: nat)
    requires
        0 < n < 2 * HIDDEN,
        j <= SCALE,
        pow2(j) <= 4 * n,
    ensures
        mag < INFINITE,
        units(mag) == n * pow2((SCALE - j) as nat),
    decreases 2 * HIDDEN - n,
{
    let k = (SCALE - j) as nat;
    if n >= HIDDEN {
        lemma_units_of_parts(k, n);
        let mag = k * HIDDEN as nat + n;
        assert(mag < INFINITE) by (nonlinear_arith)
            requires
                mag == k * HIDDEN + n,
                k <= 1074,
                n < 2 * HIDDEN,
                HIDDEN == 0x10_0000_0000_0000,
                INFINITE == 0x7FF0_0000_0000_0000,
        ;
        mag
    } else {
        lemma_pow2_unfold(j + 1);
        assert(j < SCALE) by {
            if j == SCALE {
                lemma2_to64_rest();
                lemma_pow2_strictly_increases(63, SCALE as nat);
            }
        }
        let mag = lemma_whole_has_magnitude(2 * n, j + 1);
        lemma_pow2_unfold(k);
        assert((2 * n) * pow2((k - 1) as nat) == n * pow2(k)) by (nonlinear_arith)
            requires
                pow2(k) == 2 * pow2((k - 1) as nat),
        ;
        mag
    }
}

/// A whole number below two to the fifty-third is a binary64 number exactly.
pub proof fn lemma_whole_is_exact(n: nat)
    requires
        n < 2 * HIDDEN,
    ensures
        Binary64::of_whole(n).finite(),
        !Binary64::of_whole(n).negative(),
        units(Binary64::of_whole(n).magnitude()) == n * one_in_units(),
        Binary64::of_whole(n).value() == n * one_in_units(),
        n == 0 <==> Binary64::of_whole(n).zero(),
{
    let num = n * one_in_units();
    lemma2_to64();
    lemma_pow2_pos(SCALE as nat);
    if n == 0 {
        lemma_nothing_rounds_to_zero(1);
        lemma_zero_has_no_units(0);
        assert(num == 0) by (nonlinear_arith)
            requires
                num == n * one_in_units(),
                n == 0,
        ;
    } else {
        let mag = lemma_whole_has_magnitude(n, 0);
        lemma_exact_rounds_to_itself(num, 1, mag);
        lemma_zero_has_no_units(mag);
        assert(num > 0) by (nonlinear_arith)
            requires
                num == n * one_in_units(),
                n > 0,
                one_in_units() > 0,
        ;
    }
}

} // verus!
