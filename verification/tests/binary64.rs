use ambientwalrus::binary64::Binary64;

fn b(x: f64) -> Binary64 {
    Binary64::from_bits(x.to_bits())
}

/// The same bits, or both not a number.
fn agrees(x: Binary64, y: f64) -> bool {
    (x.is_nan() && y.is_nan()) || x.to_bits() == y.to_bits()
}

fn samples() -> Vec<f64> {
    let mut v: Vec<f64> = vec![
        0.0,
        -0.0,
        1.0,
        -1.0,
        0.1,
        0.2,
        0.5,
        0.01,
        3.0,
        60.0,
        255.0,
        1000.0,
        1e9,
        1e308,
        -1e308,
        1e-308,
        5e-324,
        -5e-324,
        2.2250738585072014e-308,
        2.225073858507201e-308,
        f64::MAX,
        f64::MIN,
        f64::INFINITY,
        f64::NEG_INFINITY,
        f64::NAN,
        9007199254740991.0,
        9007199254740992.0,
        9007199254740993.0,
        0.49999999999999994,
        4294967295.5,
    ];
    let mut state: u64 = 0x9E37_79B9_7F4A_7C15;
    for i in 0..120u64 {
        state ^= state << 13;
        state ^= state >> 7;
        state ^= state << 17;
        let bits: u64 = if i % 2 == 0 {
            state
        } else {
            // Exponents close to each other, so that sums cancel and carry.
            (state & 0x800F_FFFF_FFFF_FFFF) | ((1000 + state % 64) << 52)
        };
        v.push(f64::from_bits(bits));
    }
    v
}

#[test]
fn sums_agree_with_the_hardware() {
    for &x in &samples() {
        for &y in &samples() {
            assert!(agrees(b(x).sum(b(y)), x + y), "{x:e} + {y:e}");
            assert!(agrees(b(x).difference(b(y)), x - y), "{x:e} - {y:e}");
        }
    }
}

#[test]
fn products_agree_with_the_hardware() {
    for &x in &samples() {
        for &y in &samples() {
            assert!(agrees(b(x).product(b(y)), x * y), "{x:e} * {y:e}");
        }
    }
}

#[test]
fn quotients_agree_with_the_hardware() {
    for &x in &samples() {
        for &y in &samples() {
            assert!(agrees(b(x).quotient(b(y)), x / y), "{x:e} / {y:e}");
        }
    }
}

#[test]
fn order_agrees_with_the_hardware() {
    for &x in &samples() {
        for &y in &samples() {
            assert_eq!(b(x).less_than(b(y)), x < y, "{x:e} < {y:e}");
            assert_eq!(b(x).same_number(b(y)), x == y, "{x:e} == {y:e}");
            if x != y {
                assert!(agrees(b(x).larger(b(y)), x.max(y)), "max of {x:e}, {y:e}");
                assert!(agrees(b(x).smaller(b(y)), x.min(y)), "min of {x:e}, {y:e}");
            }
        }
        assert_eq!(b(x).is_nan(), x.is_nan());
        assert_eq!(b(x).is_negative(), x.is_sign_negative());
        assert!(agrees(b(x).absolute(), x.abs()));
        assert!(agrees(b(x).negated(), -x));
        assert!(agrees(b(x).clamped(b(0.0), b(1.0)), x.clamp(0.0, 1.0)), "clamp {x:e}");
    }
}

#[test]
fn rounding_to_u32_agrees_with_the_hardware() {
    for &x in &samples() {
        assert_eq!(b(x).to_nearest_u32(), x.round() as u32, "{x:e}");
    }
    for i in 0..2000u32 {
        let x: f64 = f64::from(i) / 4.0;
        assert_eq!(b(x).to_nearest_u32(), x.round() as u32, "{x}");
    }
    assert_eq!(b(4294967294.5).to_nearest_u32(), 4294967295);
    assert_eq!(b(4294967296.0).to_nearest_u32(), 4294967295);
    assert_eq!(b(0.5).to_nearest_u32(), 1);
    assert_eq!(b(-0.5).to_nearest_u32(), 0);
}

#[test]
fn whole_numbers_and_ratios_are_nearest() {
    for n in [0u64, 1, 3, 60, 1000, 1 << 53, (1 << 53) + 1, (1 << 53) + 3, u64::MAX, u64::MAX - 1024] {
        assert!(agrees(Binary64::from_whole(n), n as f64), "{n}");
    }
    assert!(agrees(Binary64::from_ratio(2, 10), 0.2));
    assert!(agrees(Binary64::from_ratio(1, 10), 0.1));
    assert!(agrees(Binary64::from_ratio(1, 100), 0.01));
    assert!(agrees(Binary64::from_ratio(5, 10), 0.5));
    assert!(agrees(Binary64::from_ratio(0, 7), 0.0));
}

#[test]
fn arithmetic_keeps_order() {
    assert!(!b(2.0).sum(b(0.1)).less_than(b(1.0).sum(b(0.1))));
    assert!(!b(2.0).product(b(0.1)).less_than(b(1.0).product(b(0.1))));
    assert!(!b(2.0).quotient(b(0.1)).less_than(b(1.0).quotient(b(0.1))));
    assert!(!b(5.0).difference(b(1.0)).less_than(b(5.0).difference(b(2.0))));
}

#[test]
fn exact_cases_are_exact() {
    let x = 0.7;
    assert!(agrees(b(x).product(b(1.0)), x));
    assert!(agrees(b(x).quotient(b(x)), 1.0));
    assert!(agrees(b(x).difference(b(x)), 0.0));
    assert!(b(x).sum(b(0.0)).same_number(b(x)));
    assert!(agrees(b(0.0).product(b(x)), 0.0));
    assert!(agrees(b(0.0).quotient(b(x)), 0.0));
}
