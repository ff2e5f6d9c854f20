use ambientwalrus::clock::as_seconds;
use std::time::Duration;

#[test]
fn seconds_agree_with_std() {
    let mut state: u64 = 88172645463325252;
    let mut spans: Vec<u64> = vec![0, 1, 999_999_999, 1_000_000_000, 1_000_000_001, 1_500_000_000, u64::MAX];
    for shift in 0..60u64 {
        state ^= state << 13;
        state ^= state >> 7;
        state ^= state << 17;
        spans.push(state >> shift);
    }
    for n in spans {
        let expected: f64 = Duration::from_nanos(n).as_secs_f64();
        assert_eq!(as_seconds(n).to_bits(), expected.to_bits(), "{n}");
    }
}

#[test]
fn longer_spans_are_no_fewer_seconds() {
    let spans: [u64; 6] = [0, 999_999_999, 1_000_000_000, 1_000_000_001, 59_999_999_999, 60_000_000_000];
    for pair in spans.windows(2) {
        assert!(!as_seconds(pair[1]).less_than(as_seconds(pair[0])));
    }
}

#[test]
fn full_seconds_are_whole_numbers() {
    assert_eq!(as_seconds(7_000_000_000).to_bits(), 7.0f64.to_bits());
}
