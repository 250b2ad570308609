use ccusage_adapter_cursor::number::{
    count_from_number, number_is_amount, timestamp_from_number, Number,
};

/// The count of a double as ordinary arithmetic has it.
fn count_by_float(value: f64) -> Option<u64> {
    if value.is_finite() && value >= 0.0 {
        Some(value.trunc() as u64)
    } else {
        None
    }
}

/// The instant of a double as ordinary arithmetic has it.
fn instant_by_float(value: f64) -> Option<i64> {
    if !value.is_finite() || value <= 0.0 {
        return None;
    }
    let millis = if value > 1e12 {
        value
    } else if value > 1e9 {
        value * 1000.0
    } else {
        return None;
    };
    Some(millis.trunc() as i64)
}

fn sample_doubles() -> Vec<f64> {
    let mut samples = vec![
        0.0,
        -0.0,
        0.1,
        0.999,
        1.0,
        1.5,
        -1.5,
        2.75,
        1e9,
        1e9 + 0.5,
        1_000_000_000.000_000_1,
        1_750_000_000.123,
        1_750_000_000.123_456_7,
        999_999_999_999.999_9,
        1e12,
        1e12 + 0.25,
        1_750_000_000_000.75,
        4_503_599_627_370_497.5,
        9_007_199_254_740_993.0,
        9.223_372_036_854_775e18,
        9.3e18,
        1.844_674_407_370_955_2e19,
        1e30,
        f64::MAX,
        f64::MIN_POSITIVE,
        5e-324,
        f64::INFINITY,
        f64::NEG_INFINITY,
        f64::NAN,
    ];
    let mut state: u64 = 0x9e37_79b9_7f4a_7c15;
    for _ in 0..4000 {
        state ^= state << 13;
        state ^= state >> 7;
        state ^= state << 17;
        samples.push(f64::from_bits(state));
        samples.push((state % 4_000_000_000_000) as f64 / 7.0);
        samples.push(1e9 + (state % 1_000_000_000_000) as f64 / 1024.0);
        samples.push(state as f64);
    }
    samples
}

#[test]
fn counts_of_doubles_are_truncated() {
    for value in sample_doubles() {
        assert_eq!(
            count_from_number(Number::Float(value.to_bits())),
            count_by_float(value),
            "{value:?}"
        );
    }
}

#[test]
fn instants_of_doubles_agree_with_float_arithmetic() {
    for value in sample_doubles() {
        assert_eq!(
            timestamp_from_number(Number::Float(value.to_bits())),
            instant_by_float(value),
            "{value:?}"
        );
    }
}

#[test]
fn instants_of_integers_go_through_doubles() {
    let mut samples = vec![
        0,
        1,
        999_999_999,
        1_000_000_000,
        1_000_000_001,
        1_750_000_000,
        1_000_000_000_000,
        1_000_000_000_001,
        1_750_000_000_000,
        9_007_199_254_740_992,
        9_007_199_254_740_993,
        9_007_199_254_740_995,
        9_223_372_036_854_775_807,
        9_223_372_036_854_775_808,
        18_446_744_073_709_551_615,
    ];
    let mut state: u64 = 0x2545_f491_4f6c_dd1d;
    for _ in 0..4000 {
        state ^= state << 13;
        state ^= state >> 7;
        state ^= state << 17;
        samples.push(state);
        samples.push(state >> 11);
        samples.push(state >> 24);
        samples.push(state >> 33);
    }
    for value in samples {
        assert_eq!(
            timestamp_from_number(Number::PosInt(value)),
            instant_by_float(value as f64),
            "{value}"
        );
    }
    assert_eq!(timestamp_from_number(Number::NegInt(-1_750_000_000)), None);
}

#[test]
fn integer_counts_are_kept_and_negative_ones_are_zero() {
    assert_eq!(count_from_number(Number::PosInt(u64::MAX)), Some(u64::MAX));
    assert_eq!(count_from_number(Number::PosInt(7)), Some(7));
    assert_eq!(count_from_number(Number::NegInt(-7)), Some(0));
    assert_eq!(count_from_number(Number::NegInt(i64::MIN)), Some(0));
}

#[test]
fn only_finite_numbers_are_amounts() {
    assert!(number_is_amount(Number::PosInt(0)));
    assert!(number_is_amount(Number::NegInt(-1)));
    assert!(number_is_amount(Number::Float(1.5f64.to_bits())));
    assert!(!number_is_amount(Number::Float(f64::NAN.to_bits())));
    assert!(!number_is_amount(Number::Float(f64::INFINITY.to_bits())));
}

#[test]
fn milliseconds_are_kept_and_seconds_become_milliseconds() {
    assert_eq!(
        timestamp_from_number(Number::PosInt(1_750_000_000_123)),
        Some(1_750_000_000_123)
    );
    assert_eq!(
        timestamp_from_number(Number::PosInt(1_750_000_000)),
        Some(1_750_000_000_000)
    );
}
