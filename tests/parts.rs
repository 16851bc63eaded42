use distinct_sketch::{
    decrement, get_rho, increment, is_change_power, merge_for_intersect, merge_for_union,
    pow2neg_bits, precision_for_error_rate, weight_of, ConfigError, HyperLogLog, Sad, PIVOT,
};

#[test]
fn pow_bithack() {
    for x in 0_u8..65 {
        let a = 2.0_f64.powi(-(i32::from(x)));
        let b = f64::from_bits(pow2neg_bits(x));
        let c = f32::from_bits(u32::MAX.wrapping_sub(u32::from(x)) << 25 >> 2);
        assert_eq!(a, b);
        assert_eq!(a, f64::from(c));
    }
}

#[test]
fn pow2neg_bits_values() {
    assert_eq!(pow2neg_bits(0), 0x3ff0_0000_0000_0000);
    assert_eq!(pow2neg_bits(1), 0x3fe0_0000_0000_0000);
    assert_eq!(pow2neg_bits(64), (1023u64 - 64) << 52);
}

#[test]
fn weights_are_fixed_point_powers() {
    assert_eq!(weight_of(0), 1u128 << 64);
    assert_eq!(weight_of(1), 1u128 << 63);
    assert_eq!(weight_of(64), 1);
}

#[test]
fn rho_counts_leading_zeros_of_tail() {
    assert_eq!(get_rho(0, 16), 49);
    assert_eq!(get_rho(u64::MAX, 16), 1);
    assert_eq!(get_rho(1u64 << 16, 16), 48);
    assert_eq!(get_rho(1u64 << 63, 4), 1);
}

#[test]
fn precision_from_error_rate() {
    assert_eq!(precision_for_error_rate(408, 100_000), Ok(16));
    assert_eq!(precision_for_error_rate(5, 100), Ok(9));
    assert_eq!(precision_for_error_rate(1, 20), Ok(9));
    assert_eq!(precision_for_error_rate(26, 100), Ok(4));
    assert_eq!(precision_for_error_rate(0, 100), Err(ConfigError::ErrorRateOutOfRange));
    assert_eq!(precision_for_error_rate(100, 100), Err(ConfigError::ErrorRateOutOfRange));
    assert_eq!(precision_for_error_rate(150, 100), Err(ConfigError::ErrorRateOutOfRange));
    assert_eq!(precision_for_error_rate(1, 2), Err(ConfigError::PrecisionOutOfRange));
    assert_eq!(precision_for_error_rate(1, 1_000_000), Err(ConfigError::PrecisionOutOfRange));
    assert!(HyperLogLog::new(0, 1).is_err());
    assert!(HyperLogLog::new_with_counters(1, 2).is_err());
}

#[test]
fn chance_is_a_multiple_of_a_power_of_two() {
    assert!(is_change_power(1, 0));
    assert!(is_change_power(1, 6));
    assert!(!is_change_power(1, 7));
    assert!(is_change_power(3, 16));
    assert!(!is_change_power(3, 12));
    assert!(!is_change_power(64, 0));
    assert!(!is_change_power(127, 0));
}

#[test]
fn counters_step_exactly_up_to_pivot() {
    assert_eq!(PIVOT, 128);
    assert_eq!(increment(0, 1), 1);
    assert_eq!(increment(128, 1), 129);
    assert_eq!(increment(129, 1), 129);
    assert_eq!(increment(129, 2), 130);
    assert_eq!(increment(255, 0), 255);
    assert_eq!(decrement(1, 1), 0);
    assert_eq!(decrement(0, 0), 0);
    assert_eq!(decrement(128, 1), 127);
    assert_eq!(decrement(130, 1), 130);
    assert_eq!(decrement(130, 4), 129);
}

#[test]
fn merged_counters() {
    assert_eq!(merge_for_union(3, 4, 1), 7);
    assert_eq!(merge_for_union(100, 28, 1), 128);
    assert_eq!(merge_for_union(100, 29, 1), 100);
    assert_eq!(merge_for_union(100, 29, 2), 101);
    assert_eq!(merge_for_union(255, 150, 0), 255);
    assert_eq!(merge_for_intersect(3, 4, 0), 7);
    assert_eq!(merge_for_intersect(100, 28, 1), 128);
    assert_eq!(merge_for_intersect(100, 29, 2), 101);
    assert_eq!(merge_for_intersect(100, 29, 1), 100);
}

#[test]
fn sad_sums_absolute_differences() {
    assert_eq!(Sad::sad(&vec![1, 0, 1, 1], &vec![0, 0, 0, 0]), 3);
    assert_eq!(Sad::sad(&vec![10, 3, 255], &vec![3, 10, 0]), 269);
    assert_eq!(Sad::sad(&vec![], &vec![]), 0);
}
