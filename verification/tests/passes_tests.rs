use folder_scanner::passes::{
    checked_sum, count_even_values, generate_data, max_value, split_halves, sum_values,
    three_sequential_passes,
};

#[test]
fn sum_of_one_to_ten() {
    let small: Vec<i64> = (1..=10).collect();
    assert_eq!(sum_values(&small), 55);
    assert_eq!(checked_sum(&small), Some(55));
}

#[test]
fn empty_slice_passes() {
    let empty: Vec<i64> = Vec::new();
    assert_eq!(sum_values(&empty), 0);
    assert_eq!(count_even_values(&empty), 0);
    assert_eq!(max_value(&empty), i64::MIN);
    assert_eq!(three_sequential_passes(&empty), (0, 0, i64::MIN));
}

#[test]
fn checked_sum_detects_overflow_of_a_prefix() {
    assert_eq!(checked_sum(&[i64::MAX, 1, -5]), None);
    assert_eq!(checked_sum(&[i64::MIN, -1]), None);
    assert_eq!(checked_sum(&[i64::MAX, -1, 1]), Some(i64::MAX));
}

#[test]
fn evens_count_negative_values_too() {
    assert_eq!(count_even_values(&[-4, -3, 0, 7, 8]), 3);
}

#[test]
fn max_of_mixed_values() {
    assert_eq!(max_value(&[-4, 17, 3, 17, -100]), 17);
    assert_eq!(max_value(&[i64::MIN]), i64::MIN);
}

#[test]
fn three_passes_on_generated_data_agree_with_direct_computation() {
    let data = generate_data(1000);
    let sum: i64 = data.iter().sum();
    let evens = data.iter().filter(|&&x| x % 2 == 0).count();
    let max = *data.iter().max().unwrap();
    assert_eq!(three_sequential_passes(&data), (sum, evens, max));
}

#[test]
fn halves_preserve_the_total() {
    let small: Vec<i64> = (1..=10).collect();
    let (left, right) = split_halves(&small);
    assert_eq!(left, &[1, 2, 3, 4, 5]);
    assert_eq!(right, &[6, 7, 8, 9, 10]);
    assert_eq!(sum_values(left) + sum_values(right), sum_values(&small));

    let odd: Vec<i64> = vec![5, -2, 9];
    let (l, r) = split_halves(&odd);
    assert_eq!(l, &[5]);
    assert_eq!(r, &[-2, 9]);
    assert_eq!(sum_values(l) + sum_values(r), 12);
}

#[test]
fn generated_data_formula() {
    let data = generate_data(5);
    assert_eq!(data.len(), 5);
    assert_eq!(data[0], 0x5A5A);
    assert_eq!(data[1], 31 ^ 0x5A5A);
    assert_eq!(data[4], 124 ^ 0x5A5A);
    let big = generate_data(50_000);
    assert_eq!(big[49_999], (49_999i64 * 31) ^ 0x5A5A);
}

#[test]
fn generated_data_beyond_i64_range_is_empty() {
    let n = usize::MAX;
    if n as u128 > i64::MAX as u128 {
        assert!(generate_data(n).is_empty());
    } else {
        assert_eq!(generate_data(3).len(), 3);
    }
}
