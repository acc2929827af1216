use folder_scanner::numbers::{fib_u128, rotate_left_13, scalar_mix_iterations, MIX_MULTIPLIER, MIX_SEED};

#[test]
fn fib_small_values() {
    assert_eq!(fib_u128(0), Some(0));
    assert_eq!(fib_u128(1), Some(1));
    assert_eq!(fib_u128(2), Some(1));
    assert_eq!(fib_u128(10), Some(55));
}

#[test]
fn fib_eighty_as_in_the_demo() {
    assert_eq!(fib_u128(80), Some(23_416_728_348_467_685));
}

#[test]
fn fib_largest_accepted_argument() {
    assert_eq!(fib_u128(128), Some(251_728_825_683_549_488_150_424_261));
}

#[test]
fn fib_rejects_arguments_above_128() {
    assert_eq!(fib_u128(129), None);
    assert_eq!(fib_u128(u32::MAX), None);
}

#[test]
fn fib_follows_recurrence() {
    for n in 2..=128u32 {
        let a = fib_u128(n - 2).unwrap();
        let b = fib_u128(n - 1).unwrap();
        assert_eq!(fib_u128(n), Some(a + b));
    }
}

#[test]
fn rotation_matches_std_rotate_left() {
    let samples = [0u64, 1, 0xC0FFEE, u64::MAX, 0x8000_0000_0000_0000, 0x0123_4567_89AB_CDEF];
    for &x in samples.iter() {
        assert_eq!(rotate_left_13(x), x.rotate_left(13));
    }
    assert_eq!(rotate_left_13(1), 8192);
    assert_eq!(rotate_left_13(0x8000_0000_0000_0000), 0x1000);
}

#[test]
fn mix_with_zero_rounds_is_the_seed() {
    assert_eq!(scalar_mix_iterations(0), 0xC0FFEE);
}

#[test]
fn mix_one_round_exact_value() {
    // rotl13(0xC0FFEE) = 0x18_1FFD_C000; times the multiplier modulo 2^64, plus one.
    let expected = 0x18_1FFD_C000u64.wrapping_mul(0x9E37_79B9_7F4A_7C15).wrapping_add(1);
    assert_eq!(scalar_mix_iterations(1), expected);
}

#[test]
fn mix_matches_step_by_step_rounds() {
    let mut x = MIX_SEED;
    for rounds in 0..50u32 {
        assert_eq!(scalar_mix_iterations(rounds), x);
        x = x.rotate_left(13).wrapping_mul(MIX_MULTIPLIER).wrapping_add(1);
    }
}
