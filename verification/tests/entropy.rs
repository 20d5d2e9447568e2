//! Tests of the entropy engine: entropy/length conversions, their exact
//! round trip, and the error policy for degenerate pool sizes.

use upwd::{calculate_entropy, calculate_length, UpwdError};

/// One unit of the fixed-point entropy representation is 1/65536 bit.
const BIT: u128 = 65536;

#[test]
fn calculate_entropy_assert_true() {
    let entropy = calculate_entropy(12, 64);

    assert_eq!(entropy, Ok(72 * BIT));
}

#[test]
fn calculate_entropy_passed_length_is_0() {
    let entropy = calculate_entropy(0, 64);

    assert_eq!(entropy, Ok(0))
}

#[test]
fn calculate_entropy_passed_pool_size_is_0() {
    let entropy = calculate_entropy(12, 0);

    assert_eq!(entropy, Err(UpwdError::EmptyPool));
}

#[test]
fn calculate_entropy_passed_pool_size_is_1() {
    let entropy = calculate_entropy(12, 1);

    assert_eq!(entropy, Ok(0))
}

#[test]
fn calculate_length_assert_true() {
    let length = calculate_length(128 * BIT, 64);

    assert_eq!(length, Ok(22));
}

#[test]
fn calculate_length_entropy_is_0() {
    let length = calculate_length(0, 64);

    assert_eq!(length, Ok(0));
}

#[test]
fn calculate_length_pool_size_is_0() {
    let length = calculate_length(128 * BIT, 0);

    assert_eq!(length, Err(UpwdError::DegeneratePoolSize));
}

#[test]
fn calculate_length_pool_size_is_1() {
    let length = calculate_length(128 * BIT, 1);

    assert_eq!(length, Err(UpwdError::DegeneratePoolSize));
}

#[test]
fn entropy_of_one_bit_pool() {
    // A pool of two characters carries exactly one bit per character.
    assert_eq!(calculate_entropy(1, 2), Ok(BIT));
    assert_eq!(calculate_entropy(40, 2), Ok(40 * BIT));
}

#[test]
fn entropy_matches_real_logarithm() {
    // log2(10) = 3.3219...; the fixed-point value agrees to well under a
    // thousandth of a bit.
    let entropy = calculate_entropy(1, 10).unwrap();
    let bits = entropy as f64 / BIT as f64;

    assert!((bits - 10f64.log2()).abs() < 0.001);
}

#[test]
fn entropy_round_trip_is_exact() {
    // Entropy computed for a given length converts back to exactly that
    // length, even where the logarithm is irrational.
    for pool_size in [2, 10, 26, 62, 64, 90] {
        for length in [0, 1, 12, 17, 1000] {
            let entropy = calculate_entropy(length, pool_size).unwrap();
            let back = calculate_length(entropy, pool_size).unwrap();

            assert_eq!(back, length as u128);
        }
    }
}

#[test]
fn entropy_monotone_in_length() {
    let mut previous = calculate_entropy(0, 10).unwrap();
    for length in 1..50 {
        let entropy = calculate_entropy(length, 10).unwrap();

        assert!(entropy >= previous);
        previous = entropy;
    }
}

#[test]
fn calculate_length_rounds_up() {
    // At six bits per character, 60 bits need exactly ten characters,
    // and anything beyond them needs one more: under-rounding would
    // under-deliver the requested entropy.
    assert_eq!(calculate_length(61 * BIT, 64), Ok(11));
    assert_eq!(calculate_length(60 * BIT, 64), Ok(10));
    assert_eq!(calculate_length(1, 64), Ok(1));
}

#[test]
fn entropy_exact_on_power_of_two_pools() {
    // One character from a pool of 2^k carries exactly k bits.
    assert_eq!(calculate_entropy(1, 1), Ok(0));
    assert_eq!(calculate_entropy(1, 2), Ok(BIT));
    assert_eq!(calculate_entropy(1, 64), Ok(6 * BIT));
    assert_eq!(calculate_entropy(1, 1 << 62), Ok(62 * BIT));
}

#[test]
fn large_exponent_stays_finite() {
    // The historical hazard: a huge length must not overflow or
    // saturate.  In the logarithmic domain the entropy comes out exact.
    let entropy = calculate_entropy(usize::MAX, 64).unwrap();

    assert_eq!(entropy, usize::MAX as u128 * 6 * BIT);
}
