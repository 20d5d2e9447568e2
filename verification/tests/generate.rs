//! Tests of password sampling: length, pool membership, the empty-pool
//! error, and statistical coverage of the pool.

use upwd::{generate_password, generate_passwords, Pool, UpwdError};

#[test]
fn generate_password_assert_len() {
    let pool = Pool::from_string("0123456789".to_owned());
    let password = generate_password(&pool, 15).unwrap();

    assert_eq!(password.len(), 15);
}

#[test]
fn generate_password_passed_empty_pool() {
    let pool = Pool::from_string("".to_owned());

    assert_eq!(generate_password(&pool, 15), Err(UpwdError::EmptyPool));
}

#[test]
fn generated_characters_come_from_the_pool() {
    let pool = Pool::from_string("abc".to_owned());
    let password = generate_password(&pool, 200).unwrap();

    assert_eq!(password.chars().count(), 200);
    for c in password.chars() {
        assert!(pool.contains(c));
    }
}

#[test]
fn zero_length_password_is_empty() {
    let pool = Pool::from_string("abc".to_owned());
    let password = generate_password(&pool, 0).unwrap();

    assert_eq!(password, "");
}

#[test]
fn long_sample_covers_the_whole_pool() {
    // Sampling 1000 characters from a pool of ten misses a given
    // character with probability 0.9^1000: every character should occur.
    let pool = Pool::from_string("0123456789".to_owned());
    let password = generate_password(&pool, 1000).unwrap();

    for digit in "0123456789".chars() {
        assert!(password.contains(digit));
    }
}

#[test]
fn generate_passwords_produces_the_requested_count() {
    let pool = Pool::from_string("0123456789".to_owned());
    let passwords = generate_passwords(&pool, 8, 10).unwrap();

    assert_eq!(passwords.len(), 10);
    for password in &passwords {
        assert_eq!(password.len(), 8);
    }
}

#[test]
fn generate_passwords_rejects_an_empty_pool_before_any_output() {
    let pool = Pool::new();

    assert_eq!(generate_passwords(&pool, 8, 10), Err(UpwdError::EmptyPool));
}
