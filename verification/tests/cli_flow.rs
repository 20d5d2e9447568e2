//! Tests of the generation flow as the command-line layer drives it:
//! pool assembly from class flags, the default alphabet fallback, and
//! the default password length.

use upwd::{assemble_pool, calculate_entropy, generate_password, generate_passwords, Config};

#[test]
fn opts_collect() {
    let config = Config::default();
    let pool = assemble_pool(&config, true, true, true, true, true);

    assert!(pool.contains_all(config.uppercase().to_owned()));
    assert!(pool.contains_all(config.lowercase().to_owned()));
    assert!(pool.contains_all(config.digits().to_owned()));
    assert!(pool.contains_all(config.symbols().to_owned()));
    assert!(pool.contains_all(config.others().to_owned()));
}

#[test]
fn no_flags_fall_back_to_letters_and_digits() {
    let config = Config::default();
    let pool = assemble_pool(&config, false, false, false, false, false);

    assert!(pool.contains_all(config.uppercase().to_owned()));
    assert!(pool.contains_all(config.lowercase().to_owned()));
    assert!(pool.contains_all(config.digits().to_owned()));
    assert!(!pool.contains_all(config.symbols().to_owned()));
    assert!(!pool.contains_all(config.others().to_owned()));
    assert_eq!(pool.len(), 62);
}

#[test]
fn single_flag_selects_only_that_class() {
    let config = Config::default();
    let pool = assemble_pool(&config, false, false, true, false, false);

    assert_eq!(pool.len(), 10);
    assert!(pool.contains_all(config.digits().to_owned()));
    assert!(!pool.contains('a'));
    assert!(!pool.contains('A'));
}

#[test]
fn default_password_length_is_12() {
    // The default invocation: no class flags, no length or entropy
    // override, so the fallback alphabet and the default length of 12.
    let config = Config::default();
    let pool = assemble_pool(&config, false, false, false, false, false);
    let password = generate_password(&pool, 12).unwrap();

    assert_eq!(password.chars().count(), 12);
}

#[test]
fn password_length_eq_arg_length() {
    let config = Config::default();
    let pool = assemble_pool(&config, false, false, false, false, false);
    let password = generate_password(&pool, 40).unwrap();

    assert_eq!(password.chars().count(), 40);
}

#[test]
fn created_10_passwords() {
    let config = Config::default();
    let pool = assemble_pool(&config, false, false, false, false, false);
    let passwords = generate_passwords(&pool, 12, 10).unwrap();

    assert_eq!(passwords.len(), 10);
}

#[test]
fn info_entropy_reflects_the_achieved_length() {
    // The information summary derives its entropy from the realized
    // integral length and pool size: 15 characters over the 64-character
    // alphabet are reported as 90 whole bits.
    let entropy = calculate_entropy(15, 64).unwrap();

    assert_eq!(entropy / 65536, 90);
    assert_eq!(entropy % 65536, 0);
}
