//! Tests of the character pool: construction, deduplication, insertion
//! order, membership and superset queries.

use upwd::Pool;

#[test]
fn from_string_deduplicates() {
    let pool = Pool::from_string("aabbcc".to_owned());

    assert_eq!(pool.len(), 3);
    assert!(pool.contains('a'));
    assert!(pool.contains('b'));
    assert!(pool.contains('c'));
    assert!(!pool.contains('d'));
}

#[test]
fn new_pool_is_empty() {
    let pool = Pool::new();

    assert!(pool.is_empty());
    assert_eq!(pool.len(), 0);
    assert_eq!(pool.get(0), None);
}

#[test]
fn insertion_order_is_kept() {
    let mut pool = Pool::from_string("abc".to_owned());
    pool.extend_from_string("bcd".to_owned());

    assert_eq!(pool.len(), 4);
    assert_eq!(pool.get(0), Some('a'));
    assert_eq!(pool.get(1), Some('b'));
    assert_eq!(pool.get(2), Some('c'));
    assert_eq!(pool.get(3), Some('d'));
    assert_eq!(pool.get(4), None);
}

#[test]
fn extend_with_duplicates_is_a_no_op() {
    let mut pool = Pool::from_string("0123456789".to_owned());
    pool.extend_from_string("90".to_owned());

    assert_eq!(pool.len(), 10);
    assert_eq!(pool.get(0), Some('0'));
    assert_eq!(pool.get(9), Some('9'));
}

#[test]
fn contains_all_is_a_superset_check() {
    let pool = Pool::from_string("abcdef".to_owned());

    assert!(pool.contains_all("fed".to_owned()));
    assert!(pool.contains_all("".to_owned()));
    assert!(!pool.contains_all("abcz".to_owned()));
}

#[test]
fn pool_handles_non_ascii_characters() {
    let pool = Pool::from_string("\u{2655}\u{2656}\u{2655}".to_owned());

    assert_eq!(pool.len(), 2);
    assert!(pool.contains('\u{2655}'));
    assert_eq!(pool.get(1), Some('\u{2656}'));
}
