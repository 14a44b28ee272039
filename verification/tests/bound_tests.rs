use linera_views::bound::{get_interval, get_upper_bound, Bound};
use linera_views::ordering::{cmp_bytes, starts_with};

#[test]
fn upper_bound_increments_the_last_low_byte() {
    assert_eq!(get_upper_bound(&[5, 255]), Bound::Excluded(vec![6]));
    assert_eq!(get_upper_bound(&[1, 2]), Bound::Excluded(vec![1, 3]));
    assert_eq!(get_upper_bound(&[0]), Bound::Excluded(vec![1]));
}

#[test]
fn upper_bound_of_maximal_prefixes_is_unbounded() {
    assert_eq!(get_upper_bound(&[255, 255]), Bound::Unbounded);
    assert_eq!(get_upper_bound(&[255]), Bound::Unbounded);
    assert_eq!(get_upper_bound(&[]), Bound::Unbounded);
}

#[test]
fn interval_starts_at_the_prefix_itself() {
    let (lower, upper) = get_interval(vec![7, 255]);
    assert_eq!(lower, Bound::Included(vec![7, 255]));
    assert_eq!(upper, Bound::Excluded(vec![8]));
}

#[test]
fn interval_membership_agrees_with_the_prefix_relation() {
    // every key under [5, 255] lies in [[5, 255], [6]), and no other does
    let prefix: &[u8] = &[5, 255];
    let inside: &[&[u8]] = &[&[5, 255], &[5, 255, 0], &[5, 255, 255, 1]];
    let outside: &[&[u8]] = &[&[5], &[5, 254, 255], &[6], &[6, 0], &[4, 255]];
    for key in inside {
        assert!(starts_with(key, prefix));
        assert!(cmp_bytes(prefix, key) <= 0);
        assert_eq!(cmp_bytes(key, &[6]), -1);
    }
    for key in outside {
        assert!(!starts_with(key, prefix));
        assert!(cmp_bytes(prefix, key) == 1 || cmp_bytes(key, &[6]) >= 0);
    }
}

#[test]
fn byte_order_is_lexicographic() {
    assert_eq!(cmp_bytes(&[], &[]), 0);
    assert_eq!(cmp_bytes(&[], &[0]), -1);
    assert_eq!(cmp_bytes(&[1], &[1]), 0);
    assert_eq!(cmp_bytes(&[1], &[1, 0]), -1);
    assert_eq!(cmp_bytes(&[1, 0], &[1]), 1);
    assert_eq!(cmp_bytes(&[1, 200], &[2]), -1);
    assert_eq!(cmp_bytes(&[2], &[1, 200]), 1);
}

#[test]
fn starts_with_checks_the_leading_bytes() {
    assert!(starts_with(&[1, 2, 3], &[]));
    assert!(starts_with(&[1, 2, 3], &[1, 2]));
    assert!(starts_with(&[1, 2, 3], &[1, 2, 3]));
    assert!(!starts_with(&[1, 2, 3], &[1, 2, 3, 4]));
    assert!(!starts_with(&[1, 2, 3], &[2]));
}
