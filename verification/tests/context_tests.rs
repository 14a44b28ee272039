use linera_views::context::ContextFromDb;
use linera_views::iterate::{
    KeyIterable, KeyValueIterable, SimpleKeyIterator, SimpleKeyValueIterator,
};

fn context(base_key: Vec<u8>) -> ContextFromDb<u8, ()> {
    ContextFromDb { db: (), base_key, extra: 42 }
}

#[test]
fn base_tag_appends_one_byte() {
    let ctx = context(vec![1, 2]);
    assert_eq!(ctx.base_tag(7), vec![1, 2, 7]);
    assert_eq!(ctx.base_key(), vec![1, 2]);
    assert_eq!(*ctx.extra(), 42);
}

#[test]
fn base_tag_index_concatenates_base_tag_and_index() {
    let ctx = context(vec![1]);
    assert_eq!(ctx.base_tag_index(5, &[0xAB]), vec![1, 5, 0xAB]);
}

#[test]
fn derive_key_bytes_concatenates_raw_suffix() {
    let ctx = context(vec![1, 2]);
    assert_eq!(ctx.derive_key_bytes(&[3, 4]), vec![1, 2, 3, 4]);
    assert_eq!(ctx.derive_key_bytes(&[]), vec![1, 2]);
}

#[test]
fn derive_key_from_bytes_extends_the_base_key() {
    let ctx = context(vec![1, 2]);
    let key = ctx.derive_key_from_bytes(&[9]);
    assert_eq!(key, vec![1, 2, 9]);
    assert!(key.len() > ctx.base_key.len());
}

#[test]
fn derive_tag_key_scopes_the_encoded_index_under_the_tag() {
    let ctx = context(vec![1]);
    let key = ctx.derive_tag_key(3, &0xAABBCCDDu32).unwrap();
    let mut expected = vec![1, 3];
    expected.extend(bcs::to_bytes(&0xAABBCCDDu32).unwrap());
    assert_eq!(key, expected);
}

#[test]
fn derive_short_key_is_the_bare_encoding() {
    let ctx = context(vec![1]);
    let key = ctx.derive_short_key(&(7u16, 9u8)).unwrap();
    assert_eq!(key, bcs::to_bytes(&(7u16, 9u8)).unwrap());
}

#[test]
fn derive_tag_key_reports_encoding_errors() {
    let ctx = context(vec![1]);
    assert!(ctx.derive_tag_key(3, &2.5f64).is_err());
    assert!(ctx.derive_short_key(&2.5f64).is_err());
}

#[test]
fn deserialize_value_round_trips_the_encoding() {
    let bytes = bcs::to_bytes(&123456789u64).unwrap();
    let value: u64 = ContextFromDb::<u8, ()>::deserialize_value(&bytes).unwrap();
    assert_eq!(value, 123456789u64);
}

#[test]
fn deserialize_value_rejects_garbage() {
    let result: Result<u64, _> = ContextFromDb::<u8, ()>::deserialize_value(&[1, 2]);
    assert!(result.is_err());
}

#[test]
fn clone_with_base_key_readdresses_the_context() {
    let ctx = context(vec![1, 2]);
    let sub = ctx.clone_with_base_key(vec![1, 2, 9]);
    assert_eq!(sub.base_key, vec![1, 2, 9]);
    assert_eq!(sub.extra, 42);
    assert_eq!(ctx.base_key, vec![1, 2]);
}

#[test]
fn key_iterable_exposes_keys_in_order() {
    let keys = vec![vec![1], vec![2, 3]];
    assert_eq!(keys.key_count(), 2);
    assert_eq!(keys.key_at(0), &[1][..]);
    assert_eq!(keys.key_at(1), &[2, 3][..]);
}

#[test]
fn simple_key_iterator_yields_each_key_then_none() {
    let keys = vec![vec![1], vec![2, 3]];
    let mut iter = SimpleKeyIterator::new(&keys);
    assert_eq!(iter.next(), Some(&[1][..]));
    assert_eq!(iter.next(), Some(&[2, 3][..]));
    assert_eq!(iter.next(), None);
    assert_eq!(iter.next(), None);
}

#[test]
fn key_value_iterable_exposes_pairs_in_order() {
    let entries = vec![(vec![1], vec![10]), (vec![2], vec![20])];
    assert_eq!(entries.key_value_count(), 2);
    assert_eq!(entries.key_value_at(0), (&[1][..], &[10][..]));
    assert_eq!(entries.key_value_at(1), (&[2][..], &[20][..]));
}

#[test]
fn simple_key_value_iterator_yields_each_pair_then_none() {
    let entries = vec![(vec![1], vec![10]), (vec![2], vec![20])];
    let mut iter = SimpleKeyValueIterator::new(&entries);
    assert_eq!(iter.next(), Some((&[1][..], &[10][..])));
    assert_eq!(iter.next(), Some((&[2][..], &[20][..])));
    assert_eq!(iter.next(), None);
}
