use linera_views::batch::{Batch, WriteOperation};

fn put(key: &[u8], value: &[u8]) -> WriteOperation {
    WriteOperation::Put { key: key.to_vec(), value: value.to_vec() }
}

fn delete(key: &[u8]) -> WriteOperation {
    WriteOperation::Delete { key: key.to_vec() }
}

fn delete_prefix(key_prefix: &[u8]) -> WriteOperation {
    WriteOperation::DeletePrefix { key_prefix: key_prefix.to_vec() }
}

#[test]
fn builders_append_in_order() {
    let mut batch = Batch::default();
    batch.put_key_value_bytes(vec![1, 2], vec![9]);
    batch.delete_key(vec![3]);
    batch.delete_key_prefix(vec![1]);
    assert_eq!(
        batch.operations,
        vec![put(&[1, 2], &[9]), delete(&[3]), delete_prefix(&[1])]
    );
}

#[test]
fn simplify_last_put_wins() {
    let mut batch = Batch::default();
    batch.put_key_value_bytes(vec![1, 2], vec![10]);
    batch.put_key_value_bytes(vec![1, 2], vec![20]);
    let simplified = batch.simplify();
    assert_eq!(simplified.operations, vec![put(&[1, 2], &[20])]);
}

#[test]
fn simplify_prefix_absorbs_earlier_put() {
    let mut batch = Batch::default();
    batch.put_key_value_bytes(vec![1, 2], vec![10]);
    batch.delete_key_prefix(vec![1]);
    let simplified = batch.simplify();
    assert_eq!(simplified.operations, vec![delete_prefix(&[1])]);
}

#[test]
fn simplify_keeps_later_put_under_prefix() {
    let mut batch = Batch::default();
    batch.delete_key_prefix(vec![1]);
    batch.put_key_value_bytes(vec![1, 2], vec![10]);
    let simplified = batch.simplify();
    assert_eq!(
        simplified.operations,
        vec![delete_prefix(&[1]), put(&[1, 2], &[10])]
    );
}

#[test]
fn simplify_is_idempotent_on_a_mixed_batch() {
    let mut batch = Batch::default();
    batch.put_key_value_bytes(vec![4], vec![1]);
    batch.delete_key(vec![2, 2]);
    batch.delete_key_prefix(vec![3]);
    batch.put_key_value_bytes(vec![3, 1], vec![2]);
    batch.delete_key_prefix(vec![2]);
    let once = batch.simplify();
    let expected = once.operations.clone();
    let twice = Batch { operations: once.operations }.simplify();
    assert_eq!(twice.operations, expected);
}

#[test]
fn simplify_orders_prefix_deletes_first_and_sorts_groups() {
    let mut batch = Batch::default();
    batch.put_key_value_bytes(vec![9], vec![0]);
    batch.delete_key_prefix(vec![5]);
    batch.delete_key(vec![0]);
    batch.delete_key_prefix(vec![2]);
    batch.put_key_value_bytes(vec![7], vec![1]);
    let simplified = batch.simplify();
    assert_eq!(
        simplified.operations,
        vec![
            delete_prefix(&[2]),
            delete_prefix(&[5]),
            delete(&[0]),
            put(&[7], &[1]),
            put(&[9], &[0]),
        ]
    );
}

#[test]
fn simplify_absorbs_covered_prefixes() {
    let mut batch = Batch::default();
    batch.delete_key_prefix(vec![1, 2]);
    batch.delete_key_prefix(vec![1, 3]);
    batch.delete_key_prefix(vec![1]);
    let simplified = batch.simplify();
    assert_eq!(simplified.operations, vec![delete_prefix(&[1])]);
}

#[test]
fn simplify_keeps_overlapping_distinct_prefixes() {
    let mut batch = Batch::default();
    batch.delete_key_prefix(vec![1]);
    batch.put_key_value_bytes(vec![1, 2, 9], vec![7]);
    batch.delete_key_prefix(vec![1, 2]);
    batch.put_key_value_bytes(vec![1, 3], vec![8]);
    let simplified = batch.simplify();
    assert_eq!(
        simplified.operations,
        vec![
            delete_prefix(&[1]),
            delete_prefix(&[1, 2]),
            put(&[1, 3], &[8]),
        ]
    );
}

#[test]
fn simplify_empty_prefix_erases_everything_pending() {
    let mut batch = Batch::default();
    batch.put_key_value_bytes(vec![1], vec![1]);
    batch.delete_key(vec![2]);
    batch.delete_key_prefix(vec![]);
    let simplified = batch.simplify();
    assert_eq!(simplified.operations, vec![delete_prefix(&[])]);
}

#[test]
fn simplify_of_empty_batch_is_empty() {
    let batch = Batch::default();
    let simplified = batch.simplify();
    assert_eq!(simplified.operations, Vec::new());
}

#[test]
fn put_key_value_encodes_with_the_shared_codec() {
    let mut batch = Batch::default();
    batch.put_key_value(vec![1], &0x0102030405060708u64).unwrap();
    let expected = bcs::to_bytes(&0x0102030405060708u64).unwrap();
    assert_eq!(batch.operations, vec![put(&[1], &expected)]);
}

#[test]
fn put_key_value_reports_encoding_errors_and_keeps_the_batch() {
    let mut batch = Batch::default();
    batch.put_key_value_bytes(vec![1], vec![2]);
    let result = batch.put_key_value(vec![3], &1.5f32);
    assert!(result.is_err());
    assert_eq!(batch.operations, vec![put(&[1], &[2])]);
}
