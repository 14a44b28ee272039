//! Applying a simplified batch to an empty in-memory store, operation by
//! operation, and scanning a prefix afterwards.

use std::collections::BTreeMap;

use linera_views::batch::{Batch, WriteOperation};
use linera_views::ordering::starts_with;

fn apply(store: &mut BTreeMap<Vec<u8>, Vec<u8>>, operations: &[WriteOperation]) {
    for operation in operations {
        match operation {
            WriteOperation::Delete { key } => {
                store.remove(key);
            }
            WriteOperation::DeletePrefix { key_prefix } => {
                store.retain(|key, _| !starts_with(key, key_prefix));
            }
            WriteOperation::Put { key, value } => {
                store.insert(key.clone(), value.clone());
            }
        }
    }
}

fn scan(store: &BTreeMap<Vec<u8>, Vec<u8>>, prefix: &[u8]) -> Vec<Vec<u8>> {
    store.keys().filter(|key| starts_with(key, prefix)).cloned().collect()
}

#[test]
fn simplified_batch_on_empty_store_scans_to_surviving_keys() {
    let mut batch = Batch::default();
    batch.put_key_value_bytes(vec![1, 9], vec![90]);
    batch.put_key_value_bytes(vec![1, 2, 3], vec![30]);
    batch.delete_key_prefix(vec![1, 2]);
    batch.put_key_value_bytes(vec![1, 2, 4], vec![40]);
    batch.delete_key(vec![1, 9]);
    batch.put_key_value_bytes(vec![2, 0], vec![20]);
    let simplified = batch.simplify();

    let mut store = BTreeMap::new();
    apply(&mut store, &simplified.operations);

    // exactly the surviving puts, in ascending order
    assert_eq!(scan(&store, &[]), vec![vec![1, 2, 4], vec![2, 0]]);
    assert_eq!(scan(&store, &[1]), vec![vec![1, 2, 4]]);
    assert_eq!(scan(&store, &[1, 2]), vec![vec![1, 2, 4]]);
    assert_eq!(scan(&store, &[3]), Vec::<Vec<u8>>::new());
    assert_eq!(store.get(&vec![1, 2, 4]), Some(&vec![40]));
    assert_eq!(store.get(&vec![2, 0]), Some(&vec![20]));
}

#[test]
fn simplified_batch_has_the_same_effect_as_the_original() {
    let mut batch = Batch::default();
    batch.put_key_value_bytes(vec![5], vec![1]);
    batch.put_key_value_bytes(vec![5, 1], vec![2]);
    batch.delete_key_prefix(vec![5]);
    batch.put_key_value_bytes(vec![5, 2], vec![3]);
    batch.delete_key(vec![6]);
    batch.put_key_value_bytes(vec![6], vec![4]);

    let mut direct = BTreeMap::new();
    direct.insert(vec![5, 9], vec![99]);
    direct.insert(vec![7], vec![77]);
    let mut simplified_store = direct.clone();

    apply(&mut direct, &batch.operations);
    let simplified = batch.simplify();
    apply(&mut simplified_store, &simplified.operations);

    assert_eq!(direct, simplified_store);
}
