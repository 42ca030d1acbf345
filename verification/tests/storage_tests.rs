use std::collections::HashMap;
use vectordb_core::error::VectorDbError;
use vectordb_core::storage::VectorStorage;

fn name_meta(name: &str) -> serde_json::Value {
    let mut m = serde_json::Map::new();
    m.insert("name".to_string(), serde_json::Value::from(name));
    serde_json::Value::Object(m)
}

#[test]
fn test_vector_storage_crud() {
    let mut storage: VectorStorage<f32, serde_json::Value> = VectorStorage::new(3);

    let v1 = vec![1.0f32, 2.0, 3.0];
    let v2 = vec![4.0f32, 5.0, 6.0];

    storage.insert(1, &v1, Some(name_meta("v1"))).unwrap();
    storage.insert(2, &v2, None).unwrap();

    assert_eq!(storage.len(), 2);
    assert_eq!(storage.get_vector(1).unwrap(), &v1[..]);

    let deleted = storage.delete(1).unwrap();
    assert!(deleted);
    assert_eq!(storage.len(), 1);
    assert!(storage.get_vector(1).is_none());
}

#[test]
fn insert_with_wrong_dimension_is_refused() {
    let mut storage: VectorStorage<f32, ()> = VectorStorage::new(3);
    match storage.insert(7, &[1.0, 2.0], None) {
        Err(VectorDbError::DimensionMismatch { expected, actual }) => {
            assert_eq!(expected, 3);
            assert_eq!(actual, 2);
        }
        other => panic!("expected a dimension mismatch, got {:?}", other),
    }
    assert!(storage.is_empty());
}

#[test]
fn insert_of_live_id_is_refused() {
    let mut storage: VectorStorage<u32, ()> = VectorStorage::new(2);
    storage.insert(5, &[1, 2], None).unwrap();
    match storage.insert(5, &[3, 4], None) {
        Err(VectorDbError::DuplicateId(id)) => assert_eq!(id, 5),
        other => panic!("expected a duplicate id, got {:?}", other),
    }
    assert_eq!(storage.get_vector(5).unwrap(), &[1, 2][..]);
}

#[test]
fn reinsert_after_delete_reuses_the_slot() {
    let mut storage: VectorStorage<f32, ()> = VectorStorage::new(2);
    storage.insert(1, &[1.0, 1.0], None).unwrap();
    storage.insert(2, &[2.0, 2.0], None).unwrap();
    storage.insert(3, &[3.0, 3.0], None).unwrap();
    assert_eq!(storage.delete(2).unwrap(), true);
    assert_eq!(storage.len(), 2);
    assert!(storage.is_deleted(2));
    storage.insert(2, &[10.0, 10.0], None).unwrap();
    assert_eq!(storage.len(), 3);
    assert!(!storage.is_deleted(2));
    assert_eq!(storage.get_idx_by_id(2), Some(1));
    assert_eq!(storage.get_vector(2).unwrap(), &[10.0, 10.0][..]);
    assert_eq!(storage.raw_idx_to_id(), &[1, 2, 3][..]);
    assert_eq!(storage.raw_data(), &[1.0, 1.0, 10.0, 10.0, 3.0, 3.0][..]);
}

#[test]
fn delete_of_unknown_or_deleted_id_reports_false() {
    let mut storage: VectorStorage<f32, ()> = VectorStorage::new(1);
    assert_eq!(storage.delete(9).unwrap(), false);
    storage.insert(9, &[0.5], None).unwrap();
    assert_eq!(storage.delete(9).unwrap(), true);
    assert_eq!(storage.delete(9).unwrap(), false);
}

#[test]
fn metadata_is_kept_and_dropped_with_the_vector() {
    let mut storage: VectorStorage<f32, serde_json::Value> = VectorStorage::new(1);
    storage.insert(1, &[1.0], Some(name_meta("one"))).unwrap();
    assert_eq!(storage.get_metadata(1), Some(&name_meta("one")));
    storage.delete(1).unwrap();
    assert_eq!(storage.get_metadata(1), None);
    storage.insert(1, &[2.0], None).unwrap();
    assert_eq!(storage.get_metadata(1), None);
}

#[test]
fn vectors_are_read_back_by_slot() {
    let mut storage: VectorStorage<u8, ()> = VectorStorage::new(2);
    storage.insert(40, &[1, 2], None).unwrap();
    storage.insert(41, &[3, 4], None).unwrap();
    assert_eq!(storage.get_vector_by_idx(1), Some(&[3u8, 4][..]));
    assert_eq!(storage.get_vector_by_idx(2), None);
    storage.delete(40).unwrap();
    assert_eq!(storage.get_vector_by_idx(0), None);
    assert_eq!(storage.dim(), 2);
}

#[test]
fn compaction_after_a_middle_delete_shifts_later_slots() {
    let mut storage: VectorStorage<f32, ()> = VectorStorage::new(2);
    for i in 0..10u64 {
        let id = 10 + i;
        storage.insert(id, &[id as f32, id as f32], None).unwrap();
    }
    storage.delete(14).unwrap();
    assert_eq!(storage.len(), 9);
    let new_index: HashMap<u64, usize> = storage.compact();
    assert_eq!(storage.len(), 9);
    assert_eq!(new_index.len(), 9);
    assert_eq!(new_index.get(&13), Some(&3));
    assert_eq!(new_index.get(&15), Some(&4));
    assert_eq!(new_index.get(&19), Some(&8));
    assert!(new_index.get(&14).is_none());
    assert_eq!(storage.raw_idx_to_id(), &[10, 11, 12, 13, 15, 16, 17, 18, 19][..]);
    assert_eq!(storage.get_vector(19).unwrap(), &[19.0, 19.0][..]);
    assert_eq!(storage.get_idx_by_id(15), Some(4));
    assert!(storage.get_vector(14).is_none());
}

#[test]
fn live_ids_skip_deleted_ones_in_slot_order() {
    let mut storage: VectorStorage<u16, ()> = VectorStorage::new(1);
    for id in [7u64, 3, 9, 1] {
        storage.insert(id, &[id as u16], None).unwrap();
    }
    storage.delete(9).unwrap();
    assert_eq!(storage.live_ids(), vec![7, 3, 1]);
}

#[test]
fn from_parts_rebuilds_a_consistent_storage() {
    let rebuilt: Option<VectorStorage<f32, serde_json::Value>> = VectorStorage::from_parts(
        2,
        vec![1.0, 1.0, 2.0, 2.0],
        vec![5, 6],
        vec![6],
        vec![(5, name_meta("five"))],
    );
    let storage = rebuilt.expect("consistent parts");
    assert_eq!(storage.len(), 1);
    assert!(storage.is_deleted(6));
    assert_eq!(storage.get_vector(5).unwrap(), &[1.0, 1.0][..]);
    assert_eq!(storage.get_metadata(5), Some(&name_meta("five")));
}

#[test]
fn from_parts_refuses_inconsistent_parts() {
    let short: Option<VectorStorage<f32, ()>> =
        VectorStorage::from_parts(2, vec![1.0, 1.0, 2.0], vec![5, 6], vec![], vec![]);
    assert!(short.is_none());
    let dup: Option<VectorStorage<f32, ()>> =
        VectorStorage::from_parts(1, vec![1.0, 2.0], vec![5, 5], vec![], vec![]);
    assert!(dup.is_none());
    let stray_tombstone: Option<VectorStorage<f32, ()>> =
        VectorStorage::from_parts(1, vec![1.0], vec![5], vec![8], vec![]);
    assert!(stray_tombstone.is_none());
    let meta_of_deleted: Option<VectorStorage<f32, ()>> =
        VectorStorage::from_parts(1, vec![1.0], vec![5], vec![5], vec![(5, ())]);
    assert!(meta_of_deleted.is_none());
}
