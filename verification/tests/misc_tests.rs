use vectordb_core::api::{check_create_request, check_insert_request, check_search_request, name_is_blank, ApiErrorKind};
use vectordb_core::error::VectorDbError;
use vectordb_core::pq::QuantizedVectorStorage;
use vectordb_core::snapshot::SnapshotTrigger;

#[test]
fn errors_map_to_status_and_code() {
    let cases = vec![
        (VectorDbError::DimensionMismatch { expected: 3, actual: 2 }, 400, "DIMENSION_MISMATCH"),
        (VectorDbError::DuplicateId(1), 409, "DUPLICATE_ID"),
        (VectorDbError::VectorNotFound(999), 404, "VECTOR_NOT_FOUND"),
        (VectorDbError::CollectionNotFound("non_existent".to_string()), 404, "COLLECTION_NOT_FOUND"),
        (VectorDbError::CollectionAlreadyExists("test_col".to_string()), 409, "COLLECTION_ALREADY_EXISTS"),
        (VectorDbError::StorageError("disk".to_string()), 500, "INTERNAL_ERROR"),
        (VectorDbError::WalCrcMismatch { offset: 0, expected: 1, actual: 2 }, 500, "INTERNAL_ERROR"),
    ];
    for (err, status, code) in cases {
        let kind = ApiErrorKind::of(&err);
        assert_eq!(kind.status(), status);
        assert_eq!(kind.code(), code);
    }
    assert_eq!(ApiErrorKind::InvalidParameter.status(), 400);
    assert_eq!(ApiErrorKind::InvalidParameter.code(), "INVALID_PARAMETER");
}

#[test]
fn request_checks_refuse_blank_and_empty_inputs() {
    assert_eq!(check_create_request("   ", 4), Err(ApiErrorKind::InvalidParameter));
    assert_eq!(check_create_request("", 4), Err(ApiErrorKind::InvalidParameter));
    assert_eq!(check_create_request("\t\n\u{3000}", 4), Err(ApiErrorKind::InvalidParameter));
    assert_eq!(check_create_request("zero_dim_col", 0), Err(ApiErrorKind::InvalidParameter));
    assert_eq!(check_create_request("test_col", 4), Ok(()));
    assert_eq!(check_create_request(" padded ", 4), Ok(()));
    assert!(name_is_blank(" \t "));
    assert!(!name_is_blank(" a "));
    assert_eq!(check_insert_request(0), Err(ApiErrorKind::InvalidParameter));
    assert_eq!(check_insert_request(3), Ok(()));
    assert_eq!(check_search_request(0, 5), Err(ApiErrorKind::InvalidParameter));
    assert_eq!(check_search_request(3, 0), Err(ApiErrorKind::InvalidParameter));
    assert_eq!(check_search_request(3, 5), Ok(()));
}

#[test]
fn snapshot_is_due_on_the_threshold_operation() {
    let mut trigger = SnapshotTrigger::new(3);
    assert!(!trigger.record_op());
    assert!(!trigger.record_op());
    assert!(trigger.record_op());
    assert_eq!(trigger.ops_since_snapshot, 3);
    trigger.reset();
    assert_eq!(trigger.ops_since_snapshot, 0);
    assert!(!trigger.record_op());
}

#[test]
fn zero_threshold_turns_automatic_snapshots_off() {
    let mut trigger = SnapshotTrigger::new(0);
    for _ in 0..10 {
        assert!(!trigger.record_op());
    }
    assert_eq!(trigger.ops_since_snapshot, 0);
}

#[test]
fn quantized_codes_are_stored_replaced_and_deleted() {
    let mut store: QuantizedVectorStorage<&str> = QuantizedVectorStorage::new("codebook", 4);
    assert!(store.is_empty());
    store.insert_code(24, vec![1, 2]);
    store.insert_code(7, vec![3, 4]);
    assert_eq!(store.len(), 2);
    assert_eq!(store.ids(), &[24, 7][..]);
    store.insert_code(24, vec![9, 9]);
    assert_eq!(store.codes()[0], vec![9, 9]);
    assert!(store.delete(7));
    assert!(!store.delete(7));
    assert!(store.is_deleted(7));
    assert_eq!(store.len(), 2);
    store.insert_code(7, vec![5, 6]);
    assert!(!store.is_deleted(7));
    assert_eq!(store.codes()[1], vec![5, 6]);
    assert_eq!(store.dim(), 4);
    assert_eq!(*store.quantizer(), "codebook");
}

#[test]
fn quantized_store_from_parts() {
    let ok = QuantizedVectorStorage::from_parts((), 2, vec![vec![1], vec![2]], vec![5, 6], vec![6]);
    let store = ok.expect("consistent parts");
    assert!(store.is_deleted(6));
    assert!(!store.is_deleted(5));
    assert!(QuantizedVectorStorage::from_parts((), 2, vec![vec![1]], vec![5, 6], vec![]).is_none());
    assert!(QuantizedVectorStorage::from_parts((), 2, vec![vec![1], vec![2]], vec![5, 5], vec![]).is_none());
    assert!(QuantizedVectorStorage::from_parts((), 2, vec![vec![1]], vec![5], vec![8]).is_none());
}
