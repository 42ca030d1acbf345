use vectordb_core::catalog::Catalog;
use vectordb_core::error::VectorDbError;

#[test]
fn created_collection_is_found_by_name() {
    let mut catalog: Catalog<u32> = Catalog::new();
    catalog.create("alpha".to_string(), 1).unwrap();
    catalog.create("beta".to_string(), 2).unwrap();
    assert_eq!(*catalog.get("alpha").unwrap(), 1);
    assert_eq!(*catalog.get("beta").unwrap(), 2);
    assert!(catalog.contains("beta"));
    assert!(!catalog.contains("gamma"));
}

#[test]
fn taken_name_is_refused_and_nothing_changes() {
    let mut catalog: Catalog<u32> = Catalog::new();
    catalog.create("test_col".to_string(), 1).unwrap();
    match catalog.create("test_col".to_string(), 2) {
        Err(VectorDbError::CollectionAlreadyExists(name)) => assert_eq!(name, "test_col"),
        other => panic!("expected the name to be refused, got {:?}", other),
    }
    assert_eq!(*catalog.get("test_col").unwrap(), 1);
    assert_eq!(catalog.names_in_order(), vec!["test_col".to_string()]);
}

#[test]
fn unknown_name_is_not_found() {
    let catalog: Catalog<u32> = Catalog::new();
    match catalog.get("non_existent") {
        Err(VectorDbError::CollectionNotFound(name)) => assert_eq!(name, "non_existent"),
        other => panic!("expected not found, got {:?}", other),
    }
}

#[test]
fn dropped_collection_is_gone_and_others_stay() {
    let mut catalog: Catalog<&str> = Catalog::new();
    catalog.create("alpha".to_string(), "a").unwrap();
    catalog.create("beta".to_string(), "b").unwrap();
    catalog.create("gamma".to_string(), "c").unwrap();
    assert!(catalog.remove("beta"));
    assert!(!catalog.remove("beta"));
    assert!(catalog.get("beta").is_err());
    assert_eq!(*catalog.get("gamma").unwrap(), "c");
    assert_eq!(catalog.names_in_order(), vec!["alpha".to_string(), "gamma".to_string()]);
}

#[test]
fn create_then_drop_restores_the_catalog() {
    let mut catalog: Catalog<u8> = Catalog::new();
    catalog.create("kept".to_string(), 1).unwrap();
    catalog.create("transient".to_string(), 2).unwrap();
    assert!(catalog.remove("transient"));
    assert_eq!(catalog.names_in_order(), vec!["kept".to_string()]);
    catalog.create("transient".to_string(), 3).unwrap();
    assert_eq!(*catalog.get("transient").unwrap(), 3);
}
