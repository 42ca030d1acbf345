use vstd::prelude::*;

verus! {

#[verifier::external_type_specification]
#[verifier::external_body]
pub struct ExJsonError(serde_json::Error);

#[verifier::external_type_specification]
#[verifier::external_body]
pub struct ExIoError(std::io::Error);

/// Every way an operation of the database can fail.
#[derive(Debug)]
pub enum VectorDbError {
    DimensionMismatch { expected: usize, actual: usize },
    DuplicateId(u64),
    VectorNotFound(u64),
    CollectionNotFound(String),
    CollectionAlreadyExists(String),
    StorageError(String),
    SerializationError(serde_json::Error),
    IoError(std::io::Error),
    WalCrcMismatch { offset: u64, expected: u32, actual: u32 },
}

} // verus!
