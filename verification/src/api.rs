//! How the HTTP interface judges requests and reports failures.
use crate::distance::MetricType;
use crate::error::VectorDbError;
use vstd::prelude::*;

verus! {

/// The body of a request to create a collection.
#[derive(Debug, Clone)]
pub struct CreateCollectionRequest {
    pub name: String,
    pub dim: usize,
    pub metric: MetricType,
    pub is_quantized: Option<bool>,
    pub num_subvectors: Option<usize>,
}

/// What the interface reports about a collection.
#[derive(Debug, Clone)]
pub struct CollectionInfoResponse {
    pub name: String,
    pub dim: usize,
    pub metric: MetricType,
    pub vector_count: usize,
}

/// The body of a request to train product quantization.
#[derive(Debug, Clone, Copy)]
pub struct TrainPqRequest {
    pub num_subvectors: usize,
}

/// The classes of failure a client is told about.
#[derive(Debug, Clone, Copy, PartialEq, Eq, Structural)]
pub enum ApiErrorKind {
    InvalidParameter,
    DimensionMismatch,
    DuplicateId,
    VectorNotFound,
    CollectionNotFound,
    CollectionAlreadyExists,
    Internal,
}

pub open spec fn kind_of(err: VectorDbError) -> ApiErrorKind {
    match err {
        VectorDbError::DimensionMismatch { .. } => ApiErrorKind::DimensionMismatch,
        VectorDbError::DuplicateId(_) => ApiErrorKind::DuplicateId,
        VectorDbError::VectorNotFound(_) => ApiErrorKind::VectorNotFound,
        VectorDbError::CollectionNotFound(_) => ApiErrorKind::CollectionNotFound,
        VectorDbError::CollectionAlreadyExists(_) => ApiErrorKind::CollectionAlreadyExists,
        _ => ApiErrorKind::Internal,
    }
}

/// Bad requests are 400, missing things 404, conflicts 409, anything else 500.
pub open spec fn status_of(kind: ApiErrorKind) -> u16 {
    match kind {
        ApiErrorKind::InvalidParameter => 400,
        ApiErrorKind::DimensionMismatch => 400,
        ApiErrorKind::DuplicateId => 409,
        ApiErrorKind::VectorNotFound => 404,
        ApiErrorKind::CollectionNotFound => 404,
        ApiErrorKind::CollectionAlreadyExists => 409,
        ApiErrorKind::Internal => 500,
    }
}

pub open spec fn code_of(kind: ApiErrorKind) -> Seq<char> {
    match kind {
        ApiErrorKind::InvalidParameter => "INVALID_PARAMETER"@,
        ApiErrorKind::DimensionMismatch => "DIMENSION_MISMATCH"@,
        ApiErrorKind::DuplicateId => "DUPLICATE_ID"@,
        ApiErrorKind::VectorNotFound => "VECTOR_NOT_FOUND"@,
        ApiErrorKind::CollectionNotFound => "COLLECTION_NOT_FOUND"@,
        ApiErrorKind::CollectionAlreadyExists => "COLLECTION_ALREADY_EXISTS"@,
        ApiErrorKind::Internal => "INTERNAL_ERROR"@,
    }
}

impl ApiErrorKind {
    /// The class a database error falls in.
    pub fn of(err: &VectorDbError) -> (r: Self)
        ensures
            r == kind_of(*err),
    {
        match err {
            VectorDbError::DimensionMismatch { .. } => ApiErrorKind::DimensionMismatch,
            VectorDbError::DuplicateId(_) => ApiErrorKind::DuplicateId,
            VectorDbError::VectorNotFound(_) => ApiErrorKind::VectorNotFound,
            VectorDbError::CollectionNotFound(_) => ApiErrorKind::CollectionNotFound,
            VectorDbError::CollectionAlreadyExists(_) => ApiErrorKind::CollectionAlreadyExists,
            _ => ApiErrorKind::Internal,
        }
    }

    /// The HTTP status of the response.
    pub fn status(self) -> (r: u16)
        ensures
            r == status_of(self),
    {
        match self {
            ApiErrorKind::InvalidParameter => 400,
            ApiErrorKind::DimensionMismatch => 400,
            ApiErrorKind::DuplicateId => 409,
            ApiErrorKind::VectorNotFound => 404,
            ApiErrorKind::CollectionNotFound => 404,
            ApiErrorKind::CollectionAlreadyExists => 409,
            ApiErrorKind::Internal => 500,
        }
    }

    /// The machine-readable code carried in the response body.
    pub fn code(self) -> (r: &'static str)
        ensures
            r@ == code_of(self),
    {
        match self {
            ApiErrorKind::InvalidParameter => "INVALID_PARAMETER",
            ApiErrorKind::DimensionMismatch => "DIMENSION_MISMATCH",
            ApiErrorKind::DuplicateId => "DUPLICATE_ID",
            ApiErrorKind::VectorNotFound => "VECTOR_NOT_FOUND",
            ApiErrorKind::CollectionNotFound => "COLLECTION_NOT_FOUND",
            ApiErrorKind::CollectionAlreadyExists => "COLLECTION_ALREADY_EXISTS",
            ApiErrorKind::Internal => "INTERNAL_ERROR",
        }
    }
}

/// Whether a character is white space by Unicode's `White_Space` property, as
/// `char::is_whitespace` decides it.
pub uninterp spec fn unicode_white_space(c: char) -> bool;

/// Calls `char::is_whitespace`. Its result is named `unicode_white_space`;
/// the Unicode table it consults is not written out.
#[verifier::external_body]
fn is_white_space(c: char) -> (r: bool)
    ensures
        r == unicode_white_space(c),
{
    c.is_whitespace()
}

/// A name is blank when all of it is white space: trimming leaves nothing.
pub open spec fn is_blank(name: Seq<char>) -> bool {
    forall|i: int| 0 <= i < name.len() ==> #[trigger] unicode_white_space(name[i])
}

/// Whether a name is blank.
pub fn name_is_blank(name: &str) -> (r: bool)
    ensures
        r == is_blank(name@),
{
    broadcast use vstd::string::axiom_spec_iter;

    let mut blank = true;
    for c in it: name.chars()
        invariant
            it.seq() == name@,
            blank == forall|j: int| 0 <= j < it.index() ==> #[trigger] unicode_white_space(it.seq()[j]),
    {
        if !is_white_space(c) {
            blank = false;
        }
    }
    blank
}

/// A collection needs a name that is not blank and at least one dimension.
pub fn check_create_request(name: &str, dim: usize) -> (r: Result<(), ApiErrorKind>)
    ensures
        r is Ok <==> !is_blank(name@) && dim > 0,
        r is Err ==> r == Err::<(), ApiErrorKind>(ApiErrorKind::InvalidParameter),
{
    if name_is_blank(name) || dim == 0 {
        Err(ApiErrorKind::InvalidParameter)
    } else {
        Ok(())
    }
}

/// An inserted vector needs at least one component.
pub fn check_insert_request(vector_len: usize) -> (r: Result<(), ApiErrorKind>)
    ensures
        r is Ok <==> vector_len > 0,
        r is Err ==> r == Err::<(), ApiErrorKind>(ApiErrorKind::InvalidParameter),
{
    if vector_len == 0 {
        Err(ApiErrorKind::InvalidParameter)
    } else {
        Ok(())
    }
}

/// A search needs a query with at least one component and at least one result asked for.
pub fn check_search_request(query_len: usize, k: usize) -> (r: Result<(), ApiErrorKind>)
    ensures
        r is Ok <==> query_len > 0 && k > 0,
        r is Err ==> r == Err::<(), ApiErrorKind>(ApiErrorKind::InvalidParameter),
{
    if query_len == 0 || k == 0 {
        Err(ApiErrorKind::InvalidParameter)
    } else {
        Ok(())
    }
}

} // verus!
