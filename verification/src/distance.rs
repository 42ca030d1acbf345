use vstd::prelude::*;

verus! {

/// The similarity metric a collection is built with.
#[derive(Debug, Clone, Copy, PartialEq, Eq, Structural)]
pub enum MetricType {
    L2,
    Cosine,
    DotProduct,
}

/// Squared Euclidean distance.
#[derive(Debug, Clone, Copy)]
pub struct L2Distance;

/// One minus the cosine similarity.
#[derive(Debug, Clone, Copy)]
pub struct CosineDistance;

/// The negated inner product.
#[derive(Debug, Clone, Copy)]
pub struct DotProductDistance;

} // verus!
