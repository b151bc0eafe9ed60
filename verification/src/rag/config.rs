//! Retrieval settings.
use vstd::prelude::*;

verus! {

/// How dense vectors are compared.
#[derive(Debug, Clone, Copy, PartialEq, Eq, Structural)]
pub enum SimilarityMetric {
    /// Normalized dot product.
    Cosine,
    /// Plain dot product.
    DotProduct,
    /// `1 / (1 + L2 distance)`.
    Euclidean,
}

impl Default for SimilarityMetric {
    fn default() -> (r: SimilarityMetric)
        ensures
            r == SimilarityMetric::Cosine,
    {
        SimilarityMetric::Cosine
    }
}

} // verus!
