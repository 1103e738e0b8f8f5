//! The capabilities every metric space offers.

use vstd::prelude::*;
use crate::spaces::packed::PackedVector;
use crate::types::{Distance, ScoreType, VectorElementType, MAX_DIMENSION};

verus! {

/// A similarity function over vectors of one dimension, with the optional
/// preprocessing it wants applied once before a vector is stored.
pub trait Metric {
    /// The kind of similarity.
    spec fn kind(&self) -> Distance;

    /// The similarity of two vectors of the same dimension; larger is closer.
    spec fn similarity_of(&self, v1: Seq<VectorElementType>, v2: Seq<VectorElementType>) -> int;

    /// What preprocessing turns `vector` into, or `None` where the metric
    /// stores vectors as they are.
    spec fn preprocessed(&self, vector: Seq<VectorElementType>) -> Option<Seq<VectorElementType>>;

    /// Returns the kind of similarity.
    fn distance(&self) -> (kind: Distance)
        ensures
            kind == self.kind(),
    ;

    /// Computes the similarity of two vectors of the same dimension.
    fn similarity(&self, v1: &[VectorElementType], v2: &[VectorElementType]) -> (score: ScoreType)
        requires
            v1@.len() == v2@.len(),
            v1@.len() <= MAX_DIMENSION,
        ensures
            score == self.similarity_of(v1@, v2@),
    ;

    /// Computes the similarity of two packed vectors of the same dimension.
    /// The result is that of [`Metric::similarity`] on the same coordinates.
    fn blas_similarity(&self, v1: &PackedVector, v2: &PackedVector) -> (score: ScoreType)
        requires
            v1@.len() == v2@.len(),
            v1@.len() <= MAX_DIMENSION,
        ensures
            score == self.similarity_of(v1@, v2@),
    ;

    /// Prepares a vector for storage. `None` means that the vector is stored
    /// unchanged; a transformed vector keeps the dimension.
    fn preprocess(&self, vector: &[VectorElementType]) -> (prepared: Option<Vec<VectorElementType>>)
        requires
            vector@.len() <= MAX_DIMENSION,
        ensures
            match prepared {
                Some(v) => self.preprocessed(vector@) == Some(v@) && v@.len() == vector@.len(),
                None => self.preprocessed(vector@) is None,
            },
    ;
}

} // verus!
