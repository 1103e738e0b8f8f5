//! Vectors held in memory, and the scorer over them.

use vstd::prelude::*;
use crate::spaces::metric::Metric;
use crate::spaces::packed::PackedVector;
use crate::types::{
    OperationError, PointOffsetType, ScoreType, VectorElementType, MAX_DIMENSION,
};
use crate::vector_storage::RawScorer;

verus! {

/// One slot of the storage: a vector, and whether it has been deleted.
pub struct StoredVector {
    pub vector: PackedVector,
    pub deleted: bool,
}

/// The form in which `metric` wants `vector` stored: preprocessed where the
/// metric preprocesses, unchanged where it does not.
pub open spec fn stored_form<TMetric: Metric>(
    metric: &TMetric,
    vector: Seq<VectorElementType>,
) -> Seq<VectorElementType> {
    match metric.preprocessed(vector) {
        Some(prepared) => prepared,
        None => vector,
    }
}

/// Brings a vector into the form in which `metric` wants it stored.
fn prepare<TMetric: Metric>(metric: &TMetric, vector: &[VectorElementType]) -> (packed: PackedVector)
    requires
        vector@.len() <= MAX_DIMENSION,
    ensures
        packed@ == stored_form(metric, vector@),
        packed@.len() == vector@.len(),
{
    match metric.preprocess(vector) {
        Some(prepared) => PackedVector::pack(prepared.as_slice()),
        None => PackedVector::pack(vector),
    }
}

/// Vectors of one dimension under one metric, addressed by offset in the
/// order in which they were put.
pub struct SimpleVectorStorage<TMetric: Metric> {
    dim: usize,
    metric: TMetric,
    entries: Vec<StoredVector>,
}

impl<TMetric: Metric> SimpleVectorStorage<TMetric> {
    /// Every vector has the dimension of the storage, which is one that can
    /// be scored, and every offset fits a point offset.
    pub closed spec fn wf(&self) -> bool {
        &&& self.dim <= MAX_DIMENSION
        &&& self.entries@.len() <= u32::MAX + 1
        &&& forall|i: int|
            0 <= i < self.entries@.len() ==> (#[trigger] self.entries@[i]).vector@.len()
                == self.dim
    }

    /// The dimension of every vector.
    pub closed spec fn dimension(&self) -> nat {
        self.dim as nat
    }

    /// The metric.
    pub closed spec fn metric_of(&self) -> TMetric {
        self.metric
    }

    /// The stored vectors, by offset.
    pub closed spec fn vectors(&self) -> Seq<Seq<VectorElementType>> {
        Seq::new(self.entries@.len(), |i: int| self.entries@[i].vector@)
    }

    /// Whether the vector at each offset has been deleted.
    pub closed spec fn deletions(&self) -> Seq<bool> {
        Seq::new(self.entries@.len(), |i: int| self.entries@[i].deleted)
    }

    /// An empty storage for vectors of dimension `dim`. A dimension above
    /// [`MAX_DIMENSION`] is refused.
    pub fn new(dim: usize, metric: TMetric) -> (storage: Result<Self, OperationError>)
        ensures
            match storage {
                Ok(made) => {
                    &&& dim <= MAX_DIMENSION
                    &&& made.wf()
                    &&& made.dimension() == dim
                    &&& made.metric_of() == metric
                    &&& made.vectors().len() == 0
                    &&& made.deletions().len() == 0
                },
                Err(error) => {
                    &&& dim > MAX_DIMENSION
                    &&& error == (OperationError::DimensionTooLarge { dim, max_dim: MAX_DIMENSION })
                },
            },
    {
        if dim > MAX_DIMENSION {
            return Err(OperationError::DimensionTooLarge { dim, max_dim: MAX_DIMENSION });
        }
        Ok(SimpleVectorStorage { dim, metric, entries: Vec::new() })
    }

    /// Why `vector` cannot be put, if it cannot: it has the wrong dimension,
    /// or every offset is taken.
    pub open spec fn put_refusal(&self, vector: Seq<VectorElementType>) -> Option<OperationError> {
        if vector.len() != self.dimension() {
            Some(
                OperationError::WrongVector {
                    expected_dim: self.dimension() as usize,
                    received_dim: vector.len() as usize,
                },
            )
        } else if self.vectors().len() > u32::MAX {
            Some(OperationError::StorageFull)
        } else {
            None
        }
    }

    /// Stores `vector`, in the form the metric wants, at the next free
    /// offset, and returns that offset.
    pub fn put_vector(&mut self, vector: &[VectorElementType]) -> (outcome: Result<
        PointOffsetType,
        OperationError,
    >)
        requires
            old(self).wf(),
        ensures
            final(self).wf(),
            final(self).dimension() == old(self).dimension(),
            final(self).metric_of() == old(self).metric_of(),
            match old(self).put_refusal(vector@) {
                Some(error) => {
                    &&& outcome == Err::<PointOffsetType, OperationError>(error)
                    &&& final(self).vectors() == old(self).vectors()
                    &&& final(self).deletions() == old(self).deletions()
                },
                None => {
                    &&& outcome == Ok::<PointOffsetType, OperationError>(
                        old(self).vectors().len() as PointOffsetType,
                    )
                    &&& final(self).vectors() == old(self).vectors().push(
                        stored_form(&old(self).metric_of(), vector@),
                    )
                    &&& final(self).deletions() == old(self).deletions().push(false)
                },
            },
    {
        if vector.len() != self.dim {
            return Err(
                OperationError::WrongVector { expected_dim: self.dim, received_dim: vector.len() },
            );
        }
        if self.entries.len() > u32::MAX as usize {
            return Err(OperationError::StorageFull);
        }
        let offset: PointOffsetType = self.entries.len() as PointOffsetType;
        let packed = prepare(&self.metric, vector);
        self.entries.push(StoredVector { vector: packed, deleted: false });
        proof {
            assert(self.vectors() =~= old(self).vectors().push(
                stored_form(&old(self).metric_of(), vector@),
            ));
            assert(self.deletions() =~= old(self).deletions().push(false));
        }
        Ok(offset)
    }

    /// Marks the vector at `point` as deleted. Returns whether there was a
    /// live vector at that offset.
    pub fn delete(&mut self, point: PointOffsetType) -> (was_live: bool)
        requires
            old(self).wf(),
        ensures
            final(self).wf(),
            final(self).dimension() == old(self).dimension(),
            final(self).metric_of() == old(self).metric_of(),
            final(self).vectors() == old(self).vectors(),
            was_live == (point < old(self).deletions().len() && !old(self).deletions()[point as int]),
            final(self).deletions() == (if point < old(self).deletions().len() {
                old(self).deletions().update(point as int, true)
            } else {
                old(self).deletions()
            }),
    {
        if (point as usize) < self.entries.len() {
            let was_live = !self.entries[point as usize].deleted;
            self.entries[point as usize].deleted = true;
            proof {
                assert(self.vectors() =~= old(self).vectors());
                assert(self.deletions() =~= old(self).deletions().update(point as int, true));
            }
            was_live
        } else {
            false
        }
    }

    /// Number of offsets in use.
    pub fn vector_count(&self) -> (count: usize)
        ensures
            count == self.vectors().len(),
    {
        self.entries.len()
    }

    /// The dimension of every vector.
    pub fn vector_dim(&self) -> (dim: usize)
        ensures
            dim == self.dimension(),
    {
        self.dim
    }

    /// The vector stored at `point`, deleted or not, if the offset is in use.
    pub fn get_vector(&self, point: PointOffsetType) -> (vector: Option<Vec<VectorElementType>>)
        ensures
            match vector {
                Some(coordinates) => point < self.vectors().len() && coordinates@
                    == self.vectors()[point as int],
                None => point >= self.vectors().len(),
            },
    {
        if (point as usize) < self.entries.len() {
            let packed = &self.entries[point as usize].vector;
            let len: usize = packed.len();
            let mut coordinates: Vec<VectorElementType> = Vec::new();
            let mut i: usize = 0;
            while i < len
                invariant
                    i <= len,
                    len == packed@.len(),
                    coordinates@.len() == i,
                    forall|j: int| 0 <= j < i ==> #[trigger] coordinates@[j] == packed@[j],
                decreases len - i,
            {
                coordinates.push(packed.at(i));
                i = i + 1;
            }
            proof {
                assert(coordinates@ =~= packed@);
            }
            Some(coordinates)
        } else {
            None
        }
    }

    /// A scorer of the stored vectors against `query`, which is brought into
    /// the stored form first. A query of the wrong dimension is refused.
    pub fn raw_scorer(&self, query: &[VectorElementType]) -> (outcome: Result<
        SimpleRawScorer<'_, TMetric>,
        OperationError,
    >)
        requires
            self.wf(),
        ensures
            match outcome {
                Ok(scorer) => {
                    &&& query@.len() == self.dimension()
                    &&& scorer.query() == stored_form(&self.metric_of(), query@)
                    &&& scorer.metric_of() == self.metric_of()
                    &&& scorer.vectors() == self.vectors()
                    &&& scorer.deletions() == self.deletions()
                },
                Err(error) => {
                    &&& query@.len() != self.dimension()
                    &&& error == (OperationError::WrongVector {
                        expected_dim: self.dimension() as usize,
                        received_dim: query@.len() as usize,
                    })
                },
            },
    {
        if query.len() != self.dim {
            return Err(
                OperationError::WrongVector { expected_dim: self.dim, received_dim: query.len() },
            );
        }
        let packed = prepare(&self.metric, query);
        Ok(SimpleRawScorer { query: packed, metric: &self.metric, entries: &self.entries })
    }
}

/// Scores the vectors of a [`SimpleVectorStorage`] against one query.
pub struct SimpleRawScorer<'a, TMetric: Metric> {
    query: PackedVector,
    metric: &'a TMetric,
    entries: &'a Vec<StoredVector>,
}

impl<'a, TMetric: Metric> SimpleRawScorer<'a, TMetric> {
    #[verifier::type_invariant]
    closed spec fn entries_fit(self) -> bool {
        &&& self.query@.len() <= MAX_DIMENSION
        &&& forall|i: int|
            0 <= i < self.entries@.len() ==> (#[trigger] self.entries@[i]).vector@.len()
                == self.query@.len()
    }

    /// The query, in stored form.
    pub closed spec fn query(&self) -> Seq<VectorElementType> {
        self.query@
    }

    /// The metric.
    pub closed spec fn metric_of(&self) -> TMetric {
        *self.metric
    }

    /// The stored vectors, by offset.
    pub closed spec fn vectors(&self) -> Seq<Seq<VectorElementType>> {
        Seq::new(self.entries@.len(), |i: int| self.entries@[i].vector@)
    }

    /// Whether the vector at each offset has been deleted.
    pub closed spec fn deletions(&self) -> Seq<bool> {
        Seq::new(self.entries@.len(), |i: int| self.entries@[i].deleted)
    }

    /// What the scorer computes, over the stored vectors: it knows as many
    /// points as there are vectors, the live ones are those not deleted, and
    /// scores are the metric's similarities.
    pub proof fn lemma_scores(&self)
        ensures
            self.point_count() == self.vectors().len(),
            self.deletions().len() == self.vectors().len(),
            forall|point: PointOffsetType|
                point < self.vectors().len() ==> #[trigger] self.is_live(point)
                    == !self.deletions()[point as int],
            forall|point: PointOffsetType|
                point < self.vectors().len() ==> #[trigger] self.query_score(point)
                    == self.metric_of().similarity_of(
                    self.query(),
                    self.vectors()[point as int],
                ) as ScoreType,
            forall|point_a: PointOffsetType, point_b: PointOffsetType|
                point_a < self.vectors().len() && point_b < self.vectors().len()
                    ==> #[trigger] self.internal_score(point_a, point_b)
                    == self.metric_of().similarity_of(
                    self.vectors()[point_a as int],
                    self.vectors()[point_b as int],
                ) as ScoreType,
    {
    }
}

impl<'a, TMetric: Metric> RawScorer for SimpleRawScorer<'a, TMetric> {
    closed spec fn point_count(&self) -> usize {
        self.entries.len()
    }

    closed spec fn is_live(&self, point: PointOffsetType) -> bool {
        !self.entries@[point as int].deleted
    }

    closed spec fn query_score(&self, point: PointOffsetType) -> ScoreType {
        self.metric.similarity_of(self.query@, self.entries@[point as int].vector@) as ScoreType
    }

    closed spec fn internal_score(&self, point_a: PointOffsetType, point_b: PointOffsetType) -> ScoreType {
        self.metric.similarity_of(
            self.entries@[point_a as int].vector@,
            self.entries@[point_b as int].vector@,
        ) as ScoreType
    }

    fn num_points(&self) -> (count: usize) {
        self.entries.len()
    }

    fn check_point(&self, point: PointOffsetType) -> (usable: bool) {
        (point as usize) < self.entries.len() && !self.entries[point as usize].deleted
    }

    fn score_point(&self, point: PointOffsetType) -> (outcome: Result<ScoreType, OperationError>) {
        proof {
            use_type_invariant(self);
        }
        if (point as usize) < self.entries.len() {
            Ok(self.metric.blas_similarity(&self.query, &self.entries[point as usize].vector))
        } else {
            Err(OperationError::PointOutOfRange { offset: point })
        }
    }

    fn score_internal(&self, point_a: PointOffsetType, point_b: PointOffsetType) -> (outcome: Result<
        ScoreType,
        OperationError,
    >) {
        proof {
            use_type_invariant(self);
        }
        if (point_a as usize) >= self.entries.len() {
            Err(OperationError::PointOutOfRange { offset: point_a })
        } else if (point_b as usize) >= self.entries.len() {
            Err(OperationError::PointOutOfRange { offset: point_b })
        } else {
            Ok(
                self.metric.blas_similarity(
                    &self.entries[point_a as usize].vector,
                    &self.entries[point_b as usize].vector,
                ),
            )
        }
    }
}

} // verus!
