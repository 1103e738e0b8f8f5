//! A condition checker that accepts everything, and storages filled with
//! random vectors.

use vstd::prelude::*;
use crate::common::random::next_sample;
use crate::payload_storage::ConditionChecker;
use crate::spaces::metric::Metric;
use crate::types::{OperationError, PointOffsetType, VectorElementType, MAX_DIMENSION};
use crate::vector_storage::simple_vector_storage::{SimpleRawScorer, SimpleVectorStorage};

verus! {

/// A condition checker without payloads: every point satisfies every filter.
pub struct FakeConditionChecker {}

impl ConditionChecker for FakeConditionChecker {
    type Filter = ();

    open spec fn accepts(&self, point_id: PointOffsetType, query: &()) -> bool {
        true
    }

    fn check(&self, point_id: PointOffsetType, query: &()) -> (accepted: bool) {
        true
    }
}

/// The largest magnitude of a random coordinate.
pub const RANDOM_COORDINATE_LIMIT: i16 = 1000;

/// A vector of `size` random coordinates, each within
/// [`RANDOM_COORDINATE_LIMIT`] of zero.
pub fn random_vector(rng: &mut rand::rngs::StdRng, size: usize) -> (vector: Vec<VectorElementType>)
    ensures
        vector@.len() == size,
        forall|i: int|
            0 <= i < size ==> -RANDOM_COORDINATE_LIMIT <= #[trigger] vector@[i]
                <= RANDOM_COORDINATE_LIMIT,
{
    let mut vector: Vec<VectorElementType> = Vec::new();
    let mut i: usize = 0;
    while i < size
        invariant
            i <= size,
            vector@.len() == i,
            forall|j: int|
                0 <= j < i ==> -RANDOM_COORDINATE_LIMIT <= #[trigger] vector@[j]
                    <= RANDOM_COORDINATE_LIMIT,
        decreases size - i,
    {
        let sample: u64 = next_sample(rng);
        let shifted: i64 = (sample % 2001) as i64;
        vector.push((shifted - 1000) as VectorElementType);
        i = i + 1;
    }
    vector
}

/// A storage of random vectors that hands out scorers.
pub struct TestRawScorerProducer<TMetric: Metric> {
    storage: SimpleVectorStorage<TMetric>,
}

impl<TMetric: Metric> TestRawScorerProducer<TMetric> {
    #[verifier::type_invariant]
    closed spec fn storage_wf(self) -> bool {
        self.storage.wf()
    }

    /// The storage behind the producer.
    pub closed spec fn storage_of(&self) -> SimpleVectorStorage<TMetric> {
        self.storage
    }

    /// Fills a storage with `num_vectors` random vectors of dimension `dim`.
    /// A dimension above [`MAX_DIMENSION`] is refused, and so are more
    /// vectors than there are offsets.
    pub fn new(dim: usize, num_vectors: usize, metric: TMetric, rng: &mut rand::rngs::StdRng) -> (made: Result<
        Self,
        OperationError,
    >)
        ensures
            match made {
                Ok(producer) => {
                    &&& dim <= MAX_DIMENSION
                    &&& num_vectors <= u32::MAX + 1
                    &&& producer.storage_of().wf()
                    &&& producer.storage_of().dimension() == dim
                    &&& producer.storage_of().metric_of() == metric
                    &&& producer.storage_of().vectors().len() == num_vectors
                    &&& producer.storage_of().deletions() == Seq::new(
                        num_vectors as nat,
                        |i: int| false,
                    )
                },
                Err(error) => {
                    if dim > MAX_DIMENSION {
                        error == (OperationError::DimensionTooLarge { dim, max_dim: MAX_DIMENSION })
                    } else {
                        num_vectors > u32::MAX + 1 && error == OperationError::StorageFull
                    }
                },
            },
    {
        let mut storage = SimpleVectorStorage::new(dim, metric)?;
        if num_vectors > 0 && num_vectors - 1 > u32::MAX as usize {
            return Err(OperationError::StorageFull);
        }
        let mut i: usize = 0;
        while i < num_vectors
            invariant
                i <= num_vectors,
                num_vectors <= u32::MAX + 1,
                storage.wf(),
                storage.dimension() == dim,
                storage.metric_of() == metric,
                storage.vectors().len() == i,
                storage.deletions() == Seq::new(i as nat, |k: int| false),
            decreases num_vectors - i,
        {
            let vector = random_vector(rng, dim);
            let ghost before = storage.deletions();
            match storage.put_vector(vector.as_slice()) {
                Ok(_) => {},
                Err(_) => {},
            }
            proof {
                assert(before.push(false) =~= Seq::new((i + 1) as nat, |k: int| false));
            }
            i = i + 1;
        }
        Ok(TestRawScorerProducer { storage })
    }

    /// The storage behind the producer.
    pub fn storage(&self) -> (storage: &SimpleVectorStorage<TMetric>)
        ensures
            storage == self.storage_of(),
            storage.wf(),
    {
        proof {
            use_type_invariant(self);
        }
        &self.storage
    }

    /// A scorer of the stored vectors against `query`. A query of the wrong
    /// dimension is refused.
    pub fn get_raw_scorer(&self, query: Vec<VectorElementType>) -> (outcome: Result<
        SimpleRawScorer<'_, TMetric>,
        OperationError,
    >)
        ensures
            outcome is Ok <==> query@.len() == self.storage_of().dimension(),
            outcome matches Ok(scorer) ==> scorer.vectors() == self.storage_of().vectors()
                && scorer.deletions() == self.storage_of().deletions(),
            outcome matches Err(error) ==> error == (OperationError::WrongVector {
                expected_dim: self.storage_of().dimension() as usize,
                received_dim: query@.len() as usize,
            }),
    {
        proof {
            use_type_invariant(self);
        }
        self.storage.raw_scorer(query.as_slice())
    }
}

} // verus!
