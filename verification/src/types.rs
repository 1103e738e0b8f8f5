//! Plain value types shared by every component.

use vstd::prelude::*;

verus! {

/// Dense, zero-based slot of a vector in the backing storage.
pub type PointOffsetType = u32;

/// One coordinate of a vector, as a signed fixed-point number.
pub type VectorElementType = i16;

/// Similarity of two vectors. A larger score always means "more similar".
pub type ScoreType = i64;

/// Largest number of coordinates a vector may have.
pub const MAX_DIMENSION: usize = 65536;

/// The fixed-point value that stands for the real number one. A vector whose
/// squared coordinates add up to `UNIT_LENGTH * UNIT_LENGTH` has length one.
pub const UNIT_LENGTH: i64 = 16384;

/// Kind of similarity a metric computes.
#[derive(Clone, Copy, Debug, PartialEq, Eq, Structural)]
pub enum Distance {
    Cosine,
    Euclid,
    Dot,
}

/// A point together with its score against some query.
#[derive(Clone, Copy, Debug, PartialEq, Eq, Structural)]
pub struct ScoredPointOffset {
    pub idx: PointOffsetType,
    pub score: ScoreType,
}

/// Why an operation refused its input.
#[derive(Clone, Copy, Debug, PartialEq, Eq, Structural)]
pub enum OperationError {
    /// A point offset does not denote a slot of the storage or of the graph.
    PointOutOfRange { offset: PointOffsetType },
    /// A vector does not have the dimension the storage was created with.
    WrongVector { expected_dim: usize, received_dim: usize },
    /// The point has already been linked into the graph.
    PointAlreadyLinked { offset: PointOffsetType },
    /// The requested level lies above the highest layer of the graph.
    LevelOutOfRange { level: usize, max_level: usize },
    /// The scorer knows fewer points than the graph holds.
    ScorerTooSmall { scorer_points: usize, graph_points: usize },
    /// Vectors of this dimension cannot be stored.
    DimensionTooLarge { dim: usize, max_dim: usize },
    /// The storage has no offset left for another vector.
    StorageFull,
}

impl ScoredPointOffset {
    /// The result order: `self` comes strictly before `other` when it scores
    /// higher, or scores the same and has the smaller offset.
    pub open spec fn ranks_before(self, other: ScoredPointOffset) -> bool {
        self.score > other.score || (self.score == other.score && self.idx < other.idx)
    }

    /// `self` comes before `other` in the result order, or is equal to it.
    pub open spec fn ranks_not_after(self, other: ScoredPointOffset) -> bool {
        self.score > other.score || (self.score == other.score && self.idx <= other.idx)
    }

    /// Decides [`Self::ranks_before`].
    pub fn is_before(&self, other: &ScoredPointOffset) -> (before: bool)
        ensures
            before == self.ranks_before(*other),
    {
        self.score > other.score || (self.score == other.score && self.idx < other.idx)
    }
}

/// Whether `points` is in result order: scores never increase, and among equal
/// scores offsets never decrease.
pub open spec fn is_ranked(points: Seq<ScoredPointOffset>) -> bool {
    forall|i: int, j: int|
        0 <= i < j < points.len() ==> (#[trigger] points[i]).ranks_not_after(#[trigger] points[j])
}

/// Whether no point occurs twice in `points`.
pub open spec fn distinct_points(points: Seq<ScoredPointOffset>) -> bool {
    forall|i: int, j: int|
        0 <= i < j < points.len() ==> (#[trigger] points[i]).idx != (#[trigger] points[j]).idx
}

/// In result order scores never increase, and of two points with the same
/// score the one with the smaller offset comes first.
pub proof fn lemma_ranked_order(points: Seq<ScoredPointOffset>, i: int, j: int)
    requires
        is_ranked(points),
        0 <= i < j < points.len(),
    ensures
        points[i].score >= points[j].score,
        points[i].score == points[j].score ==> points[i].idx <= points[j].idx,
{
}

} // verus!
