//! The three metrics: dot product, cosine and Euclidean distance.

use vstd::prelude::*;
use crate::spaces::arithmetic::{
    dot_of, dot_product, floor_sqrt, integer_sqrt, is_floor_sqrt,
    lemma_floor_sqrt_monotone, lemma_floor_sqrt_unique, lemma_squared_distance_bound,
    squared_distance, squared_distance_of,
};
use crate::spaces::metric::Metric;
use crate::spaces::packed::PackedVector;
use crate::types::{Distance, ScoreType, VectorElementType, MAX_DIMENSION, UNIT_LENGTH};

verus! {

/// Similarity is the dot product of the two vectors.
#[derive(Clone, Copy)]
pub struct DotProductMetric {}

/// Similarity is the dot product of two vectors that preprocessing has scaled
/// to unit length.
#[derive(Clone, Copy)]
pub struct CosineMetric {}

/// Similarity is the negated Euclidean distance, rounded towards zero.
#[derive(Clone, Copy)]
pub struct EuclidMetric {}

/// The Euclidean distance of `a` and `b`, rounded down to a whole fixed-point
/// step.
pub open spec fn euclid_distance(a: Seq<VectorElementType>, b: Seq<VectorElementType>) -> int {
    floor_sqrt(squared_distance(a, b))
}

/// The coordinate `x` of a vector with squared length `norm_sq`, scaled so
/// that the vector gets unit length, and rounded towards zero. The zero vector
/// has no direction; its coordinates stay zero.
pub open spec fn unit_component(x: int, norm_sq: int) -> int {
    if norm_sq <= 0 {
        0
    } else if x < 0 {
        -floor_sqrt(x * x * (UNIT_LENGTH * UNIT_LENGTH) / norm_sq)
    } else {
        floor_sqrt(x * x * (UNIT_LENGTH * UNIT_LENGTH) / norm_sq)
    }
}

/// The vector `v` scaled to unit length, coordinate by coordinate.
pub open spec fn unit_vector(v: Seq<VectorElementType>) -> Seq<VectorElementType> {
    Seq::new(v.len(), |i: int| unit_component(v[i] as int, dot_product(v, v)) as VectorElementType)
}

/// The squared length of a vector is at least the square of each coordinate.
pub proof fn lemma_norm_dominates(v: Seq<VectorElementType>, i: int)
    requires
        0 <= i < v.len(),
    ensures
        0 <= v[i] * v[i] <= dot_product(v, v),
    decreases v.len(),
{
    let last = v.last() as int;
    assert(0 <= last * last) by (nonlinear_arith);
    lemma_norm_non_negative(v.drop_last());
    if i < v.len() - 1 {
        lemma_norm_dominates(v.drop_last(), i);
    }
}

/// The squared length of a vector is never negative.
pub proof fn lemma_norm_non_negative(v: Seq<VectorElementType>)
    ensures
        0 <= dot_product(v, v),
    decreases v.len(),
{
    if v.len() > 0 {
        let last = v.last() as int;
        assert(0 <= last * last) by (nonlinear_arith);
        lemma_norm_non_negative(v.drop_last());
    }
}

/// A unit coordinate lies between minus one and one.
pub proof fn lemma_unit_component_bound(x: int, norm_sq: int)
    requires
        0 <= x * x <= norm_sq,
    ensures
        -UNIT_LENGTH <= unit_component(x, norm_sq) <= UNIT_LENGTH,
{
    if norm_sq > 0 {
        let unit_sq: int = UNIT_LENGTH * UNIT_LENGTH;
        let quotient = x * x * unit_sq / norm_sq;
        assert(0 <= quotient <= unit_sq) by (nonlinear_arith)
            requires
                0 <= x * x <= norm_sq,
                0 < norm_sq,
                unit_sq == 268435456,
                quotient == x * x * unit_sq / norm_sq,
        {
            assert(x * x * unit_sq <= norm_sq * unit_sq);
            assert(norm_sq * unit_sq / norm_sq == unit_sq);
        }
        assert(is_floor_sqrt(unit_sq, UNIT_LENGTH as int));
        lemma_floor_sqrt_unique(unit_sq, UNIT_LENGTH as int);
        lemma_floor_sqrt_monotone(quotient, unit_sq);
    }
}

/// Scales one coordinate of a vector with squared length `norm_sq`.
fn unit_component_of(x: VectorElementType, norm_sq: i64) -> (scaled: VectorElementType)
    requires
        0 <= x * x <= norm_sq,
    ensures
        scaled == unit_component(x as int, norm_sq as int),
{
    if norm_sq == 0 {
        return 0;
    }
    let wide: i64 = x as i64;
    assert(0 <= wide * wide <= 0x4000_0000) by (nonlinear_arith)
        requires
            -32768 <= wide <= 32767,
    {
        assert((32768 - wide) * (32768 + wide) >= 0);
    }
    let square: u64 = (wide * wide) as u64;
    let scaled_square: u64 = square * 268435456;
    let quotient: u64 = scaled_square / (norm_sq as u64);
    assert(scaled_square == x * x * (UNIT_LENGTH * UNIT_LENGTH)) by (nonlinear_arith)
        requires
            scaled_square == square * 268435456,
            square == x * x,
            UNIT_LENGTH == 16384,
    {
    }
    proof {
        lemma_unit_component_bound(x as int, norm_sq as int);
    }
    let root: u64 = integer_sqrt(quotient);
    if x < 0 {
        -(root as i64) as VectorElementType
    } else {
        root as VectorElementType
    }
}

impl Metric for EuclidMetric {
    open spec fn kind(&self) -> Distance {
        Distance::Euclid
    }

    open spec fn similarity_of(&self, v1: Seq<VectorElementType>, v2: Seq<VectorElementType>) -> int {
        -euclid_distance(v1, v2)
    }

    open spec fn preprocessed(&self, vector: Seq<VectorElementType>) -> Option<Seq<VectorElementType>> {
        None
    }

    fn distance(&self) -> (kind: Distance) {
        Distance::Euclid
    }

    fn similarity(&self, v1: &[VectorElementType], v2: &[VectorElementType]) -> (score: ScoreType) {
        let sum: u64 = squared_distance_of(v1, v2);
        let root: u64 = integer_sqrt(sum);
        -(root as i64)
    }

    fn blas_similarity(&self, v1: &PackedVector, v2: &PackedVector) -> (score: ScoreType) {
        let mut sum: u64 = 0;
        let mut i: usize = 0;
        let len: usize = v1.len();
        while i < len
            invariant
                i <= len,
                len == v1@.len(),
                v1@.len() == v2@.len(),
                v1@.len() <= MAX_DIMENSION,
                sum == squared_distance(v1@.take(i as int), v2@.take(i as int)),
            decreases len - i,
        {
            proof {
                lemma_squared_distance_bound(v1@.take(i as int), v2@.take(i as int));
                assert(v1@.take(i + 1).drop_last() =~= v1@.take(i as int));
                assert(v2@.take(i + 1).drop_last() =~= v2@.take(i as int));
            }
            let x: i64 = v1.at(i) as i64;
            let y: i64 = v2.at(i) as i64;
            let d: i64 = x - y;
            assert(0 <= d * d <= 0xffff_ffff) by (nonlinear_arith)
                requires
                    -65535 <= d <= 65535,
            {
                assert((65535 - d) * (65535 + d) >= 0);
            }
            let square: i64 = d * d;
            sum = sum + square as u64;
            i = i + 1;
        }
        proof {
            assert(v1@.take(i as int) =~= v1@);
            assert(v2@.take(i as int) =~= v2@);
        }
        let root: u64 = integer_sqrt(sum);
        -(root as i64)
    }

    fn preprocess(&self, vector: &[VectorElementType]) -> (prepared: Option<Vec<VectorElementType>>) {
        None
    }
}

impl Metric for DotProductMetric {
    open spec fn kind(&self) -> Distance {
        Distance::Dot
    }

    open spec fn similarity_of(&self, v1: Seq<VectorElementType>, v2: Seq<VectorElementType>) -> int {
        dot_product(v1, v2)
    }

    open spec fn preprocessed(&self, vector: Seq<VectorElementType>) -> Option<Seq<VectorElementType>> {
        None
    }

    fn distance(&self) -> (kind: Distance) {
        Distance::Dot
    }

    fn similarity(&self, v1: &[VectorElementType], v2: &[VectorElementType]) -> (score: ScoreType) {
        dot_of(v1, v2)
    }

    fn blas_similarity(&self, v1: &PackedVector, v2: &PackedVector) -> (score: ScoreType) {
        v1.dot(v2)
    }

    fn preprocess(&self, vector: &[VectorElementType]) -> (prepared: Option<Vec<VectorElementType>>) {
        None
    }
}

impl Metric for CosineMetric {
    open spec fn kind(&self) -> Distance {
        Distance::Cosine
    }

    open spec fn similarity_of(&self, v1: Seq<VectorElementType>, v2: Seq<VectorElementType>) -> int {
        dot_product(v1, v2)
    }

    open spec fn preprocessed(&self, vector: Seq<VectorElementType>) -> Option<Seq<VectorElementType>> {
        Some(unit_vector(vector))
    }

    fn distance(&self) -> (kind: Distance) {
        Distance::Cosine
    }

    fn similarity(&self, v1: &[VectorElementType], v2: &[VectorElementType]) -> (score: ScoreType) {
        dot_of(v1, v2)
    }

    fn blas_similarity(&self, v1: &PackedVector, v2: &PackedVector) -> (score: ScoreType) {
        v1.dot(v2)
    }

    fn preprocess(&self, vector: &[VectorElementType]) -> (prepared: Option<Vec<VectorElementType>>) {
        let norm_sq: i64 = dot_of(vector, vector);
        let mut norm_vector: Vec<VectorElementType> = Vec::new();
        let mut i: usize = 0;
        while i < vector.len()
            invariant
                i <= vector@.len(),
                norm_sq == dot_product(vector@, vector@),
                norm_vector@.len() == i,
                forall|j: int|
                    0 <= j < i ==> #[trigger] norm_vector@[j] == unit_component(
                        vector@[j] as int,
                        norm_sq as int,
                    ) as VectorElementType,
            decreases vector@.len() - i,
        {
            proof {
                lemma_norm_dominates(vector@, i as int);
            }
            norm_vector.push(unit_component_of(vector[i], norm_sq));
            i = i + 1;
        }
        assert(norm_vector@ =~= unit_vector(vector@));
        Some(norm_vector)
    }
}

/// Under the Euclidean metric the nearer of two vectors scores higher: if `b`
/// is at a smaller distance from `a` than `c` is, both distances taken in
/// whole fixed-point steps, then `b` has the strictly greater similarity to
/// `a`.
pub proof fn lemma_euclid_nearer_scores_higher(
    a: Seq<VectorElementType>,
    b: Seq<VectorElementType>,
    c: Seq<VectorElementType>,
)
    requires
        euclid_distance(a, b) < euclid_distance(a, c),
    ensures
        (EuclidMetric {}).similarity_of(a, b) > (EuclidMetric {}).similarity_of(a, c),
{
}

/// Rounding never reverses the order of two distances: if the exact squared
/// distance from `a` to `b` is at most that from `a` to `c`, then `b` scores
/// at least as high as `c`.
pub proof fn lemma_euclid_score_monotone(
    a: Seq<VectorElementType>,
    b: Seq<VectorElementType>,
    c: Seq<VectorElementType>,
)
    requires
        a.len() == b.len(),
        a.len() == c.len(),
        squared_distance(a, b) <= squared_distance(a, c),
    ensures
        (EuclidMetric {}).similarity_of(a, b) >= (EuclidMetric {}).similarity_of(a, c),
{
    lemma_squared_distance_bound(a, b);
    lemma_floor_sqrt_monotone(squared_distance(a, b), squared_distance(a, c));
}

/// A vector of exactly unit length is a fixed point of cosine preprocessing.
pub proof fn lemma_unit_vector_fixed_point(v: Seq<VectorElementType>)
    requires
        dot_product(v, v) == UNIT_LENGTH * UNIT_LENGTH,
    ensures
        unit_vector(v) == v,
        (CosineMetric {}).preprocessed(v) == Some(v),
{
    let unit_sq: int = UNIT_LENGTH * UNIT_LENGTH;
    assert forall|i: int| 0 <= i < v.len() implies unit_vector(v)[i] == v[i] by {
        let x = v[i] as int;
        assert(x * x * unit_sq / unit_sq == x * x) by (nonlinear_arith)
            requires
                unit_sq == 268435456,
        {
        }
        let magnitude = if x < 0 {
            -x
        } else {
            x
        };
        assert(is_floor_sqrt(x * x, magnitude)) by (nonlinear_arith)
            requires
                magnitude == x || magnitude == -x,
                magnitude >= 0,
        {
        }
        lemma_floor_sqrt_unique(x * x, magnitude);
    }
    assert(unit_vector(v) =~= v);
}

/// Preprocessing a vector whose preprocessed form has exactly unit length a
/// second time changes nothing.
pub proof fn lemma_preprocess_twice(v: Seq<VectorElementType>)
    requires
        dot_product(unit_vector(v), unit_vector(v)) == UNIT_LENGTH * UNIT_LENGTH,
    ensures
        unit_vector(unit_vector(v)) == unit_vector(v),
{
    lemma_unit_vector_fixed_point(unit_vector(v));
}

} // verus!
