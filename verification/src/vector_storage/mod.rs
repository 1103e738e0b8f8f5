//! The boundary to the vector storage: scoring stored points against a query.

pub mod simple_vector_storage;

use vstd::prelude::*;
use vstd::std_specs::iter::IteratorSpec;
use crate::types::{
    distinct_points, OperationError, PointOffsetType, ScoreType, ScoredPointOffset,
};

verus! {

/// Scores stored points against one query vector, which is bound when the
/// scorer is made. Valid offsets are those below [`RawScorer::point_count`].
pub trait RawScorer {
    /// Number of slots in the storage.
    spec fn point_count(&self) -> usize;

    /// Whether the point in slot `point` is live (not deleted).
    spec fn is_live(&self, point: PointOffsetType) -> bool;

    /// Similarity of the stored point `point` to the query.
    spec fn query_score(&self, point: PointOffsetType) -> ScoreType;

    /// Similarity of the stored points `point_a` and `point_b` to each other.
    spec fn internal_score(&self, point_a: PointOffsetType, point_b: PointOffsetType) -> ScoreType;

    /// Returns the number of slots in the storage.
    fn num_points(&self) -> (count: usize)
        ensures
            count == self.point_count(),
    ;

    /// Tells whether `point` denotes a usable point: a slot of the storage
    /// that holds a live point.
    fn check_point(&self, point: PointOffsetType) -> (usable: bool)
        ensures
            usable == (point < self.point_count() && self.is_live(point)),
    ;

    /// Scores the stored point `point` against the query. An offset outside
    /// the storage is an error.
    fn score_point(&self, point: PointOffsetType) -> (outcome: Result<ScoreType, OperationError>)
        ensures
            point < self.point_count() ==> outcome == Ok::<ScoreType, OperationError>(
                self.query_score(point),
            ),
            point >= self.point_count() ==> outcome == Err::<ScoreType, OperationError>(
                OperationError::PointOutOfRange { offset: point },
            ),
    ;

    /// Scores two stored points against each other. An offset outside the
    /// storage is an error; where both are, the error names the first.
    fn score_internal(&self, point_a: PointOffsetType, point_b: PointOffsetType) -> (outcome: Result<
        ScoreType,
        OperationError,
    >)
        ensures
            point_a < self.point_count() && point_b < self.point_count() ==> outcome == Ok::<
                ScoreType,
                OperationError,
            >(self.internal_score(point_a, point_b)),
            point_a >= self.point_count() ==> outcome == Err::<ScoreType, OperationError>(
                OperationError::PointOutOfRange { offset: point_a },
            ),
            point_a < self.point_count() && point_b >= self.point_count() ==> outcome == Err::<
                ScoreType,
                OperationError,
            >(OperationError::PointOutOfRange { offset: point_b }),
    ;
}

/// Whether `point` denotes a slot of the storage that holds a live point.
pub open spec fn is_usable<R: RawScorer + ?Sized>(scorer: &R, point: PointOffsetType) -> bool {
    point < scorer.point_count() && scorer.is_live(point)
}

/// What scoring `point` against the query returns.
pub open spec fn score_point_outcome<R: RawScorer + ?Sized>(
    scorer: &R,
    point: PointOffsetType,
) -> Result<ScoreType, OperationError> {
    if point < scorer.point_count() {
        Ok(scorer.query_score(point))
    } else {
        Err(OperationError::PointOutOfRange { offset: point })
    }
}

/// What scoring `point_a` against `point_b` returns.
pub open spec fn score_internal_outcome<R: RawScorer + ?Sized>(
    scorer: &R,
    point_a: PointOffsetType,
    point_b: PointOffsetType,
) -> Result<ScoreType, OperationError> {
    if point_a >= scorer.point_count() {
        Err(OperationError::PointOutOfRange { offset: point_a })
    } else if point_b >= scorer.point_count() {
        Err(OperationError::PointOutOfRange { offset: point_b })
    } else {
        Ok(scorer.internal_score(point_a, point_b))
    }
}

/// The predicate "is a usable point of `scorer`".
pub open spec fn raw_acceptance<R: RawScorer>(scorer: &R) -> spec_fn(PointOffsetType) -> bool {
    |point: PointOffsetType| is_usable(scorer, point)
}

/// The function "score against the query of `scorer`".
pub open spec fn raw_scoring<R: RawScorer>(scorer: &R) -> spec_fn(PointOffsetType) -> ScoreType {
    |point: PointOffsetType| scorer.query_score(point)
}

/// The scored results of a lazy scan: walk `points` from the front, skip what
/// `accept` rejects, score what it accepts, and stop after `limit` results.
pub open spec fn scan_scores(
    accept: spec_fn(PointOffsetType) -> bool,
    score: spec_fn(PointOffsetType) -> ScoreType,
    points: Seq<PointOffsetType>,
    limit: nat,
) -> Seq<ScoredPointOffset>
    decreases points.len(),
{
    if limit == 0 || points.len() == 0 {
        Seq::empty()
    } else if accept(points[0]) {
        seq![ScoredPointOffset { idx: points[0], score: score(points[0]) }] + scan_scores(
            accept,
            score,
            points.drop_first(),
            (limit - 1) as nat,
        )
    } else {
        scan_scores(accept, score, points.drop_first(), limit)
    }
}

/// How many offsets a lazy scan takes from the front of `points`: all of them
/// up to and including the one that yields result number `limit`, and none
/// beyond it.
pub open spec fn scan_length(
    accept: spec_fn(PointOffsetType) -> bool,
    points: Seq<PointOffsetType>,
    limit: nat,
) -> nat
    decreases points.len(),
{
    if limit == 0 || points.len() == 0 {
        0
    } else if accept(points[0]) {
        1 + scan_length(accept, points.drop_first(), (limit - 1) as nat)
    } else {
        1 + scan_length(accept, points.drop_first(), limit)
    }
}

/// A scan never takes more offsets than there are.
pub proof fn lemma_scan_length_bound(
    accept: spec_fn(PointOffsetType) -> bool,
    points: Seq<PointOffsetType>,
    limit: nat,
)
    ensures
        scan_length(accept, points, limit) <= points.len(),
    decreases points.len(),
{
    if limit != 0 && points.len() != 0 {
        if accept(points[0]) {
            lemma_scan_length_bound(accept, points.drop_first(), (limit - 1) as nat);
        } else {
            lemma_scan_length_bound(accept, points.drop_first(), limit);
        }
    }
}

/// What a scan yields: at most `limit` results, no more than there are
/// offsets; each result is an accepted offset of `points` with its score.
pub proof fn lemma_scan_scores_content(
    accept: spec_fn(PointOffsetType) -> bool,
    score: spec_fn(PointOffsetType) -> ScoreType,
    points: Seq<PointOffsetType>,
    limit: nat,
)
    ensures
        scan_scores(accept, score, points, limit).len() <= limit,
        scan_scores(accept, score, points, limit).len() <= points.len(),
        forall|i: int|
            0 <= i < scan_scores(accept, score, points, limit).len() ==> {
                let found = #[trigger] scan_scores(accept, score, points, limit)[i];
                &&& points.contains(found.idx)
                &&& accept(found.idx)
                &&& found.score == score(found.idx)
            },
    decreases points.len(),
{
    if limit != 0 && points.len() != 0 {
        let rest = points.drop_first();
        let rest_limit = if accept(points[0]) {
            (limit - 1) as nat
        } else {
            limit
        };
        lemma_scan_scores_content(accept, score, rest, rest_limit);
        let tail = scan_scores(accept, score, rest, rest_limit);
        assert forall|i: int| 0 <= i < tail.len() implies points.contains(
            (#[trigger] tail[i]).idx,
        ) by {
            let j = choose|j: int| 0 <= j < rest.len() && rest[j] == tail[i].idx;
            assert(points[j + 1] == tail[i].idx);
        }
        if accept(points[0]) {
            assert(points.contains(points[0]));
        }
    }
}

/// A scan whose limit is not below the number of offsets misses no accepted
/// offset: each is among the results, with its score.
pub proof fn lemma_scan_scores_complete(
    accept: spec_fn(PointOffsetType) -> bool,
    score: spec_fn(PointOffsetType) -> ScoreType,
    points: Seq<PointOffsetType>,
    limit: nat,
)
    requires
        points.len() <= limit,
    ensures
        forall|i: int|
            0 <= i < points.len() && accept(#[trigger] points[i]) ==> scan_scores(
                accept,
                score,
                points,
                limit,
            ).contains(ScoredPointOffset { idx: points[i], score: score(points[i]) }),
    decreases points.len(),
{
    if points.len() != 0 {
        let rest = points.drop_first();
        let rest_limit = if accept(points[0]) {
            (limit - 1) as nat
        } else {
            limit
        };
        lemma_scan_scores_complete(accept, score, rest, rest_limit);
        let tail = scan_scores(accept, score, rest, rest_limit);
        let all = scan_scores(accept, score, points, limit);
        assert forall|i: int| 0 <= i < points.len() && accept(#[trigger] points[i]) implies all.contains(
            ScoredPointOffset { idx: points[i], score: score(points[i]) },
        ) by {
            let wanted = ScoredPointOffset { idx: points[i], score: score(points[i]) };
            if i == 0 {
                assert(all[0] == wanted);
            } else {
                assert(rest[i - 1] == points[i]);
                assert(tail.contains(wanted));
                let k = choose|k: int| 0 <= k < tail.len() && tail[k] == wanted;
                if accept(points[0]) {
                    assert(all[k + 1] == wanted);
                } else {
                    assert(all[k] == wanted);
                }
            }
        }
    }
}

/// A scan of offsets that are all different yields no point twice.
pub proof fn lemma_scan_scores_distinct(
    accept: spec_fn(PointOffsetType) -> bool,
    score: spec_fn(PointOffsetType) -> ScoreType,
    points: Seq<PointOffsetType>,
    limit: nat,
)
    requires
        points.no_duplicates(),
    ensures
        distinct_points(scan_scores(accept, score, points, limit)),
    decreases points.len(),
{
    if limit != 0 && points.len() != 0 {
        let rest = points.drop_first();
        let rest_limit = if accept(points[0]) {
            (limit - 1) as nat
        } else {
            limit
        };
        assert forall|i: int, j: int| 0 <= i < j < rest.len() implies rest[i] != rest[j] by {
            assert(rest[i] == points[i + 1] && rest[j] == points[j + 1]);
        }
        lemma_scan_scores_distinct(accept, score, rest, rest_limit);
        lemma_scan_scores_content(accept, score, rest, rest_limit);
        let tail = scan_scores(accept, score, rest, rest_limit);
        let all = scan_scores(accept, score, points, limit);
        if accept(points[0]) {
            assert forall|i: int, j: int| 0 <= i < j < all.len() implies (#[trigger] all[i]).idx != (
            #[trigger] all[j]).idx by {
                assert(all[j] == tail[j - 1]);
                if i == 0 {
                    assert(rest.contains(tail[j - 1].idx));
                    let k = choose|k: int| 0 <= k < rest.len() && rest[k] == tail[j - 1].idx;
                    assert(points[k + 1] == rest[k]);
                } else {
                    assert(all[i] == tail[i - 1]);
                }
            }
        }
    }
}

/// Scores the usable points that `points` yields, in order, until `limit`
/// results are there or the iterator is exhausted. Nothing is taken from the
/// iterator beyond the offset that gave the last result.
pub fn score_points<R: RawScorer, I: Iterator<Item = PointOffsetType>>(
    scorer: &R,
    points: &mut I,
    limit: usize,
) -> (scored: Vec<ScoredPointOffset>)
    requires
        IteratorSpec::obeys_prophetic_iter_laws(&*old(points)),
        IteratorSpec::decrease(&*old(points)) is Some,
    ensures
        scored@ == scan_scores(
            raw_acceptance(scorer),
            raw_scoring(scorer),
            IteratorSpec::remaining(&*old(points)),
            limit as nat,
        ),
        IteratorSpec::remaining(&*final(points)) == IteratorSpec::remaining(&*old(points)).skip(
            scan_length(raw_acceptance(scorer), IteratorSpec::remaining(&*old(points)), limit as nat) as int,
        ),
        scan_length(raw_acceptance(scorer), IteratorSpec::remaining(&*old(points)), limit as nat)
            <= IteratorSpec::remaining(&*old(points)).len(),
        scored@.len() <= limit,
{
    let ghost accept = raw_acceptance(scorer);
    let ghost score = raw_scoring(scorer);
    let ghost all = IteratorSpec::remaining(&*points);
    let ghost mut taken: nat = 0;
    let mut scored: Vec<ScoredPointOffset> = Vec::new();
    let mut exhausted = false;
    while scored.len() < limit && !exhausted
        invariant
            IteratorSpec::obeys_prophetic_iter_laws(&*points),
            IteratorSpec::decrease(&*points) is Some,
            accept == raw_acceptance(scorer),
            score == raw_scoring(scorer),
            scored@.len() <= limit,
            taken <= all.len(),
            IteratorSpec::remaining(&*points) == all.skip(taken as int),
            exhausted ==> IteratorSpec::remaining(&*points).len() == 0,
            scan_scores(accept, score, all, limit as nat) == scored@ + scan_scores(
                accept,
                score,
                IteratorSpec::remaining(&*points),
                (limit - scored@.len()) as nat,
            ),
            scan_length(accept, all, limit as nat) == taken + scan_length(
                accept,
                IteratorSpec::remaining(&*points),
                (limit - scored@.len()) as nat,
            ),
        decreases
                (if exhausted {
                    0int
                } else {
                    1int
                }),
                IteratorSpec::decrease(&*points)->0,
    {
        let ghost before = IteratorSpec::remaining(&*points);
        match points.next() {
            Some(point) => {
                proof {
                    assert(before.drop_first() =~= all.skip(taken as int + 1));
                    taken = taken + 1;
                }
                if scorer.check_point(point) {
                    match scorer.score_point(point) {
                        Ok(score_value) => {
                            let ghost earlier = scored@;
                            scored.push(ScoredPointOffset { idx: point, score: score_value });
                            proof {
                                let rest = scan_scores(
                                    accept,
                                    score,
                                    before.drop_first(),
                                    (limit - earlier.len() - 1) as nat,
                                );
                                assert(earlier + (seq![
                                    ScoredPointOffset { idx: point, score: score_value },
                                ] + rest) =~= scored@ + rest);
                            }
                        },
                        Err(_) => {},
                    }
                }
            },
            None => {
                exhausted = true;
            },
        }
    }
    proof {
        assert(scored@ + Seq::<ScoredPointOffset>::empty() =~= scored@);
        lemma_scan_length_bound(accept, all, limit as nat);
    }
    scored
}

} // verus!
