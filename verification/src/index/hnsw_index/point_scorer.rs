//! The scorer the graph works with: a raw scorer behind an optional payload
//! filter.

use vstd::prelude::*;
use vstd::std_specs::iter::IteratorSpec;
use crate::payload_storage::ConditionChecker;
use crate::types::{OperationError, PointOffsetType, ScoreType, ScoredPointOffset};
use crate::vector_storage::{
    is_usable, lemma_scan_length_bound, lemma_scan_scores_content, raw_acceptance, raw_scoring,
    scan_length, scan_scores, score_internal_outcome, score_point_outcome, score_points,
    RawScorer,
};

verus! {

/// What a search needs to know of a scorer: which points are candidates, and
/// how each scores against the query.
pub struct QueryModel {
    pub accept: spec_fn(PointOffsetType) -> bool,
    pub score: spec_fn(PointOffsetType) -> ScoreType,
}

impl QueryModel {
    /// The point `point_id` with its score against the query.
    pub open spec fn scored_point(self, point_id: PointOffsetType) -> ScoredPointOffset {
        ScoredPointOffset { idx: point_id, score: (self.score)(point_id) }
    }

    /// The scored candidates among `points`, in order, `limit` of them at
    /// most.
    pub open spec fn scored(self, points: Seq<PointOffsetType>, limit: nat) -> Seq<ScoredPointOffset> {
        scan_scores(self.accept, self.score, points, limit)
    }
}

/// What linking a point needs to know of a scorer: what a search needs, and
/// how two stored points score against each other.
pub struct ScoringModel {
    pub query: QueryModel,
    pub pair: spec_fn(PointOffsetType, PointOffsetType) -> ScoreType,
}

/// A raw scorer together with a condition checker and, optionally, a filter
/// that candidate points have to pass.
pub struct FilteredScorer<'a, R: RawScorer, C: ConditionChecker> {
    pub raw_scorer: &'a R,
    pub condition_checker: &'a C,
    pub filter: Option<&'a C::Filter>,
}

impl<'a, R: RawScorer, C: ConditionChecker> FilteredScorer<'a, R, C> {
    /// Whether `point_id` is a candidate: a usable point of the raw scorer
    /// that, where there is a filter, the condition checker accepts.
    pub open spec fn accepts(&self, point_id: PointOffsetType) -> bool {
        is_usable(self.raw_scorer, point_id) && match self.filter {
            None => true,
            Some(f) => self.condition_checker.accepts(point_id, f),
        }
    }

    /// The predicate [`Self::accepts`]. Without a filter it is the raw
    /// scorer's own predicate.
    pub open spec fn acceptance(&self) -> spec_fn(PointOffsetType) -> bool {
        match self.filter {
            None => raw_acceptance(self.raw_scorer),
            Some(f) => |point_id: PointOffsetType| self.accepts(point_id),
        }
    }

    /// The scorer as a search sees it.
    pub open spec fn query_model(&self) -> QueryModel {
        QueryModel { accept: self.acceptance(), score: raw_scoring(self.raw_scorer) }
    }

    /// The scorer as the linking of a point sees it.
    pub open spec fn model(&self) -> ScoringModel {
        ScoringModel {
            query: self.query_model(),
            pair: |point_a: PointOffsetType, point_b: PointOffsetType|
                self.raw_scorer.internal_score(point_a, point_b),
        }
    }

    /// The scored candidates among `points`, in order, `limit` of them at
    /// most.
    pub open spec fn scored(&self, points: Seq<PointOffsetType>, limit: nat) -> Seq<ScoredPointOffset> {
        scan_scores(self.acceptance(), raw_scoring(self.raw_scorer), points, limit)
    }

    /// How many of `points` are looked at to find `limit` candidates.
    pub open spec fn scanned(&self, points: Seq<PointOffsetType>, limit: nat) -> nat {
        scan_length(self.acceptance(), points, limit)
    }

    /// Binds a raw scorer, a condition checker and an optional filter.
    pub fn new(
        raw_scorer: &'a R,
        condition_checker: &'a C,
        filter: Option<&'a C::Filter>,
    ) -> (scorer: Self)
        ensures
            scorer.raw_scorer == raw_scorer,
            scorer.condition_checker == condition_checker,
            scorer.filter == filter,
    {
        FilteredScorer { raw_scorer, condition_checker, filter }
    }

    /// Tells whether `point_id` is a candidate. Without a filter this is the
    /// raw scorer's check alone.
    pub fn check_point(&self, point_id: PointOffsetType) -> (accepted: bool)
        ensures
            accepted == self.accepts(point_id),
            accepted == (self.acceptance())(point_id),
            self.filter is None ==> accepted == is_usable(self.raw_scorer, point_id),
    {
        match self.filter {
            None => self.raw_scorer.check_point(point_id),
            Some(f) => {
                self.condition_checker.check(point_id, f) && self.raw_scorer.check_point(point_id)
            },
        }
    }

    /// Scores the candidates that `points_iterator` yields, in order, until
    /// `limit` results are there or the iterator is exhausted. A rejected
    /// offset is never scored, and nothing is taken from the iterator beyond
    /// the offset that gave the last result.
    pub fn score_iterable_points<I: Iterator<Item = PointOffsetType>>(
        &self,
        points_iterator: &mut I,
        limit: usize,
    ) -> (scored: Vec<ScoredPointOffset>)
        requires
            IteratorSpec::obeys_prophetic_iter_laws(&*old(points_iterator)),
            IteratorSpec::decrease(&*old(points_iterator)) is Some,
        ensures
            scored@ == self.scored(IteratorSpec::remaining(&*old(points_iterator)), limit as nat),
            IteratorSpec::remaining(&*final(points_iterator)) == IteratorSpec::remaining(
                &*old(points_iterator),
            ).skip(
                self.scanned(IteratorSpec::remaining(&*old(points_iterator)), limit as nat) as int,
            ),
            self.scanned(IteratorSpec::remaining(&*old(points_iterator)), limit as nat)
                <= IteratorSpec::remaining(&*old(points_iterator)).len(),
            scored@.len() <= limit,
            forall|i: int|
                0 <= i < scored@.len() ==> self.accepts((#[trigger] scored@[i]).idx) && scored@[i].score
                    == self.raw_scorer.query_score(scored@[i].idx),
    {
        proof {
            lemma_scan_length_bound(
                self.acceptance(),
                IteratorSpec::remaining(&*points_iterator),
                limit as nat,
            );
            lemma_scan_scores_content(
                self.acceptance(),
                raw_scoring(self.raw_scorer),
                IteratorSpec::remaining(&*points_iterator),
                limit as nat,
            );
        }
        if self.filter.is_none() {
            return score_points(self.raw_scorer, points_iterator, limit);
        }
        let ghost accept = self.acceptance();
        let ghost score = raw_scoring(self.raw_scorer);
        let ghost all = IteratorSpec::remaining(&*points_iterator);
        let ghost mut taken: nat = 0;
        let mut scored: Vec<ScoredPointOffset> = Vec::new();
        let mut exhausted = false;
        while scored.len() < limit && !exhausted
            invariant
                IteratorSpec::obeys_prophetic_iter_laws(&*points_iterator),
                IteratorSpec::decrease(&*points_iterator) is Some,
                accept == self.acceptance(),
                score == raw_scoring(self.raw_scorer),
                scored@.len() <= limit,
                taken <= all.len(),
                IteratorSpec::remaining(&*points_iterator) == all.skip(taken as int),
                exhausted ==> IteratorSpec::remaining(&*points_iterator).len() == 0,
                scan_scores(accept, score, all, limit as nat) == scored@ + scan_scores(
                    accept,
                    score,
                    IteratorSpec::remaining(&*points_iterator),
                    (limit - scored@.len()) as nat,
                ),
                scan_length(accept, all, limit as nat) == taken + scan_length(
                    accept,
                    IteratorSpec::remaining(&*points_iterator),
                    (limit - scored@.len()) as nat,
                ),
            decreases
                    (if exhausted {
                        0int
                    } else {
                        1int
                    }),
                    IteratorSpec::decrease(&*points_iterator)->0,
        {
            let ghost before = IteratorSpec::remaining(&*points_iterator);
            match points_iterator.next() {
                Some(point_id) => {
                    proof {
                        assert(before.drop_first() =~= all.skip(taken as int + 1));
                        taken = taken + 1;
                    }
                    if self.check_point(point_id) {
                        match self.raw_scorer.score_point(point_id) {
                            Ok(score_value) => {
                                let ghost earlier = scored@;
                                scored.push(ScoredPointOffset { idx: point_id, score: score_value });
                                proof {
                                    let rest = scan_scores(
                                        accept,
                                        score,
                                        before.drop_first(),
                                        (limit - earlier.len() - 1) as nat,
                                    );
                                    assert(earlier + (seq![
                                        ScoredPointOffset { idx: point_id, score: score_value },
                                    ] + rest) =~= scored@ + rest);
                                }
                            },
                            Err(_) => {},
                        }
                    }
                },
                None => {
                    exhausted = true;
                },
            }
        }
        proof {
            assert(scored@ + Seq::<ScoredPointOffset>::empty() =~= scored@);
        }
        scored
    }

    /// Scores the candidates among `ids`, in order, `limit` of them at most.
    /// A rejected offset is never scored.
    pub fn score_points(&self, ids: &[PointOffsetType], limit: usize) -> (scored: Vec<ScoredPointOffset>)
        ensures
            scored@ == self.scored(ids@, limit as nat),
            scored@.len() <= limit,
            forall|i: int|
                0 <= i < scored@.len() ==> self.accepts((#[trigger] scored@[i]).idx) && scored@[i].score
                    == self.raw_scorer.query_score(scored@[i].idx),
    {
        proof {
            lemma_scan_scores_content(
                self.acceptance(),
                raw_scoring(self.raw_scorer),
                ids@,
                limit as nat,
            );
        }
        let ghost accept = self.acceptance();
        let ghost score = raw_scoring(self.raw_scorer);
        let mut scored: Vec<ScoredPointOffset> = Vec::new();
        let mut next: usize = 0;
        proof {
            assert(ids@.skip(0) =~= ids@);
            assert(scored@ + scan_scores(accept, score, ids@, limit as nat) =~= scan_scores(
                accept,
                score,
                ids@,
                limit as nat,
            ));
        }
        while scored.len() < limit && next < ids.len()
            invariant
                accept == self.acceptance(),
                score == raw_scoring(self.raw_scorer),
                scored@.len() <= limit,
                next <= ids@.len(),
                scan_scores(accept, score, ids@, limit as nat) == scored@ + scan_scores(
                    accept,
                    score,
                    ids@.skip(next as int),
                    (limit - scored@.len()) as nat,
                ),
            decreases ids@.len() - next,
        {
            let point_id: PointOffsetType = ids[next];
            let ghost before = ids@.skip(next as int);
            proof {
                assert(before.drop_first() =~= ids@.skip(next + 1));
            }
            next = next + 1;
            if self.check_point(point_id) {
                match self.raw_scorer.score_point(point_id) {
                    Ok(score_value) => {
                        let ghost earlier = scored@;
                        scored.push(ScoredPointOffset { idx: point_id, score: score_value });
                        proof {
                            let rest = scan_scores(
                                accept,
                                score,
                                before.drop_first(),
                                (limit - earlier.len() - 1) as nat,
                            );
                            assert(earlier + (seq![
                                ScoredPointOffset { idx: point_id, score: score_value },
                            ] + rest) =~= scored@ + rest);
                        }
                    },
                    Err(_) => {},
                }
            }
        }
        proof {
            assert(scored@ + Seq::<ScoredPointOffset>::empty() =~= scored@);
        }
        scored
    }

    /// Scores `point_id` against the query, whatever the filter says of it.
    /// An offset outside the storage is an error.
    pub fn score_point(&self, point_id: PointOffsetType) -> (outcome: Result<ScoreType, OperationError>)
        ensures
            outcome == score_point_outcome(self.raw_scorer, point_id),
    {
        self.raw_scorer.score_point(point_id)
    }

    /// Scores two stored points against each other, whatever the filter says
    /// of them. An offset outside the storage is an error.
    pub fn score_internal(&self, point_a: PointOffsetType, point_b: PointOffsetType) -> (outcome: Result<
        ScoreType,
        OperationError,
    >)
        ensures
            outcome == score_internal_outcome(self.raw_scorer, point_a, point_b),
    {
        self.raw_scorer.score_internal(point_a, point_b)
    }
}

} // verus!
