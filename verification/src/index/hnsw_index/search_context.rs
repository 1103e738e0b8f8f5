//! The two frontiers of a best-first search on one layer.

use vstd::prelude::*;
use crate::common::fixed_length_priority_queue::{
    bounded_insert, insert_position, is_retained, lemma_bounded_insert,
    lemma_bounded_insert_distinct, lemma_bounded_insert_front, lemma_insert_position, lemma_ranked_insert, ranked_insert,
    ranked_push, FixedLengthPriorityQueue,
};
use crate::types::{distinct_points, is_ranked, ScoreType, ScoredPointOffset};

verus! {

/// What a search context holds, as plain sequences.
pub struct ContextModel {
    /// The results so far, best first; at most `ef` of them.
    pub nearest: Seq<ScoredPointOffset>,
    /// The points still to expand, best first.
    pub candidates: Seq<ScoredPointOffset>,
    /// The beam width.
    pub ef: nat,
}

impl ContextModel {
    /// Both frontiers are in result order, and the results are within the
    /// beam width.
    pub open spec fn wf(self) -> bool {
        is_ranked(self.nearest) && is_ranked(self.candidates) && self.nearest.len() <= self.ef
    }

    /// The context a search starts with: the entry point is to be expanded,
    /// and counts as a result if it is `admitted`.
    pub open spec fn start(entry_point: ScoredPointOffset, ef: nat, admitted: bool) -> ContextModel {
        ContextModel {
            nearest: if admitted {
                bounded_insert(Seq::empty(), ef, entry_point)
            } else {
                Seq::empty()
            },
            candidates: seq![entry_point],
            ef,
        }
    }

    /// The score a point has to reach to be worth expanding: that of the
    /// worst result held, or the least score of all while there is none.
    pub open spec fn lower_bound(self) -> ScoreType {
        if self.nearest.len() == 0 {
            ScoreType::MIN
        } else {
            self.nearest.last().score
        }
    }

    /// The context after `score_point` was offered: it becomes a result if
    /// the results keep it, and only then is it also to be expanded.
    pub open spec fn process(self, score_point: ScoredPointOffset) -> ContextModel {
        ContextModel {
            nearest: bounded_insert(self.nearest, self.ef, score_point),
            candidates: if is_retained(self.nearest, self.ef, score_point) {
                ranked_insert(self.candidates, score_point)
            } else {
                self.candidates
            },
            ef: self.ef,
        }
    }

    /// The context after each of `scored` was offered, in order.
    pub open spec fn process_all(self, scored: Seq<ScoredPointOffset>) -> ContextModel
        decreases scored.len(),
    {
        if scored.len() == 0 {
            self
        } else {
            self.process(scored[0]).process_all(scored.drop_first())
        }
    }

    /// Every result satisfies `results`, and every point of the frontier
    /// satisfies `frontier`.
    pub open spec fn holds(
        self,
        results: spec_fn(ScoredPointOffset) -> bool,
        frontier: spec_fn(ScoredPointOffset) -> bool,
    ) -> bool {
        &&& forall|i: int| 0 <= i < self.nearest.len() ==> results(#[trigger] self.nearest[i])
        &&& forall|i: int| 0 <= i < self.candidates.len() ==> frontier(#[trigger] self.candidates[i])
    }
}

/// Offering a point keeps the context in order, and what held of every point
/// in it still holds if it holds of the point offered.
pub proof fn lemma_process(
    context: ContextModel,
    score_point: ScoredPointOffset,
    results: spec_fn(ScoredPointOffset) -> bool,
    frontier: spec_fn(ScoredPointOffset) -> bool,
)
    requires
        context.wf(),
    ensures
        context.process(score_point).wf(),
        context.process(score_point).ef == context.ef,
        context.process(score_point).nearest.len() >= context.nearest.len(),
        context.holds(results, frontier) && results(score_point) && frontier(score_point)
            ==> context.process(score_point).holds(results, frontier),
{
    lemma_bounded_insert(context.nearest, context.ef, score_point);
    lemma_ranked_insert(context.candidates, score_point);
    lemma_insert_position(context.candidates, score_point);
    let after = context.process(score_point);
    if context.holds(results, frontier) && results(score_point) && frontier(score_point) {
        assert forall|i: int| 0 <= i < after.nearest.len() implies results(
            #[trigger] after.nearest[i],
        ) by {
            let kept = after.nearest[i];
            if kept != score_point {
                assert(context.nearest.contains(kept));
            }
        }
        assert forall|i: int| 0 <= i < after.candidates.len() implies frontier(
            #[trigger] after.candidates[i],
        ) by {
            if is_retained(context.nearest, context.ef, score_point) {
                let position = insert_position(context.candidates, score_point) as int;
                if i < position {
                    assert(after.candidates[i] == context.candidates[i]);
                } else if i > position {
                    assert(after.candidates[i] == context.candidates[i - 1]);
                }
            }
        }
    }
}

/// Offering several points keeps the context in order, and what held of
/// every point in it still holds if it holds of the points offered.
pub proof fn lemma_process_all(
    context: ContextModel,
    scored: Seq<ScoredPointOffset>,
    results: spec_fn(ScoredPointOffset) -> bool,
    frontier: spec_fn(ScoredPointOffset) -> bool,
)
    requires
        context.wf(),
    ensures
        context.process_all(scored).wf(),
        context.process_all(scored).ef == context.ef,
        context.process_all(scored).nearest.len() >= context.nearest.len(),
        context.holds(results, frontier) && (forall|i: int|
            0 <= i < scored.len() ==> results(#[trigger] scored[i]) && frontier(scored[i]))
            ==> context.process_all(scored).holds(results, frontier),
    decreases scored.len(),
{
    if scored.len() > 0 {
        lemma_process(context, scored[0], results, frontier);
        let rest = scored.drop_first();
        lemma_process_all(context.process(scored[0]), rest, results, frontier);
        if context.holds(results, frontier) && (forall|i: int|
            0 <= i < scored.len() ==> results(#[trigger] scored[i]) && frontier(scored[i])) {
            assert(results(scored[0]) && frontier(scored[0]));
            assert forall|i: int| 0 <= i < rest.len() implies results(#[trigger] rest[i])
                && frontier(rest[i]) by {
                assert(rest[i] == scored[i + 1]);
            }
        }
    }
}

/// Results that hold no point twice hold none twice after they were offered
/// points that are all different from each other and from those held.
pub proof fn lemma_process_all_distinct(context: ContextModel, scored: Seq<ScoredPointOffset>)
    requires
        context.wf(),
        distinct_points(context.nearest),
        distinct_points(scored),
        forall|i: int, j: int|
            0 <= i < context.nearest.len() && 0 <= j < scored.len() ==> (
            #[trigger] context.nearest[i]).idx != (#[trigger] scored[j]).idx,
    ensures
        distinct_points(context.process_all(scored).nearest),
    decreases scored.len(),
{
    if scored.len() > 0 {
        let first = scored[0];
        let rest = scored.drop_first();
        let after = context.process(first);
        lemma_process(context, first, |p: ScoredPointOffset| true, |p: ScoredPointOffset| true);
        lemma_bounded_insert(context.nearest, context.ef, first);
        lemma_bounded_insert_distinct(context.nearest, context.ef, first);
        assert forall|i: int, j: int| 0 <= i < j < rest.len() implies (#[trigger] rest[i]).idx != (
        #[trigger] rest[j]).idx by {
            assert(rest[i] == scored[i + 1] && rest[j] == scored[j + 1]);
        }
        assert forall|i: int, j: int| 0 <= i < after.nearest.len() && 0 <= j < rest.len() implies (
        #[trigger] after.nearest[i]).idx != (#[trigger] rest[j]).idx by {
            assert(rest[j] == scored[j + 1]);
            let kept = after.nearest[i];
            if kept != first {
                assert(context.nearest.contains(kept));
                let k = choose|k: int| 0 <= k < context.nearest.len() && context.nearest[k] == kept;
                assert(context.nearest[k].idx != scored[j + 1].idx);
            }
        }
        lemma_process_all_distinct(after, rest);
    }
}

/// The best result never gets worse: after any offers the first result scores
/// no lower than the first result before.
pub proof fn lemma_process_all_front(context: ContextModel, scored: Seq<ScoredPointOffset>)
    requires
        context.wf(),
        context.nearest.len() > 0,
    ensures
        context.process_all(scored).nearest.len() > 0,
        context.process_all(scored).nearest[0].score >= context.nearest[0].score,
    decreases scored.len(),
{
    if scored.len() > 0 {
        lemma_process(
            context,
            scored[0],
            |p: ScoredPointOffset| true,
            |p: ScoredPointOffset| true,
        );
        lemma_bounded_insert_front(context.nearest, context.ef, scored[0]);
        lemma_process_all_front(context.process(scored[0]), scored.drop_first());
    }
}

/// The results and the frontier of a best-first search on one layer.
pub struct SearchContext {
    pub nearest: FixedLengthPriorityQueue,
    pub candidates: Vec<ScoredPointOffset>,
}

impl View for SearchContext {
    type V = ContextModel;

    open spec fn view(&self) -> ContextModel {
        ContextModel {
            nearest: self.nearest@,
            candidates: self.candidates@,
            ef: self.nearest.capacity(),
        }
    }
}

impl SearchContext {
    /// The queues are in order and the results within the beam width.
    pub open spec fn wf(&self) -> bool {
        self.nearest.wf() && self@.wf()
    }

    /// Starts a search of beam width `ef` at `entry_point`. The entry point
    /// will be expanded; it counts as a result only if it is `admitted`.
    pub fn new(entry_point: ScoredPointOffset, ef: usize, admitted: bool) -> (context: Self)
        ensures
            context.wf(),
            context@ == ContextModel::start(entry_point, ef as nat, admitted),
    {
        let mut nearest = FixedLengthPriorityQueue::new(ef);
        if admitted {
            nearest.push(entry_point);
        }
        let mut candidates: Vec<ScoredPointOffset> = Vec::new();
        candidates.push(entry_point);
        proof {
            assert(candidates@ =~= seq![entry_point]);
        }
        SearchContext { nearest, candidates }
    }

    /// The score a point has to reach to be worth expanding.
    pub fn lower_bound(&self) -> (bound: ScoreType)
        ensures
            bound == self@.lower_bound(),
    {
        match self.nearest.top() {
            None => ScoreType::MIN,
            Some(worst_of_the_best) => worst_of_the_best.score,
        }
    }

    /// Takes the best point off the frontier if the search goes on: if there
    /// is one, and it scores no lower than the worst result held.
    pub fn next_candidate(&mut self) -> (next: Option<ScoredPointOffset>)
        requires
            old(self).wf(),
        ensures
            final(self).wf(),
            match next {
                Some(candidate) => {
                    &&& old(self)@.candidates.len() > 0
                    &&& candidate == old(self)@.candidates[0]
                    &&& candidate.score >= old(self)@.lower_bound()
                    &&& final(self)@ == (ContextModel {
                        candidates: old(self)@.candidates.drop_first(),
                        ..old(self)@
                    })
                },
                None => {
                    &&& !(old(self)@.candidates.len() > 0 && old(self)@.candidates[0].score >= old(
                        self,
                    )@.lower_bound())
                    &&& final(self)@ == old(self)@
                },
            },
    {
        if self.candidates.len() == 0 {
            return None;
        }
        let candidate = self.candidates[0];
        if candidate.score < self.lower_bound() {
            return None;
        }
        self.candidates.remove(0);
        proof {
            assert(self.candidates@ =~= old(self)@.candidates.drop_first());
            assert forall|i: int, j: int| 0 <= i < j < self.candidates@.len() implies (
            #[trigger] self.candidates@[i]).ranks_not_after(#[trigger] self.candidates@[j]) by {
                assert(self.candidates@[i] == old(self).candidates@[i + 1]);
                assert(self.candidates@[j] == old(self).candidates@[j + 1]);
            }
        }
        Some(candidate)
    }

    /// Offers a scored point. It becomes a result if it is among the best
    /// `ef` seen; only then is it queued for expansion too.
    pub fn process_candidate(&mut self, score_point: ScoredPointOffset)
        requires
            old(self).wf(),
        ensures
            final(self).wf(),
            final(self)@ == old(self)@.process(score_point),
    {
        proof {
            lemma_process(
                self@,
                score_point,
                |p: ScoredPointOffset| true,
                |p: ScoredPointOffset| true,
            );
        }
        let was_added = self.nearest.push(score_point);
        if was_added {
            ranked_push(&mut self.candidates, score_point);
        }
    }

    /// Offers each of `scored`, in order.
    pub fn process_candidates(&mut self, scored: &Vec<ScoredPointOffset>)
        requires
            old(self).wf(),
        ensures
            final(self).wf(),
            final(self)@ == old(self)@.process_all(scored@),
    {
        let mut i: usize = 0;
        proof {
            assert(scored@.skip(0) =~= scored@);
        }
        while i < scored.len()
            invariant
                i <= scored@.len(),
                self.wf(),
                old(self)@.process_all(scored@) == self@.process_all(scored@.skip(i as int)),
            decreases scored@.len() - i,
        {
            proof {
                assert(scored@.skip(i as int).drop_first() =~= scored@.skip(i + 1));
            }
            self.process_candidate(scored[i]);
            i = i + 1;
        }
    }
}

} // verus!
