//! The layered proximity graph: construction, point insertion and search.

use vstd::prelude::*;
use crate::common::fixed_length_priority_queue::{lemma_bounded_insert, ranked_push};
use crate::common::random::next_sample;
use crate::index::hnsw_index::graph_model::{
    back_links, beam_measure, beam_search, beam_start, beam_step, beam_width, best_of,
    connect_back, descend, descend_level, is_diverse, lemma_back_links,
    lemma_beam_step_decreases, lemma_best_of, lemma_best_of_dominates, lemma_level_of_sample, lemma_mark_unvisited,
    lemma_mark_unvisited_fresh, lemma_ranked_neighbors, lemma_select_neighbors,
    lemma_with_entry, lemma_with_layers, lemma_with_neighbors, level_of_sample, link_level,
    link_levels, linked, mark_unvisited, ranked_neighbors, search, search_on_level,
    select_neighbors, select_plain, select_with_heuristic, BeamState, EntryPoint,
    GraphModel,
};
use crate::index::hnsw_index::point_scorer::FilteredScorer;
use crate::index::hnsw_index::search_context::{
    lemma_process_all, lemma_process_all_distinct, lemma_process_all_front, SearchContext,
};
use crate::payload_storage::ConditionChecker;
use crate::types::{
    distinct_points, is_ranked, OperationError, PointOffsetType, ScoreType, ScoredPointOffset,
};
use crate::vector_storage::{
    lemma_scan_scores_complete, lemma_scan_scores_content, lemma_scan_scores_distinct,
    RawScorer,
};

verus! {

/// The neighbour lists as sequences.
pub open spec fn links_view(links: Vec<Vec<Vec<PointOffsetType>>>) -> Seq<Seq<Seq<PointOffsetType>>> {
    Seq::new(
        links@.len(),
        |point: int| Seq::new(links@[point]@.len(), |level: int| links@[point]@[level]@),
    )
}

/// A stack of proximity graphs of decreasing density over the same points.
pub struct GraphLayers {
    m: usize,
    m0: usize,
    ef_construct: usize,
    max_level: usize,
    use_heuristic: bool,
    links_layers: Vec<Vec<Vec<PointOffsetType>>>,
    entry_point: Option<EntryPoint>,
}

impl View for GraphLayers {
    type V = GraphModel;

    closed spec fn view(&self) -> GraphModel {
        GraphModel {
            m: self.m as nat,
            m0: self.m0 as nat,
            ef_construct: self.ef_construct as nat,
            max_level: self.max_level as nat,
            use_heuristic: self.use_heuristic,
            links: links_view(self.links_layers),
            entry: self.entry_point,
        }
    }
}

/// The score of a point that the scorer is known to hold.
fn score_known<R: RawScorer, C: ConditionChecker>(
    scorer: &FilteredScorer<'_, R, C>,
    point_id: PointOffsetType,
) -> (score: ScoreType)
    requires
        point_id < scorer.raw_scorer.point_count(),
    ensures
        score == scorer.raw_scorer.query_score(point_id),
{
    match scorer.score_point(point_id) {
        Ok(score) => score,
        Err(_) => vstd::pervasive::unreached(),
    }
}

/// The score of two points that the scorer is known to hold.
fn score_known_pair<R: RawScorer, C: ConditionChecker>(
    scorer: &FilteredScorer<'_, R, C>,
    point_a: PointOffsetType,
    point_b: PointOffsetType,
) -> (score: ScoreType)
    requires
        point_a < scorer.raw_scorer.point_count(),
        point_b < scorer.raw_scorer.point_count(),
    ensures
        score == scorer.raw_scorer.internal_score(point_a, point_b),
{
    match scorer.score_internal(point_a, point_b) {
        Ok(score) => score,
        Err(_) => vstd::pervasive::unreached(),
    }
}

/// Picks the better of `current` and the points of `scored`.
fn pick_best(scored: &Vec<ScoredPointOffset>, current: ScoredPointOffset) -> (best: ScoredPointOffset)
    ensures
        best == best_of(scored@, current),
{
    let mut best = current;
    let mut i: usize = 0;
    proof {
        assert(scored@.skip(0) =~= scored@);
    }
    while i < scored.len()
        invariant
            i <= scored@.len(),
            best_of(scored@, current) == best_of(scored@.skip(i as int), best),
        decreases scored@.len() - i,
    {
        proof {
            assert(scored@.skip(i as int).drop_first() =~= scored@.skip(i + 1));
        }
        if scored[i].score > best.score {
            best = scored[i];
        }
        i = i + 1;
    }
    best
}

/// Takes from `links` the points that are not marked in `visited`, in order
/// and each once, and marks them.
fn take_unvisited(links: &Vec<PointOffsetType>, visited: &mut Vec<bool>) -> (fresh: Vec<
    PointOffsetType,
>)
    ensures
        fresh@ == mark_unvisited(links@, old(visited)@).0,
        final(visited)@ == mark_unvisited(links@, old(visited)@).1,
{
    let mut fresh: Vec<PointOffsetType> = Vec::new();
    let mut i: usize = 0;
    proof {
        assert(links@.skip(0) =~= links@);
        assert(fresh@ + mark_unvisited(links@, visited@).0 =~= mark_unvisited(links@, visited@).0);
    }
    while i < links.len()
        invariant
            i <= links@.len(),
            mark_unvisited(links@, old(visited)@).0 == fresh@ + mark_unvisited(
                links@.skip(i as int),
                visited@,
            ).0,
            mark_unvisited(links@, old(visited)@).1 == mark_unvisited(
                links@.skip(i as int),
                visited@,
            ).1,
        decreases links@.len() - i,
    {
        let point: PointOffsetType = links[i];
        let ghost before = visited@;
        let ghost earlier = fresh@;
        proof {
            assert(links@.skip(i as int).drop_first() =~= links@.skip(i + 1));
        }
        if (point as usize) < visited.len() && !visited[point as usize] {
            visited[point as usize] = true;
            fresh.push(point);
            proof {
                let rest = mark_unvisited(links@.skip(i + 1), visited@);
                assert(visited@ == before.update(point as int, true));
                assert(earlier + (seq![point] + rest.0) =~= fresh@ + rest.0);
            }
        }
        i = i + 1;
    }
    proof {
        assert(fresh@ + Seq::<PointOffsetType>::empty() =~= fresh@);
    }
    fresh
}

/// Selects up to `m` of `candidates`, which are ranked best first, for
/// diversity: a candidate is admitted if it is no nearer to any point
/// admitted before it than to the point the selection is made for.
fn select_candidates_with_heuristic<R: RawScorer, C: ConditionChecker>(
    candidates: &Vec<ScoredPointOffset>,
    m: usize,
    points_scorer: &FilteredScorer<'_, R, C>,
) -> (selected: Vec<PointOffsetType>)
    requires
        forall|i: int|
            0 <= i < candidates@.len() ==> (#[trigger] candidates@[i]).idx
                < points_scorer.raw_scorer.point_count(),
    ensures
        selected@ == select_with_heuristic(
            points_scorer.model(),
            candidates@,
            m as nat,
            Seq::empty(),
        ),
{
    let ghost scoring = points_scorer.model();
    let mut result_list: Vec<PointOffsetType> = Vec::new();
    let mut i: usize = 0;
    proof {
        assert(candidates@.skip(0) =~= candidates@);
    }
    while i < candidates.len() && result_list.len() < m
        invariant
            i <= candidates@.len(),
            scoring == points_scorer.model(),
            forall|k: int|
                0 <= k < candidates@.len() ==> (#[trigger] candidates@[k]).idx
                    < points_scorer.raw_scorer.point_count(),
            forall|k: int|
                0 <= k < result_list@.len() ==> #[trigger] result_list@[k]
                    < points_scorer.raw_scorer.point_count(),
            select_with_heuristic(scoring, candidates@, m as nat, Seq::empty())
                == select_with_heuristic(
                scoring,
                candidates@.skip(i as int),
                m as nat,
                result_list@,
            ),
        decreases candidates@.len() - i,
    {
        let current_closest = candidates[i];
        let mut is_good = true;
        let mut j: usize = 0;
        while j < result_list.len() && is_good
            invariant
                j <= result_list@.len(),
                scoring == points_scorer.model(),
                current_closest.idx < points_scorer.raw_scorer.point_count(),
                forall|k: int|
                    0 <= k < result_list@.len() ==> #[trigger] result_list@[k]
                        < points_scorer.raw_scorer.point_count(),
                is_good ==> forall|k: int|
                    0 <= k < j ==> (scoring.pair)(current_closest.idx, #[trigger] result_list@[k])
                        <= current_closest.score,
                !is_good ==> !is_diverse(scoring, current_closest, result_list@),
            decreases result_list@.len() - j + (if is_good { 1int } else { 0int }),
        {
            let dist_to_already_selected = score_known_pair(
                points_scorer,
                current_closest.idx,
                result_list[j],
            );
            if dist_to_already_selected > current_closest.score {
                is_good = false;
            }
            j = j + 1;
        }
        proof {
            assert(candidates@.skip(i as int).drop_first() =~= candidates@.skip(i + 1));
            assert(is_good == is_diverse(scoring, current_closest, result_list@));
        }
        if is_good {
            result_list.push(current_closest.idx);
        }
        i = i + 1;
    }
    result_list
}

/// Selects the first `m` of `candidates`.
fn select_first(candidates: &Vec<ScoredPointOffset>, m: usize) -> (selected: Vec<PointOffsetType>)
    ensures
        selected@ == select_plain(candidates@, m as nat),
{
    let mut selected: Vec<PointOffsetType> = Vec::new();
    let mut i: usize = 0;
    while i < candidates.len() && i < m
        invariant
            i <= candidates@.len(),
            i <= m,
            selected@.len() == i,
            forall|k: int| 0 <= k < i ==> #[trigger] selected@[k] == candidates@[k].idx,
        decreases candidates@.len() - i,
    {
        selected.push(candidates[i].idx);
        i = i + 1;
    }
    proof {
        assert(selected@ =~= select_plain(candidates@, m as nat));
    }
    selected
}

/// Selects up to `m` neighbours from `candidates`, which are ranked best
/// first: for diversity, or simply the best.
fn select_from_ranked<R: RawScorer, C: ConditionChecker>(
    candidates: &Vec<ScoredPointOffset>,
    m: usize,
    use_heuristic: bool,
    points_scorer: &FilteredScorer<'_, R, C>,
) -> (selected: Vec<PointOffsetType>)
    requires
        forall|i: int|
            0 <= i < candidates@.len() ==> (#[trigger] candidates@[i]).idx
                < points_scorer.raw_scorer.point_count(),
    ensures
        selected@ == select_neighbors(points_scorer.model(), candidates@, m as nat, use_heuristic),
{
    if use_heuristic {
        select_candidates_with_heuristic(candidates, m, points_scorer)
    } else {
        select_first(candidates, m)
    }
}

/// Scores each of `points` against `target` and ranks them best first.
fn rank_neighbors<R: RawScorer, C: ConditionChecker>(
    target: PointOffsetType,
    points: &Vec<PointOffsetType>,
    points_scorer: &FilteredScorer<'_, R, C>,
) -> (ranked: Vec<ScoredPointOffset>)
    requires
        target < points_scorer.raw_scorer.point_count(),
        forall|i: int|
            0 <= i < points@.len() ==> #[trigger] points@[i]
                < points_scorer.raw_scorer.point_count(),
    ensures
        ranked@ == ranked_neighbors(points_scorer.model(), target, points@),
{
    let ghost scoring = points_scorer.model();
    let mut ranked: Vec<ScoredPointOffset> = Vec::new();
    let mut i: usize = 0;
    while i < points.len()
        invariant
            i <= points@.len(),
            scoring == points_scorer.model(),
            target < points_scorer.raw_scorer.point_count(),
            forall|k: int|
                0 <= k < points@.len() ==> #[trigger] points@[k]
                    < points_scorer.raw_scorer.point_count(),
            ranked@ == ranked_neighbors(scoring, target, points@.take(i as int)),
        decreases points@.len() - i,
    {
        proof {
            assert(points@.take(i + 1).drop_last() =~= points@.take(i as int));
        }
        let score = score_known_pair(points_scorer, points[i], target);
        ranked_push(&mut ranked, ScoredPointOffset { idx: points[i], score });
        i = i + 1;
    }
    proof {
        assert(points@.take(i as int) =~= points@);
    }
    ranked
}

impl GraphLayers {
    /// The invariant of the graph: see [`GraphModel::wf`].
    pub open spec fn wf(&self) -> bool {
        self@.wf() && self@.max_level < usize::MAX
    }

    /// Whether the scorer knows every point the graph has a slot for.
    pub open spec fn covered_by<R: RawScorer, C: ConditionChecker>(
        &self,
        scorer: &FilteredScorer<'_, R, C>,
    ) -> bool {
        self@.num_points() <= scorer.raw_scorer.point_count()
    }

    /// An empty graph with slots for `num_points` points. Points get up to
    /// `m0` neighbours on layer 0 and up to `m` on the layers above; there
    /// are `num_layers` layers at most, and one at least.
    pub fn new(
        num_points: usize,
        m: usize,
        m0: usize,
        ef_construct: usize,
        num_layers: usize,
        use_heuristic: bool,
    ) -> (graph: Self)
        ensures
            graph.wf(),
            graph@ == (GraphModel {
                m: m as nat,
                m0: m0 as nat,
                ef_construct: ef_construct as nat,
                max_level: if num_layers == 0 {
                    0
                } else {
                    (num_layers - 1) as nat
                },
                use_heuristic,
                links: Seq::new(
                    num_points as nat,
                    |point: int| Seq::<Seq<PointOffsetType>>::empty(),
                ),
                entry: None,
            }),
    {
        let mut links_layers: Vec<Vec<Vec<PointOffsetType>>> = Vec::new();
        let mut i: usize = 0;
        while i < num_points
            invariant
                i <= num_points,
                links_layers@.len() == i,
                forall|point: int| 0 <= point < i ==> (#[trigger] links_layers@[point])@.len() == 0,
            decreases num_points - i,
        {
            links_layers.push(Vec::new());
            i = i + 1;
        }
        let max_level: usize = if num_layers == 0 {
            0
        } else {
            num_layers - 1
        };
        let graph = GraphLayers {
            m,
            m0,
            ef_construct,
            max_level,
            use_heuristic,
            links_layers,
            entry_point: None,
        };
        proof {
            assert(graph@.links =~~= Seq::new(
                num_points as nat,
                |point: int| Seq::<Seq<PointOffsetType>>::empty(),
            ));
        }
        graph
    }

    /// Number of slots for points.
    pub fn num_points(&self) -> (count: usize)
        ensures
            count == self@.num_points(),
    {
        self.links_layers.len()
    }

    /// The highest layer that `point_id` is present on, or `None` while the
    /// point is not linked.
    pub fn point_level(&self, point_id: PointOffsetType) -> (level: Option<usize>)
        ensures
            level == (if self@.layer_count(point_id) == 0 {
                None
            } else {
                Some((self@.layer_count(point_id) - 1) as usize)
            }),
    {
        if (point_id as usize) < self.links_layers.len() && self.links_layers[point_id as usize].len()
            > 0 {
            Some(self.links_layers[point_id as usize].len() - 1)
        } else {
            None
        }
    }

    /// The neighbours of `point_id` on layer `level`, or `None` where the
    /// point is not present on that layer.
    pub fn links(&self, point_id: PointOffsetType, level: usize) -> (links: Option<
        &Vec<PointOffsetType>,
    >)
        ensures
            match links {
                Some(list) => self@.present(point_id, level as nat) && list@ == self@.neighbors(
                    point_id,
                    level as nat,
                ),
                None => !self@.present(point_id, level as nat),
            },
    {
        if (point_id as usize) < self.links_layers.len() && level
            < self.links_layers[point_id as usize].len() {
            Some(&self.links_layers[point_id as usize][level])
        } else {
            None
        }
    }

    /// The entry point, or `None` while no point is linked.
    pub fn entry_point(&self) -> (entry: Option<EntryPoint>)
        ensures
            entry == self@.entry,
    {
        self.entry_point
    }

    /// The most neighbours a point may have on layer `level`.
    pub fn get_m(&self, level: usize) -> (bound: usize)
        ensures
            bound == self@.degree_bound(level as nat),
    {
        if level == 0 {
            self.m0
        } else {
            self.m
        }
    }

    /// The level that the random number `sample` assigns to a new point.
    pub fn level_for_sample(&self, sample: u64) -> (level: usize)
        ensures
            level == level_of_sample(sample as nat, self@.m, self@.max_level),
            level <= self@.max_level,
    {
        let mut level: usize = 0;
        let mut value: u64 = sample;
        proof {
            lemma_level_of_sample(sample as nat, self@.m, self@.max_level);
        }
        if self.m < 2 {
            return 0;
        }
        let mut stopped = false;
        while level < self.max_level && !stopped
            invariant
                level <= self.max_level,
                self.m >= 2,
                level_of_sample(sample as nat, self.m as nat, self.max_level as nat) == level
                    + level_of_sample(
                    value as nat,
                    self.m as nat,
                    (self.max_level - level) as nat,
                ),
                stopped ==> value * self.m > u64::MAX,
            decreases self.max_level - level + (if stopped { 0int } else { 1int }),
        {
            assert((value as nat) * (self.m as nat) <= 0xffff_ffff_ffff_ffff
                * 0xffff_ffff_ffff_ffff) by (nonlinear_arith)
                requires
                    0 <= value <= 0xffff_ffff_ffff_ffff,
                    0 <= self.m <= 0xffff_ffff_ffff_ffff,
            ;
            let product: u128 = (value as u128) * (self.m as u128);
            if product > u64::MAX as u128 {
                stopped = true;
            } else {
                value = product as u64;
                level = level + 1;
            }
        }
        level
    }

    /// One greedy walk on `level`, from `start` to a point none of whose
    /// candidate neighbours scores higher.
    fn search_entry_on_level<R: RawScorer, C: ConditionChecker>(
        &self,
        start: ScoredPointOffset,
        level: usize,
        points_scorer: &FilteredScorer<'_, R, C>,
    ) -> (best: ScoredPointOffset)
        requires
            self@.structure_wf(),
            self.covered_by(points_scorer),
            self@.present(start.idx, level as nat),
        ensures
            best == descend_level(self@, points_scorer.query_model(), level as nat, start),
            self@.present(best.idx, level as nat),
            start.score == points_scorer.raw_scorer.query_score(start.idx) ==> best.score
                == points_scorer.raw_scorer.query_score(best.idx),
            points_scorer.accepts(start.idx) ==> points_scorer.accepts(best.idx),
            best.score >= start.score,
            forall|i: int|
                0 <= i < self@.neighbors(best.idx, level as nat).len() && points_scorer.accepts(
                    #[trigger] self@.neighbors(best.idx, level as nat)[i],
                ) ==> points_scorer.raw_scorer.query_score(
                    self@.neighbors(best.idx, level as nat)[i],
                ) <= best.score,
    {
        let ghost scoring = points_scorer.query_model();
        let mut current = start;
        let mut changed = true;
        while changed
            invariant
                self@.structure_wf(),
                self.covered_by(points_scorer),
                scoring == points_scorer.query_model(),
                self@.present(current.idx, level as nat),
                start.score == points_scorer.raw_scorer.query_score(start.idx) ==> current.score
                    == points_scorer.raw_scorer.query_score(current.idx),
                points_scorer.accepts(start.idx) ==> points_scorer.accepts(current.idx),
                current.score >= start.score,
                !changed ==> forall|i: int|
                    0 <= i < self@.neighbors(current.idx, level as nat).len()
                        && points_scorer.accepts(
                        #[trigger] self@.neighbors(current.idx, level as nat)[i],
                    ) ==> points_scorer.raw_scorer.query_score(
                        self@.neighbors(current.idx, level as nat)[i],
                    ) <= current.score,
                descend_level(self@, scoring, level as nat, start) == (if changed {
                    descend_level(self@, scoring, level as nat, current)
                } else {
                    current
                }),
            decreases
                    i64::MAX - current.score + (if changed {
                        1int
                    } else {
                        0int
                    }),
        {
            let links = &self.links_layers[current.idx as usize][level];
            let scored = points_scorer.score_points(links.as_slice(), self.get_m(level));
            let next = pick_best(&scored, current);
            proof {
                lemma_best_of(scored@, current);
                lemma_best_of_dominates(scored@, current);
                lemma_scan_scores_content(
                    scoring.accept,
                    scoring.score,
                    links@,
                    self@.degree_bound(level as nat),
                );
                assert(self@.node_ok(current.idx as int, level as int));
                lemma_scan_scores_complete(
                    scoring.accept,
                    scoring.score,
                    links@,
                    self@.degree_bound(level as nat),
                );
                if next.score <= current.score {
                    assert forall|i: int|
                        0 <= i < links@.len() && points_scorer.accepts(
                            #[trigger] links@[i],
                        ) implies points_scorer.raw_scorer.query_score(links@[i])
                        <= current.score by {
                        let wanted = ScoredPointOffset {
                            idx: links@[i],
                            score: (scoring.score)(links@[i]),
                        };
                        assert(scored@.contains(wanted));
                        let k = choose|k: int| 0 <= k < scored@.len() && scored@[k] == wanted;
                        assert(next.score >= scored@[k].score);
                    }
                }
                if next != current {
                    let k = choose|k: int| 0 <= k < scored@.len() && scored@[k] == next;
                    assert(links@.contains(scored@[k].idx));
                }
            }
            changed = next.score > current.score;
            current = next;
        }
        current
    }

    /// The greedy descent from `entry_point` on `top_level` down to the layer
    /// above `target_level`.
    fn search_entry<R: RawScorer, C: ConditionChecker>(
        &self,
        entry_point: PointOffsetType,
        top_level: usize,
        target_level: usize,
        points_scorer: &FilteredScorer<'_, R, C>,
    ) -> (best: ScoredPointOffset)
        requires
            self@.structure_wf(),
            self.covered_by(points_scorer),
            self@.present(entry_point, top_level as nat),
        ensures
            best == descend(
                self@,
                points_scorer.query_model(),
                top_level as nat,
                target_level as nat,
                points_scorer.query_model().scored_point(entry_point),
            ),
            self@.present(
                best.idx,
                if top_level > target_level {
                    (target_level + 1) as nat
                } else {
                    top_level as nat
                },
            ),
            best.score == points_scorer.raw_scorer.query_score(best.idx),
            points_scorer.accepts(entry_point) ==> points_scorer.accepts(best.idx),
            best.score >= points_scorer.raw_scorer.query_score(entry_point),
    {
        let ghost scoring = points_scorer.query_model();
        let ghost start = scoring.scored_point(entry_point);
        let mut current = ScoredPointOffset {
            idx: entry_point,
            score: score_known(points_scorer, entry_point),
        };
        let mut level: usize = top_level;
        while level > target_level
            invariant
                self@.structure_wf(),
                self.covered_by(points_scorer),
                scoring == points_scorer.query_model(),
                level <= top_level,
                level < top_level ==> level >= target_level,
                self@.present(current.idx, level as nat),
                level < top_level ==> self@.present(current.idx, (level + 1) as nat),
                current.score == points_scorer.raw_scorer.query_score(current.idx),
                points_scorer.accepts(entry_point) ==> points_scorer.accepts(current.idx),
                current.score >= points_scorer.raw_scorer.query_score(entry_point),
                descend(self@, scoring, top_level as nat, target_level as nat, start) == descend(
                    self@,
                    scoring,
                    level as nat,
                    target_level as nat,
                    current,
                ),
            decreases level,
        {
            current = self.search_entry_on_level(current, level, points_scorer);
            level = level - 1;
        }
        current
    }

    /// A best-first search of beam width `ef` on `level`, starting at
    /// `level_entry`. Returns the best points found, best first.
    fn search_on_level<R: RawScorer, C: ConditionChecker>(
        &self,
        level_entry: ScoredPointOffset,
        level: usize,
        ef: usize,
        points_scorer: &FilteredScorer<'_, R, C>,
    ) -> (nearest: Vec<ScoredPointOffset>)
        requires
            self@.structure_wf(),
            self.covered_by(points_scorer),
            self@.present(level_entry.idx, level as nat),
            level_entry.score == points_scorer.raw_scorer.query_score(level_entry.idx),
        ensures
            nearest@ == search_on_level(
                self@,
                points_scorer.query_model(),
                level_entry,
                level as nat,
                ef as nat,
            ),
            is_ranked(nearest@),
            distinct_points(nearest@),
            nearest@.len() <= ef,
            ef > 0 && points_scorer.accepts(level_entry.idx) ==> nearest@.len() > 0
                && nearest@[0].score >= level_entry.score,
            forall|i: int|
                0 <= i < nearest@.len() ==> {
                    let found = #[trigger] nearest@[i];
                    &&& self@.present(found.idx, level as nat)
                    &&& points_scorer.accepts(found.idx)
                    &&& found.score == points_scorer.raw_scorer.query_score(found.idx)
                },
    {
        let ghost scoring = points_scorer.query_model();
        let ghost graph = self@;
        let ghost results = |found: ScoredPointOffset|
            {
                &&& graph.present(found.idx, level as nat)
                &&& points_scorer.accepts(found.idx)
                &&& found.score == points_scorer.raw_scorer.query_score(found.idx)
            };
        let ghost frontier = |found: ScoredPointOffset| graph.present(found.idx, level as nat);
        let mut visited: Vec<bool> = Vec::new();
        let mut i: usize = 0;
        while i < self.links_layers.len()
            invariant
                i <= self.links_layers@.len(),
                visited@.len() == i,
                forall|j: int| 0 <= j < i ==> !(#[trigger] visited@[j]),
            decreases self.links_layers@.len() - i,
        {
            visited.push(false);
            i = i + 1;
        }
        visited[level_entry.idx as usize] = true;
        let admitted = points_scorer.check_point(level_entry.idx);
        let mut context = SearchContext::new(level_entry, ef, admitted);
        let ghost start = beam_start(graph, scoring, level_entry, ef as nat);
        proof {
            assert(visited@ =~= start.visited);
            lemma_bounded_insert(Seq::empty(), ef as nat, level_entry);
        }
        let mut running = true;
        while running
            invariant
                self@.structure_wf(),
                self.covered_by(points_scorer),
                graph == self@,
                scoring == points_scorer.query_model(),
                results == (|found: ScoredPointOffset|
                    {
                        &&& graph.present(found.idx, level as nat)
                        &&& points_scorer.accepts(found.idx)
                        &&& found.score == points_scorer.raw_scorer.query_score(found.idx)
                    }),
                frontier == (|found: ScoredPointOffset| graph.present(found.idx, level as nat)),
                context.wf(),
                context@.ef == ef,
                context@.holds(results, frontier),
                distinct_points(context@.nearest),
                ef > 0 && points_scorer.accepts(level_entry.idx) ==> context@.nearest.len() > 0
                    && context@.nearest[0].score >= level_entry.score,
                forall|k: int|
                    0 <= k < context@.nearest.len() ==> visited@[(
                    #[trigger] context@.nearest[k]).idx as int],
                visited@.len() == graph.num_points(),
                beam_search(graph, scoring, level as nat, start) == (if running {
                    beam_search(
                        graph,
                        scoring,
                        level as nat,
                        BeamState { visited: visited@, context: context@ },
                    )
                } else {
                    BeamState { visited: visited@, context: context@ }
                }),
            decreases
                    beam_measure(BeamState { visited: visited@, context: context@ }) + (if running {
                        1int
                    } else {
                        0int
                    }),
        {
            let ghost state = BeamState { visited: visited@, context: context@ };
            match context.next_candidate() {
                None => {
                    running = false;
                },
                Some(candidate) => {
                    let ghost popped = context@;
                    proof {
                        assert(frontier(state.context.candidates[0]));
                        assert(self@.node_ok(candidate.idx as int, level as int));
                        assert forall|k: int| 0 <= k < popped.candidates.len() implies frontier(
                            #[trigger] popped.candidates[k],
                        ) by {
                            assert(popped.candidates[k] == state.context.candidates[k + 1]);
                        }
                    }
                    let links = &self.links_layers[candidate.idx as usize][level];
                    let fresh = take_unvisited(links, &mut visited);
                    let scored = points_scorer.score_points(fresh.as_slice(), self.get_m(level));
                    proof {
                        lemma_mark_unvisited(links@, state.visited);
                        lemma_mark_unvisited_fresh(links@, state.visited);
                        lemma_scan_scores_content(
                            scoring.accept,
                            scoring.score,
                            fresh@,
                            graph.degree_bound(level as nat),
                        );
                        lemma_scan_scores_distinct(
                            scoring.accept,
                            scoring.score,
                            fresh@,
                            graph.degree_bound(level as nat),
                        );
                        let marked = visited@;
                        let seen = |found: ScoredPointOffset|
                            found.idx < marked.len() && marked[found.idx as int];
                        let any = |found: ScoredPointOffset| true;
                        assert forall|k: int| 0 <= k < scored@.len() implies seen(
                            #[trigger] scored@[k],
                        ) && any(scored@[k]) by {
                            let found = scored@[k];
                            assert(fresh@.contains(found.idx));
                            let f = choose|f: int| 0 <= f < fresh@.len() && fresh@[f] == found.idx;
                            assert(marked[fresh@[f] as int]);
                        }
                        assert forall|k: int| 0 <= k < popped.nearest.len() implies seen(
                            #[trigger] popped.nearest[k],
                        ) by {
                            assert(state.visited[popped.nearest[k].idx as int]);
                        }
                        lemma_process_all(popped, scored@, seen, any);
                        assert forall|a: int, b: int|
                            0 <= a < popped.nearest.len() && 0 <= b < scored@.len() implies (
                        #[trigger] popped.nearest[a]).idx != (#[trigger] scored@[b]).idx by {
                            let found = scored@[b];
                            assert(fresh@.contains(found.idx));
                            let f = choose|f: int| 0 <= f < fresh@.len() && fresh@[f] == found.idx;
                            assert(!state.visited[fresh@[f] as int]);
                            assert(state.visited[popped.nearest[a].idx as int]);
                        }
                        lemma_process_all_distinct(popped, scored@);
                        if popped.nearest.len() > 0 {
                            lemma_process_all_front(popped, scored@);
                        }
                        assert forall|k: int| 0 <= k < scored@.len() implies results(
                            #[trigger] scored@[k],
                        ) && frontier(scored@[k]) by {
                            let found = scored@[k];
                            assert(fresh@.contains(found.idx));
                            let f = choose|f: int| 0 <= f < fresh@.len() && fresh@[f] == found.idx;
                            assert(links@.contains(fresh@[f]));
                        }
                        lemma_process_all(popped, scored@, results, frontier);
                        lemma_beam_step_decreases(graph, scoring, level as nat, state);
                    }
                    context.process_candidates(&scored);
                    proof {
                        assert(BeamState { visited: visited@, context: context@ } == beam_step(
                            graph,
                            scoring,
                            level as nat,
                            state,
                        ));
                    }
                },
            }
        }
        let nearest = context.nearest.into_vec();
        nearest
    }

    /// Whether a search with these parameters finds nothing whatever the
    /// scorer: nothing is asked for, or no point is linked.
    pub open spec fn search_is_empty(&self, top: usize, ef: usize) -> bool {
        top == 0 || ef == 0 || self@.entry is None
    }

    /// Searches the graph for the `top` points that score best with
    /// `points_scorer`, with a beam of width `ef`, or of width `top` where
    /// `ef` is smaller.
    ///
    /// The search starts at the entry point, whether or not the scorer
    /// accepts it, and walks greedily down to layer 0, where a best-first
    /// search collects the results. Only points that the scorer accepts are
    /// scored, followed, or returned. The results come best first: by
    /// descending score, and by ascending offset among equal scores. No point
    /// comes twice. Where the scorer accepts the entry point, something is
    /// found, and the best result scores no lower than the entry point.
    ///
    /// Nothing is found where `top` or `ef` is zero or no point is linked.
    /// Otherwise a scorer that knows fewer points than the graph has slots
    /// for is refused.
    pub fn search<R: RawScorer, C: ConditionChecker>(
        &self,
        top: usize,
        ef: usize,
        points_scorer: &FilteredScorer<'_, R, C>,
    ) -> (found: Result<Vec<ScoredPointOffset>, OperationError>)
        requires
            self.wf(),
        ensures
            found is Err <==> !self.search_is_empty(top, ef) && !self.covered_by(points_scorer),
            found matches Err(error) ==> error == (OperationError::ScorerTooSmall {
                scorer_points: points_scorer.raw_scorer.point_count(),
                graph_points: self@.num_points() as usize,
            }),
            found matches Ok(points) ==> {
                &&& points@ == search(self@, points_scorer.query_model(), top as nat, ef as nat)
                &&& points@.len() <= top
                &&& is_ranked(points@)
                &&& distinct_points(points@)
                &&& forall|i: int|
                    0 <= i < points@.len() ==> {
                        let point = #[trigger] points@[i];
                        &&& self@.present(point.idx, 0)
                        &&& points_scorer.accepts(point.idx)
                        &&& point.score == points_scorer.raw_scorer.query_score(point.idx)
                    }
            },
            self.search_is_empty(top, ef) ==> (found matches Ok(points) && points@.len() == 0),
            found matches Ok(points) ==> (match self@.entry {
                Some(entry) => top > 0 && ef > 0 && points_scorer.accepts(entry.point_id) ==> {
                    &&& points@.len() > 0
                    &&& points@[0].score >= points_scorer.raw_scorer.query_score(entry.point_id)
                },
                None => true,
            }),
    {
        if top == 0 || ef == 0 {
            return Ok(Vec::new());
        }
        let entry_point = match self.entry_point {
            None => {
                return Ok(Vec::new());
            },
            Some(entry_point) => entry_point,
        };
        let scorer_points: usize = points_scorer.raw_scorer.num_points();
        if scorer_points < self.links_layers.len() {
            return Err(
                OperationError::ScorerTooSmall {
                    scorer_points,
                    graph_points: self.links_layers.len(),
                },
            );
        }
        let zero_level_entry = self.search_entry(
            entry_point.point_id,
            entry_point.level,
            0,
            points_scorer,
        );
        let width: usize = if ef >= top {
            ef
        } else {
            top
        };
        let mut nearest = self.search_on_level(zero_level_entry, 0, width, points_scorer);
        proof {
            assert(width == beam_width(top as nat, ef as nat));
        }
        if nearest.len() > top {
            nearest.truncate(top);
        }
        Ok(nearest)
    }

    /// Lets each of `selected`, in order, take `point_id` among its
    /// neighbours on `level`. A list with room takes the point in; a full
    /// list is selected anew from its points and the new one.
    fn connect_selected<R: RawScorer, C: ConditionChecker>(
        &mut self,
        point_id: PointOffsetType,
        level: usize,
        selected: &Vec<PointOffsetType>,
        points_scorer: &FilteredScorer<'_, R, C>,
    )
        requires
            old(self)@.structure_wf(),
            old(self).covered_by(points_scorer),
            old(self)@.present(point_id, level as nat),
            forall|i: int|
                0 <= i < selected@.len() ==> old(self)@.present(
                    #[trigger] selected@[i],
                    level as nat,
                ),
        ensures
            final(self)@ == connect_back(
                old(self)@,
                points_scorer.model(),
                point_id,
                level as nat,
                selected@,
            ),
            final(self)@.structure_wf(),
            final(self)@.same_frame(old(self)@),
    {
        let ghost scoring = points_scorer.model();
        let level_m: usize = self.get_m(level);
        let mut i: usize = 0;
        proof {
            assert(selected@.skip(0) =~= selected@);
        }
        while i < selected.len()
            invariant
                i <= selected@.len(),
                scoring == points_scorer.model(),
                level_m == self@.degree_bound(level as nat),
                self@.structure_wf(),
                self@.same_frame(old(self)@),
                old(self).covered_by(points_scorer),
                old(self)@.present(point_id, level as nat),
                forall|k: int|
                    0 <= k < selected@.len() ==> old(self)@.present(
                        #[trigger] selected@[k],
                        level as nat,
                    ),
                connect_back(old(self)@, scoring, point_id, level as nat, selected@)
                    == connect_back(
                    self@,
                    scoring,
                    point_id,
                    level as nat,
                    selected@.skip(i as int),
                ),
            decreases selected@.len() - i,
        {
            let other_point: PointOffsetType = selected[i];
            let ghost graph = self@;
            proof {
                assert(old(self)@.present(selected@[i as int], level as nat));
                assert(graph.present(other_point, level as nat));
                assert(graph.present(point_id, level as nat));
                assert(graph.node_ok(other_point as int, level as int));
                lemma_back_links(graph, scoring, point_id, level as nat, other_point);
                assert(selected@.skip(i as int).drop_first() =~= selected@.skip(i + 1));
            }
            if self.links_layers[other_point as usize][level].len() < level_m {
                self.links_layers[other_point as usize][level].push(point_id);
            } else {
                let mut candidates = self.links_layers[other_point as usize][level].clone();
                candidates.push(point_id);
                proof {
                    assert(candidates@ =~= graph.neighbors(other_point, level as nat).push(
                        point_id,
                    ));
                    let known = |p: PointOffsetType| p < points_scorer.raw_scorer.point_count();
                    assert forall|k: int| 0 <= k < candidates@.len() implies known(
                        #[trigger] candidates@[k],
                    ) by {
                        if k < candidates@.len() - 1 {
                            assert(graph.present(
                                graph.neighbors(other_point, level as nat)[k],
                                level as nat,
                            ));
                        }
                    }
                    lemma_ranked_neighbors(scoring, other_point, candidates@, known);
                }
                let ranked = rank_neighbors(other_point, &candidates, points_scorer);
                let retained = select_from_ranked(
                    &ranked,
                    level_m,
                    self.use_heuristic,
                    points_scorer,
                );
                self.links_layers[other_point as usize][level] = retained;
            }
            proof {
                let list = back_links(graph, scoring, point_id, level as nat, other_point);
                assert(self@.links =~~= graph.with_neighbors(other_point, level as nat, list).links);
                assert(self@ == graph.with_neighbors(other_point, level as nat, list));
                lemma_with_neighbors(graph, other_point, level as nat, list);
            }
            i = i + 1;
        }
    }

    /// Links `point_id` on `level`: searches the layer from `entry`, selects
    /// the neighbours of the point, and connects each of them back. Returns
    /// where the search of the next layer starts.
    fn link_on_level<R: RawScorer, C: ConditionChecker>(
        &mut self,
        point_id: PointOffsetType,
        level: usize,
        entry: ScoredPointOffset,
        points_scorer: &FilteredScorer<'_, R, C>,
    ) -> (next: ScoredPointOffset)
        requires
            old(self)@.structure_wf(),
            old(self).covered_by(points_scorer),
            old(self)@.present(point_id, level as nat),
            old(self)@.present(entry.idx, level as nat),
            entry.score == points_scorer.raw_scorer.query_score(entry.idx),
        ensures
            final(self)@ == link_level(
                old(self)@,
                points_scorer.model(),
                point_id,
                level as nat,
                entry,
            ).0,
            next == link_level(old(self)@, points_scorer.model(), point_id, level as nat, entry).1,
            final(self)@.structure_wf(),
            final(self)@.same_frame(old(self)@),
            final(self)@.present(next.idx, level as nat),
            next.score == points_scorer.raw_scorer.query_score(next.idx),
    {
        let ghost scoring = points_scorer.model();
        let ghost graph = self@;
        let level_m: usize = self.get_m(level);
        let nearest_points = self.search_on_level(entry, level, self.ef_construct, points_scorer);
        proof {
            let on_level = |p: PointOffsetType| graph.present(p, level as nat);
            assert forall|k: int| 0 <= k < nearest_points@.len() implies on_level(
                (#[trigger] nearest_points@[k]).idx,
            ) by {}
            lemma_select_neighbors(
                scoring,
                nearest_points@,
                level_m as nat,
                graph.use_heuristic,
                on_level,
            );
        }
        let selected_nearest = select_from_ranked(
            &nearest_points,
            level_m,
            self.use_heuristic,
            points_scorer,
        );
        self.links_layers[point_id as usize][level] = selected_nearest.clone();
        proof {
            assert(self@.links =~~= graph.with_neighbors(
                point_id,
                level as nat,
                selected_nearest@,
            ).links);
            assert(self@ == graph.with_neighbors(point_id, level as nat, selected_nearest@));
            lemma_with_neighbors(graph, point_id, level as nat, selected_nearest@);
        }
        self.connect_selected(point_id, level, &selected_nearest, points_scorer);
        if nearest_points.len() > 0 {
            nearest_points[0]
        } else {
            entry
        }
    }

    /// Links `point_id` on `top` and on every layer below it, starting the
    /// search of the first layer at `entry`.
    fn link_on_levels<R: RawScorer, C: ConditionChecker>(
        &mut self,
        point_id: PointOffsetType,
        top: usize,
        entry: ScoredPointOffset,
        points_scorer: &FilteredScorer<'_, R, C>,
    )
        requires
            old(self)@.structure_wf(),
            old(self).covered_by(points_scorer),
            old(self)@.present(point_id, top as nat),
            old(self)@.present(entry.idx, top as nat),
            entry.score == points_scorer.raw_scorer.query_score(entry.idx),
        ensures
            final(self)@ == link_levels(
                old(self)@,
                points_scorer.model(),
                point_id,
                top as nat,
                entry,
            ),
            final(self)@.structure_wf(),
            final(self)@.same_frame(old(self)@),
    {
        let ghost scoring = points_scorer.model();
        let mut curr_level: usize = top;
        let mut level_entry = entry;
        let mut done = false;
        while !done
            invariant
                scoring == points_scorer.model(),
                curr_level <= top,
                self@.structure_wf(),
                self@.same_frame(old(self)@),
                old(self).covered_by(points_scorer),
                old(self)@.present(point_id, top as nat),
                !done ==> self@.present(level_entry.idx, curr_level as nat),
                !done ==> level_entry.score == points_scorer.raw_scorer.query_score(
                    level_entry.idx,
                ),
                link_levels(old(self)@, scoring, point_id, top as nat, entry) == (if done {
                    self@
                } else {
                    link_levels(self@, scoring, point_id, curr_level as nat, level_entry)
                }),
            decreases
                    curr_level + (if done {
                        0int
                    } else {
                        1int
                    }),
        {
            level_entry = self.link_on_level(point_id, curr_level, level_entry, points_scorer);
            if curr_level == 0 {
                done = true;
            } else {
                curr_level = curr_level - 1;
            }
        }
    }

    /// Why linking `point_id` on the layers up to `level` is refused, if it
    /// is: the point has no slot in the graph, the level is above the highest
    /// layer, the point is linked already, or the scorer knows fewer points
    /// than the graph has slots for.
    pub open spec fn link_refusal(
        &self,
        point_id: PointOffsetType,
        level: usize,
        scorer_points: usize,
    ) -> Option<OperationError> {
        if point_id >= self@.num_points() {
            Some(OperationError::PointOutOfRange { offset: point_id })
        } else if level > self@.max_level {
            Some(OperationError::LevelOutOfRange { level, max_level: self@.max_level as usize })
        } else if self@.layer_count(point_id) > 0 {
            Some(OperationError::PointAlreadyLinked { offset: point_id })
        } else if scorer_points < self@.num_points() {
            Some(
                OperationError::ScorerTooSmall {
                    scorer_points,
                    graph_points: self@.num_points() as usize,
                },
            )
        } else {
            None
        }
    }

    /// Links the point `point_id` into the graph on the layers `0 ..= level`.
    /// The scorer scores against the vector of the new point.
    ///
    /// The first point becomes the entry point. For any later point the
    /// greedy descent from the entry point gives the start of a search on
    /// each layer the point shares with the entry point, from the top down.
    /// From what the search finds the point's neighbours are selected, the
    /// best ones or, with the heuristic, diverse ones. Each neighbour takes
    /// the point among its own neighbours, selecting anew where its list is
    /// full. A point on a higher layer than the entry point becomes the entry
    /// point.
    ///
    /// A refused point leaves the graph as it was.
    pub fn link_new_point<R: RawScorer, C: ConditionChecker>(
        &mut self,
        point_id: PointOffsetType,
        level: usize,
        points_scorer: &FilteredScorer<'_, R, C>,
    ) -> (outcome: Result<(), OperationError>)
        requires
            old(self).wf(),
        ensures
            final(self).wf(),
            match old(self).link_refusal(point_id, level, points_scorer.raw_scorer.point_count()) {
                Some(error) => outcome == Err::<(), OperationError>(error) && final(self)@ == old(
                    self,
                )@,
                None => {
                    &&& outcome is Ok
                    &&& final(self)@ == linked(
                        old(self)@,
                        points_scorer.model(),
                        point_id,
                        level as nat,
                    )
                    &&& final(self)@.num_points() == old(self)@.num_points()
                    &&& final(self)@.layer_count(point_id) == level + 1
                    &&& forall|other: PointOffsetType|
                        other != point_id ==> #[trigger] final(self)@.layer_count(other) == old(
                            self,
                        )@.layer_count(other)
                    &&& final(self)@.entry == (match old(self)@.entry {
                        Some(entry) if level <= entry.level => Some(entry),
                        _ => Some(EntryPoint { point_id, level }),
                    })
                },
            },
            final(self)@.m == old(self)@.m,
            final(self)@.m0 == old(self)@.m0,
            final(self)@.ef_construct == old(self)@.ef_construct,
            final(self)@.max_level == old(self)@.max_level,
            final(self)@.use_heuristic == old(self)@.use_heuristic,
    {
        let ghost scoring = points_scorer.model();
        let ghost before = self@;
        if point_id as usize >= self.links_layers.len() {
            return Err(OperationError::PointOutOfRange { offset: point_id });
        }
        if level > self.max_level {
            return Err(OperationError::LevelOutOfRange { level, max_level: self.max_level });
        }
        if self.links_layers[point_id as usize].len() > 0 {
            return Err(OperationError::PointAlreadyLinked { offset: point_id });
        }
        let scorer_points: usize = points_scorer.raw_scorer.num_points();
        if scorer_points < self.links_layers.len() {
            return Err(
                OperationError::ScorerTooSmall {
                    scorer_points,
                    graph_points: self.links_layers.len(),
                },
            );
        }
        let mut layers: Vec<Vec<PointOffsetType>> = Vec::new();
        let mut i: usize = 0;
        while i <= level
            invariant
                i <= level + 1,
                level < usize::MAX,
                layers@.len() == i,
                forall|k: int| 0 <= k < i ==> (#[trigger] layers@[k])@.len() == 0,
            decreases level + 1 - i,
        {
            layers.push(Vec::new());
            i = i + 1;
        }
        self.links_layers[point_id as usize] = layers;
        let ghost prepared = before.with_layers(point_id, (level + 1) as nat);
        proof {
            assert(self@.links =~~= prepared.links);
            assert(self@ == prepared);
            lemma_with_layers(before, point_id, (level + 1) as nat);
        }
        let own = EntryPoint { point_id, level };
        match self.entry_point {
            None => {
                self.entry_point = Some(own);
                proof {
                    assert(self@ == prepared.with_entry(own));
                    lemma_with_entry(prepared, own);
                    assert forall|point: int| 0 <= point < self@.links.len() implies (
                    #[trigger] self@.links[point]).len() <= level + 1 by {
                        if point != point_id {
                            assert(before.links[point].len() == 0);
                        }
                    }
                }
            },
            Some(entry_point) => {
                proof {
                    assert(before.links[entry_point.point_id as int].len() == entry_point.level + 1);
                    assert(prepared.present(entry_point.point_id, entry_point.level as nat));
                }
                let start = self.search_entry(
                    entry_point.point_id,
                    entry_point.level,
                    level,
                    points_scorer,
                );
                let shared: usize = if level <= entry_point.level {
                    level
                } else {
                    entry_point.level
                };
                self.link_on_levels(point_id, shared, start, points_scorer);
                let ghost done = self@;
                if level > entry_point.level {
                    self.entry_point = Some(own);
                    proof {
                        assert(self@ == done.with_entry(own));
                        lemma_with_entry(done, own);
                    }
                }
                proof {
                    assert forall|point: int| 0 <= point < self@.links.len() implies (
                    #[trigger] self@.links[point]).len() <= (if level > entry_point.level {
                        level + 1
                    } else {
                        entry_point.level + 1
                    }) by {
                        assert(self@.links[point].len() == prepared.links[point].len());
                        if point != point_id {
                            assert(prepared.links[point] == before.links[point]);
                            assert(before.links[point].len() <= entry_point.level + 1);
                        }
                    }
                    assert(self@.links[entry_point.point_id as int].len()
                        == prepared.links[entry_point.point_id as int].len());
                    assert(self@.links[point_id as int].len() == prepared.links[point_id as int].len());
                }
            },
        }
        Ok(())
    }

    /// Draws the level of a new point. Each level is reached from the one
    /// below with probability `1 / m`; the level is never above the highest
    /// layer of the graph.
    pub fn get_random_layer(&self, rng: &mut rand::rngs::StdRng) -> (level: usize)
        ensures
            level <= self@.max_level,
            exists|sample: u64|
                level == #[trigger] level_of_sample(sample as nat, self@.m, self@.max_level),
    {
        let sample: u64 = next_sample(rng);
        self.level_for_sample(sample)
    }
}

} // verus!
