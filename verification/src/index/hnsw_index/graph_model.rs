//! The layered graph as a mathematical value, and what searching it and
//! linking a point into it mean.

use vstd::prelude::*;
use crate::common::fixed_length_priority_queue::{
    insert_position, lemma_insert_position, ranked_insert,
};
use crate::index::hnsw_index::point_scorer::{QueryModel, ScoringModel};
use crate::index::hnsw_index::search_context::ContextModel;
use crate::types::{PointOffsetType, ScoredPointOffset};
use crate::vector_storage::lemma_scan_scores_content;

verus! {

/// Where every search starts: a point on the highest populated layer.
#[derive(Clone, Copy, Debug, PartialEq, Eq, Structural)]
pub struct EntryPoint {
    pub point_id: PointOffsetType,
    pub level: usize,
}

/// The graph: its parameters, the neighbour lists of every point on every
/// layer it is present on, and the entry point.
pub struct GraphModel {
    /// Degree bound of the layers above layer 0.
    pub m: nat,
    /// Degree bound of layer 0.
    pub m0: nat,
    /// Beam width used while linking a point.
    pub ef_construct: nat,
    /// The highest layer a point may be on.
    pub max_level: nat,
    /// Whether neighbours are selected for diversity.
    pub use_heuristic: bool,
    /// `links[p][l]` lists the neighbours of point `p` on layer `l`. A point
    /// is present on the layers `0 .. links[p].len()`, so on none before it
    /// is linked.
    pub links: Seq<Seq<Seq<PointOffsetType>>>,
    /// The entry point, once a point is linked.
    pub entry: Option<EntryPoint>,
}

impl GraphModel {
    /// Number of slots for points.
    pub open spec fn num_points(self) -> nat {
        self.links.len()
    }

    /// Number of layers that `point` is present on.
    pub open spec fn layer_count(self, point: PointOffsetType) -> nat {
        if point < self.links.len() {
            self.links[point as int].len()
        } else {
            0
        }
    }

    /// Whether `point` is present on layer `level`.
    pub open spec fn present(self, point: PointOffsetType, level: nat) -> bool {
        level < self.layer_count(point)
    }

    /// The neighbours of `point` on layer `level`.
    pub open spec fn neighbors(self, point: PointOffsetType, level: nat) -> Seq<PointOffsetType> {
        self.links[point as int][level as int]
    }

    /// The most neighbours a point may have on layer `level`.
    pub open spec fn degree_bound(self, level: nat) -> nat {
        if level == 0 {
            self.m0
        } else {
            self.m
        }
    }

    /// The neighbour list of slot `point` on layer `level` respects the degree
    /// bound and names only points that are present on that layer.
    pub open spec fn node_ok(self, point: int, level: int) -> bool {
        let list = self.links[point][level];
        &&& list.len() <= self.degree_bound(level as nat)
        &&& forall|i: int| 0 <= i < list.len() ==> self.present(#[trigger] list[i], level as nat)
    }

    /// Every neighbour list respects the degree bound of its layer and names
    /// only points of its layer, and no point is above the highest layer.
    pub open spec fn structure_wf(self) -> bool {
        &&& forall|point: int, level: int|
            0 <= point < self.links.len() && 0 <= level < self.links[point].len()
                ==> #[trigger] self.node_ok(point, level)
        &&& forall|point: int|
            0 <= point < self.links.len() ==> (#[trigger] self.links[point]).len()
                <= self.max_level + 1
    }

    /// The entry point is a point of the highest populated layer; there is
    /// none exactly as long as no point is linked.
    pub open spec fn entry_wf(self) -> bool {
        match self.entry {
            None => forall|point: int|
                0 <= point < self.links.len() ==> (#[trigger] self.links[point]).len() == 0,
            Some(entry) => {
                &&& entry.point_id < self.links.len()
                &&& self.links[entry.point_id as int].len() == entry.level + 1
                &&& forall|point: int|
                    0 <= point < self.links.len() ==> (#[trigger] self.links[point]).len()
                        <= entry.level + 1
            },
        }
    }

    /// The invariant of the graph.
    pub open spec fn wf(self) -> bool {
        self.structure_wf() && self.entry_wf()
    }

    /// The two graphs have the same parameters and entry point, and every
    /// point is present on the same layers in both.
    pub open spec fn same_frame(self, other: GraphModel) -> bool {
        &&& self.m == other.m
        &&& self.m0 == other.m0
        &&& self.ef_construct == other.ef_construct
        &&& self.max_level == other.max_level
        &&& self.use_heuristic == other.use_heuristic
        &&& self.entry == other.entry
        &&& self.links.len() == other.links.len()
        &&& forall|point: int|
            0 <= point < self.links.len() ==> (#[trigger] self.links[point]).len()
                == other.links[point].len()
    }

    /// The graph with the layers of `point` set to `count` empty lists.
    pub open spec fn with_layers(self, point: PointOffsetType, count: nat) -> GraphModel {
        GraphModel {
            links: self.links.update(
                point as int,
                Seq::new(count, |level: int| Seq::<PointOffsetType>::empty()),
            ),
            ..self
        }
    }

    /// The graph with the neighbours of `point` on `level` replaced.
    pub open spec fn with_neighbors(
        self,
        point: PointOffsetType,
        level: nat,
        list: Seq<PointOffsetType>,
    ) -> GraphModel {
        GraphModel {
            links: self.links.update(
                point as int,
                self.links[point as int].update(level as int, list),
            ),
            ..self
        }
    }

    /// The graph with another entry point.
    pub open spec fn with_entry(self, entry: EntryPoint) -> GraphModel {
        GraphModel { entry: Some(entry), ..self }
    }
}

/// Layer containment: a point that is present on a layer is present on every
/// layer below it.
pub proof fn lemma_layer_containment(
    graph: GraphModel,
    point: PointOffsetType,
    level: nat,
    below: nat,
)
    requires
        graph.present(point, level),
        below <= level,
    ensures
        graph.present(point, below),
{
}

/// Degree bound: in a graph that keeps its invariant no neighbour list is
/// longer than the bound of its layer, which is `m0` on layer 0 and `m` on
/// every layer above.
pub proof fn lemma_degree_bound(graph: GraphModel, point: PointOffsetType, level: nat)
    requires
        graph.wf(),
        graph.present(point, level),
    ensures
        graph.neighbors(point, level).len() <= graph.degree_bound(level),
        graph.degree_bound(level) == (if level == 0 {
            graph.m0
        } else {
            graph.m
        }),
{
    assert(graph.node_ok(point as int, level as int));
}

/// In a graph that keeps its invariant every neighbour of a point on a layer
/// is itself a point of that layer.
pub proof fn lemma_neighbors_present(
    graph: GraphModel,
    point: PointOffsetType,
    level: nat,
    i: int,
)
    requires
        graph.wf(),
        graph.present(point, level),
        0 <= i < graph.neighbors(point, level).len(),
    ensures
        graph.present(graph.neighbors(point, level)[i], level),
{
    assert(graph.node_ok(point as int, level as int));
}

/// In a graph that keeps its invariant the entry point is on the highest
/// populated layer, and there is one as soon as a point is linked.
pub proof fn lemma_entry_point_is_highest(graph: GraphModel, point: PointOffsetType, level: nat)
    requires
        graph.wf(),
        graph.present(point, level),
    ensures
        graph.entry matches Some(entry) && level <= entry.level && graph.layer_count(
            entry.point_id,
        ) == entry.level + 1,
{
    assert(graph.links[point as int].len() > level);
}

/// The better of `current` and the points of `scored`: the first point that
/// beats all before it and is beaten by none after it.
pub open spec fn best_of(scored: Seq<ScoredPointOffset>, current: ScoredPointOffset) -> ScoredPointOffset
    decreases scored.len(),
{
    if scored.len() == 0 {
        current
    } else if scored[0].score > current.score {
        best_of(scored.drop_first(), scored[0])
    } else {
        best_of(scored.drop_first(), current)
    }
}

/// The best point is `current` itself, or a point of `scored` that scores
/// strictly higher.
pub proof fn lemma_best_of(scored: Seq<ScoredPointOffset>, current: ScoredPointOffset)
    ensures
        best_of(scored, current) == current || (scored.contains(best_of(scored, current))
            && best_of(scored, current).score > current.score),
    decreases scored.len(),
{
    if scored.len() > 0 {
        let rest = scored.drop_first();
        let start = if scored[0].score > current.score {
            scored[0]
        } else {
            current
        };
        lemma_best_of(rest, start);
        let best = best_of(rest, start);
        if rest.contains(best) {
            let j = choose|j: int| 0 <= j < rest.len() && rest[j] == best;
            assert(scored[j + 1] == best);
        }
        if best == scored[0] {
            assert(scored.contains(best));
        }
    }
}

/// The best point scores no lower than `current` or any point of `scored`.
pub proof fn lemma_best_of_dominates(scored: Seq<ScoredPointOffset>, current: ScoredPointOffset)
    ensures
        best_of(scored, current).score >= current.score,
        forall|i: int|
            0 <= i < scored.len() ==> best_of(scored, current).score >= (#[trigger] scored[i]).score,
    decreases scored.len(),
{
    if scored.len() > 0 {
        let rest = scored.drop_first();
        let start = if scored[0].score > current.score {
            scored[0]
        } else {
            current
        };
        lemma_best_of_dominates(rest, start);
        assert forall|i: int| 0 <= i < scored.len() implies best_of(scored, current).score >= (
        #[trigger] scored[i]).score by {
            if i > 0 {
                assert(scored[i] == rest[i - 1]);
            }
        }
    }
}

/// One greedy walk on `level`: score the candidates among the neighbours of
/// the current point, move to the best of them if it beats the current point,
/// and repeat until none does.
pub open spec fn descend_level(
    graph: GraphModel,
    query: QueryModel,
    level: nat,
    current: ScoredPointOffset,
) -> ScoredPointOffset
    decreases i64::MAX - current.score,
{
    let next = best_of(
        query.scored(graph.neighbors(current.idx, level), graph.degree_bound(level)),
        current,
    );
    if next.score > current.score {
        descend_level(graph, query, level, next)
    } else {
        current
    }
}

/// The greedy descent: one walk on each layer from `from_level` down to the
/// layer above `to_level`. Where `from_level` is not above `to_level`, nothing
/// moves.
pub open spec fn descend(
    graph: GraphModel,
    query: QueryModel,
    from_level: nat,
    to_level: nat,
    current: ScoredPointOffset,
) -> ScoredPointOffset
    decreases from_level,
{
    if from_level <= to_level {
        current
    } else {
        descend(
            graph,
            query,
            (from_level - 1) as nat,
            to_level,
            descend_level(graph, query, from_level, current),
        )
    }
}

/// Number of points not yet visited.
pub open spec fn unvisited_count(visited: Seq<bool>) -> nat
    decreases visited.len(),
{
    if visited.len() == 0 {
        0
    } else if visited.last() {
        unvisited_count(visited.drop_last())
    } else {
        1 + unvisited_count(visited.drop_last())
    }
}

/// Visiting a point that was not visited leaves one point less to visit.
pub proof fn lemma_visit(visited: Seq<bool>, point: int)
    requires
        0 <= point < visited.len(),
        !visited[point],
    ensures
        unvisited_count(visited.update(point, true)) + 1 == unvisited_count(visited),
    decreases visited.len(),
{
    let after = visited.update(point, true);
    if point == visited.len() - 1 {
        assert(after.drop_last() =~= visited.drop_last());
    } else {
        assert(after.drop_last() =~= visited.drop_last().update(point, true));
        lemma_visit(visited.drop_last(), point);
    }
}

/// The points among `links` that were not visited, in order and each once,
/// together with the visited flags after all of them are marked.
pub open spec fn mark_unvisited(links: Seq<PointOffsetType>, visited: Seq<bool>) -> (
    Seq<PointOffsetType>,
    Seq<bool>,
)
    decreases links.len(),
{
    if links.len() == 0 {
        (Seq::empty(), visited)
    } else if links[0] < visited.len() && !visited[links[0] as int] {
        let rest = mark_unvisited(links.drop_first(), visited.update(links[0] as int, true));
        (seq![links[0]] + rest.0, rest.1)
    } else {
        mark_unvisited(links.drop_first(), visited)
    }
}

/// Marking keeps the number of flags; every point it yields is one of `links`
/// and is no longer among the unvisited.
pub proof fn lemma_mark_unvisited(links: Seq<PointOffsetType>, visited: Seq<bool>)
    ensures
        mark_unvisited(links, visited).1.len() == visited.len(),
        unvisited_count(mark_unvisited(links, visited).1) + mark_unvisited(links, visited).0.len()
            == unvisited_count(visited),
        forall|i: int|
            0 <= i < mark_unvisited(links, visited).0.len() ==> links.contains(
                #[trigger] mark_unvisited(links, visited).0[i],
            ),
    decreases links.len(),
{
    if links.len() > 0 {
        let rest_links = links.drop_first();
        let fresh = mark_unvisited(links, visited).0;
        if links[0] < visited.len() && !visited[links[0] as int] {
            let marked = visited.update(links[0] as int, true);
            lemma_visit(visited, links[0] as int);
            lemma_mark_unvisited(rest_links, marked);
            let rest = mark_unvisited(rest_links, marked);
            assert forall|i: int| 0 <= i < fresh.len() implies links.contains(#[trigger] fresh[i]) by {
                if i == 0 {
                    assert(links[0] == fresh[0]);
                } else {
                    assert(fresh[i] == rest.0[i - 1]);
                    let j = choose|j: int| 0 <= j < rest_links.len() && rest_links[j] == rest.0[i - 1];
                    assert(links[j + 1] == fresh[i]);
                }
            }
        } else {
            lemma_mark_unvisited(rest_links, visited);
            assert forall|i: int| 0 <= i < fresh.len() implies links.contains(#[trigger] fresh[i]) by {
                let j = choose|j: int| 0 <= j < rest_links.len() && rest_links[j] == fresh[i];
                assert(links[j + 1] == fresh[i]);
            }
        }
    }
}

/// Marking yields each point once, and only points that were not marked
/// before; it marks them, and leaves every mark that was there.
pub proof fn lemma_mark_unvisited_fresh(links: Seq<PointOffsetType>, visited: Seq<bool>)
    ensures
        mark_unvisited(links, visited).0.no_duplicates(),
        forall|i: int|
            0 <= i < mark_unvisited(links, visited).0.len() ==> {
                let point = #[trigger] mark_unvisited(links, visited).0[i];
                &&& point < visited.len()
                &&& !visited[point as int]
                &&& mark_unvisited(links, visited).1[point as int]
            },
        forall|point: int|
            0 <= point < visited.len() && visited[point] ==> #[trigger] mark_unvisited(
                links,
                visited,
            ).1[point],
    decreases links.len(),
{
    lemma_mark_unvisited(links, visited);
    if links.len() > 0 {
        let rest_links = links.drop_first();
        let fresh = mark_unvisited(links, visited).0;
        let after = mark_unvisited(links, visited).1;
        if links[0] < visited.len() && !visited[links[0] as int] {
            let marked = visited.update(links[0] as int, true);
            lemma_mark_unvisited_fresh(rest_links, marked);
            lemma_mark_unvisited(rest_links, marked);
            let rest = mark_unvisited(rest_links, marked);
            assert(after[links[0] as int]);
            assert forall|i: int| 0 <= i < fresh.len() implies {
                let point = #[trigger] fresh[i];
                &&& point < visited.len()
                &&& !visited[point as int]
                &&& after[point as int]
            } by {
                if i > 0 {
                    assert(fresh[i] == rest.0[i - 1]);
                }
            }
            assert forall|i: int, j: int| 0 <= i < j < fresh.len() implies fresh[i] != fresh[j] by {
                assert(fresh[j] == rest.0[j - 1]);
                if i > 0 {
                    assert(fresh[i] == rest.0[i - 1]);
                }
            }
        } else {
            lemma_mark_unvisited_fresh(rest_links, visited);
        }
    }
}

/// The state of a best-first search on one layer.
pub struct BeamState {
    /// Which points have been seen.
    pub visited: Seq<bool>,
    /// The results and the frontier.
    pub context: ContextModel,
}

/// The state a search on one layer starts in: only the entry point is seen;
/// it is to be expanded, and is a result if the query accepts it.
pub open spec fn beam_start(
    graph: GraphModel,
    query: QueryModel,
    entry: ScoredPointOffset,
    ef: nat,
) -> BeamState {
    BeamState {
        visited: Seq::new(graph.num_points(), |point: int| false).update(entry.idx as int, true),
        context: ContextModel::start(entry, ef, (query.accept)(entry.idx)),
    }
}

/// Whether the search goes on: there is a point to expand, and it scores no
/// lower than the worst result held.
pub open spec fn beam_continues(state: BeamState) -> bool {
    state.context.candidates.len() > 0 && state.context.candidates[0].score
        >= state.context.lower_bound()
}

/// One step of the search: take the best point of the frontier, mark those of
/// its neighbours that are new, score the candidates among them, and offer
/// each to the context.
pub open spec fn beam_step(
    graph: GraphModel,
    query: QueryModel,
    level: nat,
    state: BeamState,
) -> BeamState {
    let candidate = state.context.candidates[0];
    let marked = mark_unvisited(graph.neighbors(candidate.idx, level), state.visited);
    let scored = query.scored(marked.0, graph.degree_bound(level));
    BeamState {
        visited: marked.1,
        context: ContextModel {
            candidates: state.context.candidates.drop_first(),
            ..state.context
        }.process_all(scored),
    }
}

/// How far a search is from its end: every step takes a point off the
/// frontier and puts no more points on it than it marks as seen.
pub open spec fn beam_measure(state: BeamState) -> nat {
    unvisited_count(state.visited) + state.context.candidates.len()
}

/// The frontier grows with each offer by one point at most.
pub proof fn lemma_frontier_growth(context: ContextModel, scored: Seq<ScoredPointOffset>)
    ensures
        context.process_all(scored).candidates.len() <= context.candidates.len() + scored.len(),
    decreases scored.len(),
{
    if scored.len() > 0 {
        lemma_insert_position(context.candidates, scored[0]);
        lemma_frontier_growth(context.process(scored[0]), scored.drop_first());
    }
}

/// A step brings the search nearer to its end.
pub proof fn lemma_beam_step_decreases(
    graph: GraphModel,
    query: QueryModel,
    level: nat,
    state: BeamState,
)
    requires
        state.context.candidates.len() > 0,
    ensures
        beam_measure(beam_step(graph, query, level, state)) < beam_measure(state),
{
    let candidate = state.context.candidates[0];
    let links = graph.neighbors(candidate.idx, level);
    let marked = mark_unvisited(links, state.visited);
    let scored = query.scored(marked.0, graph.degree_bound(level));
    lemma_mark_unvisited(links, state.visited);
    lemma_scan_scores_content(query.accept, query.score, marked.0, graph.degree_bound(level));
    let popped = ContextModel {
        candidates: state.context.candidates.drop_first(),
        ..state.context
    };
    lemma_frontier_growth(popped, scored);
}

/// The search on one layer from `state` on: step while the search goes on.
pub open spec fn beam_search(
    graph: GraphModel,
    query: QueryModel,
    level: nat,
    state: BeamState,
) -> BeamState
    decreases beam_measure(state),
{
    if beam_continues(state) {
        proof {
            lemma_beam_step_decreases(graph, query, level, state);
        }
        beam_search(graph, query, level, beam_step(graph, query, level, state))
    } else {
        state
    }
}

/// The best points a search of beam width `ef` finds on `level` when it
/// starts at `entry`, best first.
pub open spec fn search_on_level(
    graph: GraphModel,
    query: QueryModel,
    entry: ScoredPointOffset,
    level: nat,
    ef: nat,
) -> Seq<ScoredPointOffset> {
    beam_search(graph, query, level, beam_start(graph, query, entry, ef)).context.nearest
}

/// The beam width of a search for `top` results with `ef` asked for.
pub open spec fn beam_width(top: nat, ef: nat) -> nat {
    if ef >= top {
        ef
    } else {
        top
    }
}

/// The result of a search: nothing where nothing is asked for or the graph is
/// empty; else the best `top` points of a best-first search on layer 0 that
/// starts where the greedy descent from the entry point ends.
pub open spec fn search(graph: GraphModel, query: QueryModel, top: nat, ef: nat) -> Seq<
    ScoredPointOffset,
> {
    match graph.entry {
        Some(entry) if top > 0 && ef > 0 => {
            let start = descend(
                graph,
                query,
                entry.level as nat,
                0,
                query.scored_point(entry.point_id),
            );
            let nearest = search_on_level(graph, query, start, 0, beam_width(top, ef));
            if nearest.len() > top {
                nearest.take(top as int)
            } else {
                nearest
            }
        },
        _ => Seq::empty(),
    }
}

/// Determinism: what a search returns is determined by the graph, by `top`
/// and `ef`, by which points the scorer accepts and by how it scores them
/// against the query. Two scorers that agree on all points give the same
/// results in the same order.
pub proof fn lemma_search_deterministic(
    graph: GraphModel,
    first: QueryModel,
    second: QueryModel,
    top: nat,
    ef: nat,
)
    requires
        forall|point: PointOffsetType|
            (#[trigger] (first.accept)(point)) == (second.accept)(point),
        forall|point: PointOffsetType| (#[trigger] (first.score)(point)) == (second.score)(point),
    ensures
        search(graph, first, top, ef) == search(graph, second, top, ef),
{
    assert(first.accept =~= second.accept);
    assert(first.score =~= second.score);
}

/// A search for nothing, with a beam of no width, or of a graph with no point
/// linked finds nothing.
pub proof fn lemma_search_of_nothing(graph: GraphModel, query: QueryModel, top: nat, ef: nat)
    requires
        top == 0 || ef == 0 || graph.entry is None,
    ensures
        search(graph, query, top, ef) == Seq::<ScoredPointOffset>::empty(),
{
}

/// Whether `candidate` adds diversity to `selected`: it is no nearer to any
/// selected point than it is to the point the selection is made for.
pub open spec fn is_diverse(
    scorer: ScoringModel,
    candidate: ScoredPointOffset,
    selected: Seq<PointOffsetType>,
) -> bool {
    forall|j: int|
        0 <= j < selected.len() ==> (scorer.pair)(candidate.idx, #[trigger] selected[j])
            <= candidate.score
}

/// Selection for diversity: walk `candidates` best first and admit each one
/// that adds diversity to those admitted before, until `m` are selected.
pub open spec fn select_with_heuristic(
    scorer: ScoringModel,
    candidates: Seq<ScoredPointOffset>,
    m: nat,
    selected: Seq<PointOffsetType>,
) -> Seq<PointOffsetType>
    decreases candidates.len(),
{
    if candidates.len() == 0 || selected.len() >= m {
        selected
    } else if is_diverse(scorer, candidates[0], selected) {
        select_with_heuristic(scorer, candidates.drop_first(), m, selected.push(candidates[0].idx))
    } else {
        select_with_heuristic(scorer, candidates.drop_first(), m, selected)
    }
}

/// Plain selection: the first `m` of `candidates`.
pub open spec fn select_plain(candidates: Seq<ScoredPointOffset>, m: nat) -> Seq<PointOffsetType> {
    Seq::new(
        if candidates.len() <= m {
            candidates.len()
        } else {
            m
        },
        |i: int| candidates[i].idx,
    )
}

/// The neighbours selected from `candidates`, which are ranked best first.
pub open spec fn select_neighbors(
    scorer: ScoringModel,
    candidates: Seq<ScoredPointOffset>,
    m: nat,
    use_heuristic: bool,
) -> Seq<PointOffsetType> {
    if use_heuristic {
        select_with_heuristic(scorer, candidates, m, Seq::empty())
    } else {
        select_plain(candidates, m)
    }
}

/// Selection for diversity admits only candidates, and never goes beyond `m`
/// points unless it started beyond.
pub proof fn lemma_select_with_heuristic(
    scorer: ScoringModel,
    candidates: Seq<ScoredPointOffset>,
    m: nat,
    selected: Seq<PointOffsetType>,
    property: spec_fn(PointOffsetType) -> bool,
)
    requires
        forall|i: int| 0 <= i < candidates.len() ==> property((#[trigger] candidates[i]).idx),
        forall|i: int| 0 <= i < selected.len() ==> property(#[trigger] selected[i]),
    ensures
        select_with_heuristic(scorer, candidates, m, selected).len() <= m || select_with_heuristic(
            scorer,
            candidates,
            m,
            selected,
        ).len() == selected.len(),
        forall|i: int|
            0 <= i < select_with_heuristic(scorer, candidates, m, selected).len() ==> property(
                #[trigger] select_with_heuristic(scorer, candidates, m, selected)[i],
            ),
    decreases candidates.len(),
{
    if candidates.len() != 0 && selected.len() < m {
        let rest = candidates.drop_first();
        assert forall|i: int| 0 <= i < rest.len() implies property((#[trigger] rest[i]).idx) by {
            assert(rest[i] == candidates[i + 1]);
        }
        if is_diverse(scorer, candidates[0], selected) {
            let grown = selected.push(candidates[0].idx);
            assert forall|i: int| 0 <= i < grown.len() implies property(#[trigger] grown[i]) by {
                if i < selected.len() {
                    assert(grown[i] == selected[i]);
                }
            }
            lemma_select_with_heuristic(scorer, rest, m, grown, property);
        } else {
            lemma_select_with_heuristic(scorer, rest, m, selected, property);
        }
    }
}

/// Selection for diversity only adds to what is selected already.
pub proof fn lemma_select_with_heuristic_extends(
    scorer: ScoringModel,
    candidates: Seq<ScoredPointOffset>,
    m: nat,
    selected: Seq<PointOffsetType>,
)
    ensures
        selected.len() <= select_with_heuristic(scorer, candidates, m, selected).len(),
        select_with_heuristic(scorer, candidates, m, selected).take(selected.len() as int)
            == selected,
    decreases candidates.len(),
{
    let result = select_with_heuristic(scorer, candidates, m, selected);
    if candidates.len() != 0 && selected.len() < m {
        let rest = candidates.drop_first();
        if is_diverse(scorer, candidates[0], selected) {
            let grown = selected.push(candidates[0].idx);
            lemma_select_with_heuristic_extends(scorer, rest, m, grown);
            assert(result.take(grown.len() as int).take(selected.len() as int) =~= result.take(
                selected.len() as int,
            ));
            assert(grown.take(selected.len() as int) =~= selected);
        } else {
            lemma_select_with_heuristic_extends(scorer, rest, m, selected);
        }
    } else {
        assert(result.take(selected.len() as int) =~= selected);
    }
}

/// Diversity of the selection: every point that selection for diversity
/// admits is a candidate that is no nearer to any point admitted before it
/// than to the point the selection is made for.
pub proof fn lemma_selected_are_diverse(
    scorer: ScoringModel,
    candidates: Seq<ScoredPointOffset>,
    m: nat,
    selected: Seq<PointOffsetType>,
    k: int,
)
    requires
        selected.len() <= k < select_with_heuristic(scorer, candidates, m, selected).len(),
    ensures
        exists|i: int|
            0 <= i < candidates.len() && (#[trigger] candidates[i]).idx == select_with_heuristic(
                scorer,
                candidates,
                m,
                selected,
            )[k] && is_diverse(
                scorer,
                candidates[i],
                select_with_heuristic(scorer, candidates, m, selected).take(k),
            ),
    decreases candidates.len(),
{
    let result = select_with_heuristic(scorer, candidates, m, selected);
    if candidates.len() != 0 && selected.len() < m {
        let rest = candidates.drop_first();
        if is_diverse(scorer, candidates[0], selected) {
            let grown = selected.push(candidates[0].idx);
            lemma_select_with_heuristic_extends(scorer, rest, m, grown);
            if k == selected.len() {
                assert(result.take(grown.len() as int)[k] == grown[k]);
                assert(result.take(k) =~= result.take(grown.len() as int).take(k));
                assert(grown.take(k) =~= selected);
                assert(candidates[0].idx == result[k] && is_diverse(
                    scorer,
                    candidates[0],
                    result.take(k),
                ));
            } else {
                lemma_selected_are_diverse(scorer, rest, m, grown, k);
                let i = choose|i: int|
                    0 <= i < rest.len() && (#[trigger] rest[i]).idx == result[k] && is_diverse(
                        scorer,
                        rest[i],
                        result.take(k),
                    );
                assert(candidates[i + 1] == rest[i]);
            }
        } else {
            lemma_selected_are_diverse(scorer, rest, m, selected, k);
            let i = choose|i: int|
                0 <= i < rest.len() && (#[trigger] rest[i]).idx == result[k] && is_diverse(
                    scorer,
                    rest[i],
                    result.take(k),
                );
            assert(candidates[i + 1] == rest[i]);
        }
    }
}

/// The points `points` with their scores against `target`, ranked best first.
pub open spec fn ranked_neighbors(
    scorer: ScoringModel,
    target: PointOffsetType,
    points: Seq<PointOffsetType>,
) -> Seq<ScoredPointOffset>
    decreases points.len(),
{
    if points.len() == 0 {
        Seq::empty()
    } else {
        ranked_insert(
            ranked_neighbors(scorer, target, points.drop_last()),
            ScoredPointOffset {
                idx: points.last(),
                score: (scorer.pair)(points.last(), target),
            },
        )
    }
}

/// Ranking keeps the points: as many as before, and no others.
pub proof fn lemma_ranked_neighbors(
    scorer: ScoringModel,
    target: PointOffsetType,
    points: Seq<PointOffsetType>,
    property: spec_fn(PointOffsetType) -> bool,
)
    requires
        forall|i: int| 0 <= i < points.len() ==> property(#[trigger] points[i]),
    ensures
        ranked_neighbors(scorer, target, points).len() == points.len(),
        forall|i: int|
            0 <= i < points.len() ==> property(
                (#[trigger] ranked_neighbors(scorer, target, points)[i]).idx,
            ),
    decreases points.len(),
{
    if points.len() > 0 {
        let earlier = points.drop_last();
        assert forall|i: int| 0 <= i < earlier.len() implies property(#[trigger] earlier[i]) by {
            assert(earlier[i] == points[i]);
        }
        lemma_ranked_neighbors(scorer, target, earlier, property);
        let ranked = ranked_neighbors(scorer, target, earlier);
        let value = ScoredPointOffset {
            idx: points.last(),
            score: (scorer.pair)(points.last(), target),
        };
        lemma_insert_position(ranked, value);
        let position = insert_position(ranked, value) as int;
        let all = ranked_neighbors(scorer, target, points);
        assert forall|i: int| 0 <= i < points.len() implies property((#[trigger] all[i]).idx) by {
            if i < position {
                assert(all[i] == ranked[i]);
            } else if i > position {
                assert(all[i] == ranked[i - 1]);
            } else {
                assert(all[i] == value);
            }
        }
    }
}

/// The neighbours that `other` keeps on `level` once `point` has chosen it: a
/// list with room takes the point in; a full list is selected anew from its
/// points and the new one, ranked by their score against `other`.
pub open spec fn back_links(
    graph: GraphModel,
    scorer: ScoringModel,
    point: PointOffsetType,
    level: nat,
    other: PointOffsetType,
) -> Seq<PointOffsetType> {
    let links = graph.neighbors(other, level);
    if links.len() < graph.degree_bound(level) {
        links.push(point)
    } else {
        select_neighbors(
            scorer,
            ranked_neighbors(scorer, other, links.push(point)),
            graph.degree_bound(level),
            graph.use_heuristic,
        )
    }
}

/// The graph after each of `selected`, in order, has taken `point` among its
/// neighbours on `level`.
pub open spec fn connect_back(
    graph: GraphModel,
    scorer: ScoringModel,
    point: PointOffsetType,
    level: nat,
    selected: Seq<PointOffsetType>,
) -> GraphModel
    decreases selected.len(),
{
    if selected.len() == 0 {
        graph
    } else {
        connect_back(
            graph.with_neighbors(
                selected[0],
                level,
                back_links(graph, scorer, point, level, selected[0]),
            ),
            scorer,
            point,
            level,
            selected.drop_first(),
        )
    }
}

/// Replacing a neighbour list by one that respects the degree bound and names
/// only points of the layer keeps every neighbour list valid and every point
/// on its layers.
pub proof fn lemma_with_neighbors(
    graph: GraphModel,
    point: PointOffsetType,
    level: nat,
    list: Seq<PointOffsetType>,
)
    requires
        graph.structure_wf(),
        graph.present(point, level),
        list.len() <= graph.degree_bound(level),
        forall|i: int| 0 <= i < list.len() ==> graph.present(#[trigger] list[i], level),
    ensures
        graph.with_neighbors(point, level, list).structure_wf(),
        graph.with_neighbors(point, level, list).same_frame(graph),
        graph.with_neighbors(point, level, list).neighbors(point, level) == list,
{
    let after = graph.with_neighbors(point, level, list);
    assert forall|p: int, l: int|
        0 <= p < after.links.len() && 0 <= l < after.links[p].len() implies #[trigger] after.node_ok(
        p,
        l,
    ) by {
        assert(graph.node_ok(p, l));
        let mine = after.links[p][l];
        assert forall|i: int| 0 <= i < mine.len() implies after.present(
            #[trigger] mine[i],
            l as nat,
        ) by {
            if p == point && l == level {
                assert(graph.present(list[i], level));
            } else {
                assert(mine == graph.links[p][l]);
                assert(graph.present(graph.links[p][l][i], l as nat));
            }
            assert(after.links[mine[i] as int].len() == graph.links[mine[i] as int].len());
        }
    }
    assert forall|p: int| 0 <= p < after.links.len() implies (#[trigger] after.links[p]).len()
        <= after.max_level + 1 by {
        assert(graph.links[p].len() <= graph.max_level + 1);
    }
}

/// Giving a point that is on no layer yet its layers, with no neighbours,
/// keeps every neighbour list valid.
pub proof fn lemma_with_layers(graph: GraphModel, point: PointOffsetType, count: nat)
    requires
        graph.structure_wf(),
        point < graph.links.len(),
        graph.layer_count(point) == 0,
        count <= graph.max_level + 1,
    ensures
        graph.with_layers(point, count).structure_wf(),
        graph.with_layers(point, count).links.len() == graph.links.len(),
        graph.with_layers(point, count).layer_count(point) == count,
        forall|other: int|
            0 <= other < graph.links.len() && other != point ==> (#[trigger] graph.with_layers(
                point,
                count,
            ).links[other]) == graph.links[other],
{
    let after = graph.with_layers(point, count);
    assert forall|p: int, l: int|
        0 <= p < after.links.len() && 0 <= l < after.links[p].len() implies #[trigger] after.node_ok(
        p,
        l,
    ) by {
        if p != point {
            assert(graph.node_ok(p, l));
            let mine = after.links[p][l];
            assert forall|i: int| 0 <= i < mine.len() implies after.present(
                #[trigger] mine[i],
                l as nat,
            ) by {
                assert(graph.present(graph.links[p][l][i], l as nat));
            }
        }
    }
    assert forall|p: int| 0 <= p < after.links.len() implies (#[trigger] after.links[p]).len()
        <= after.max_level + 1 by {
        if p != point {
            assert(graph.links[p].len() <= graph.max_level + 1);
        }
    }
}

/// Another entry point leaves the neighbour lists as valid as they were.
pub proof fn lemma_with_entry(graph: GraphModel, entry: EntryPoint)
    requires
        graph.structure_wf(),
    ensures
        graph.with_entry(entry).structure_wf(),
{
    let after = graph.with_entry(entry);
    assert forall|p: int, l: int|
        0 <= p < after.links.len() && 0 <= l < after.links[p].len() implies #[trigger] after.node_ok(
        p,
        l,
    ) by {
        assert(graph.node_ok(p, l));
        let mine = after.links[p][l];
        assert forall|i: int| 0 <= i < mine.len() implies after.present(
            #[trigger] mine[i],
            l as nat,
        ) by {
            assert(graph.present(graph.links[p][l][i], l as nat));
        }
    }
}

/// Selection keeps to the bound and selects only candidates.
pub proof fn lemma_select_neighbors(
    scorer: ScoringModel,
    candidates: Seq<ScoredPointOffset>,
    m: nat,
    use_heuristic: bool,
    property: spec_fn(PointOffsetType) -> bool,
)
    requires
        forall|i: int| 0 <= i < candidates.len() ==> property((#[trigger] candidates[i]).idx),
    ensures
        select_neighbors(scorer, candidates, m, use_heuristic).len() <= m,
        forall|i: int|
            0 <= i < select_neighbors(scorer, candidates, m, use_heuristic).len() ==> property(
                #[trigger] select_neighbors(scorer, candidates, m, use_heuristic)[i],
            ),
{
    if use_heuristic {
        lemma_select_with_heuristic(scorer, candidates, m, Seq::empty(), property);
    }
}

/// The list that a point's chosen neighbour keeps respects the degree bound
/// and names only points of the layer.
pub proof fn lemma_back_links(
    graph: GraphModel,
    scorer: ScoringModel,
    point: PointOffsetType,
    level: nat,
    other: PointOffsetType,
)
    requires
        graph.structure_wf(),
        graph.present(other, level),
        graph.present(point, level),
    ensures
        back_links(graph, scorer, point, level, other).len() <= graph.degree_bound(level),
        forall|i: int|
            0 <= i < back_links(graph, scorer, point, level, other).len() ==> graph.present(
                #[trigger] back_links(graph, scorer, point, level, other)[i],
                level,
            ),
{
    let links = graph.neighbors(other, level);
    let grown = links.push(point);
    let on_level = |p: PointOffsetType| graph.present(p, level);
    assert(graph.node_ok(other as int, level as int));
    assert forall|i: int| 0 <= i < grown.len() implies on_level(#[trigger] grown[i]) by {
        if i < links.len() {
            assert(grown[i] == links[i]);
        }
    }
    if links.len() >= graph.degree_bound(level) {
        lemma_ranked_neighbors(scorer, other, grown, on_level);
        lemma_select_neighbors(
            scorer,
            ranked_neighbors(scorer, other, grown),
            graph.degree_bound(level),
            graph.use_heuristic,
            on_level,
        );
    }
}

/// Linking `point` on one layer: search the layer from `entry`, select the
/// neighbours of the point from what the search finds, and connect each of
/// them back. The second component is where the search of the next layer
/// starts: the best point found, or `entry` again if none was.
pub open spec fn link_level(
    graph: GraphModel,
    scorer: ScoringModel,
    point: PointOffsetType,
    level: nat,
    entry: ScoredPointOffset,
) -> (GraphModel, ScoredPointOffset) {
    let nearest = search_on_level(graph, scorer.query, entry, level, graph.ef_construct);
    let selected = select_neighbors(
        scorer,
        nearest,
        graph.degree_bound(level),
        graph.use_heuristic,
    );
    (
        connect_back(graph.with_neighbors(point, level, selected), scorer, point, level, selected),
        if nearest.len() > 0 {
            nearest[0]
        } else {
            entry
        },
    )
}

/// Linking `point` on `level` and on every layer below it.
pub open spec fn link_levels(
    graph: GraphModel,
    scorer: ScoringModel,
    point: PointOffsetType,
    level: nat,
    entry: ScoredPointOffset,
) -> GraphModel
    decreases level,
{
    let linked = link_level(graph, scorer, point, level, entry);
    if level == 0 {
        linked.0
    } else {
        link_levels(linked.0, scorer, point, (level - 1) as nat, linked.1)
    }
}

/// The graph after `point` was linked in on the layers `0 ..= level`. The
/// first point becomes the entry point. Any later point is reached by the
/// greedy descent from the entry point down to its own top layer, linked on
/// each layer that it shares with the entry point, and becomes the entry
/// point if it is on a higher layer.
pub open spec fn linked(
    graph: GraphModel,
    scorer: ScoringModel,
    point: PointOffsetType,
    level: nat,
) -> GraphModel {
    let prepared = graph.with_layers(point, level + 1);
    let own = EntryPoint { point_id: point, level: level as usize };
    match graph.entry {
        None => prepared.with_entry(own),
        Some(entry) => {
            let start = descend(
                prepared,
                scorer.query,
                entry.level as nat,
                level,
                scorer.query.scored_point(entry.point_id),
            );
            let shared = if level <= entry.level {
                level
            } else {
                entry.level as nat
            };
            let done = link_levels(prepared, scorer, point, shared, start);
            if level > entry.level {
                done.with_entry(own)
            } else {
                done
            }
        },
    }
}

/// The level of a point drawn with `sample`: the number of times that
/// `sample` can be multiplied by `m` and stay a 64-bit number, `cap` at most.
/// For a sample that is uniform over the 64-bit numbers, each level is
/// reached from the one below with probability `1 / m`. With `m` below two
/// there is one layer only.
pub open spec fn level_of_sample(sample: nat, m: nat, cap: nat) -> nat
    decreases cap,
{
    if m < 2 || cap == 0 || sample * m > u64::MAX {
        0
    } else {
        1 + level_of_sample(sample * m, m, (cap - 1) as nat)
    }
}

/// A level is never above the cap.
pub proof fn lemma_level_of_sample(sample: nat, m: nat, cap: nat)
    ensures
        level_of_sample(sample, m, cap) <= cap,
    decreases cap,
{
    if !(m < 2 || cap == 0 || sample * m > u64::MAX) {
        lemma_level_of_sample(sample * m, m, (cap - 1) as nat);
    }
}

} // verus!
