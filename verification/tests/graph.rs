use rand::rngs::StdRng;
use rand::SeedableRng;
use segment::fixtures::index_fixtures::{random_vector, FakeConditionChecker, TestRawScorerProducer};
use segment::index::hnsw_index::graph_layers::GraphLayers;
use segment::index::hnsw_index::graph_model::EntryPoint;
use segment::index::hnsw_index::point_scorer::FilteredScorer;
use segment::payload_storage::ConditionChecker;
use segment::spaces::metric::Metric;
use segment::spaces::simple::{CosineMetric, DotProductMetric, EuclidMetric};
use segment::types::{OperationError, PointOffsetType, ScoredPointOffset, MAX_DIMENSION};
use segment::vector_storage::simple_vector_storage::SimpleVectorStorage;
use segment::vector_storage::RawScorer;

/// Accepts the offsets that the filter divides.
struct Multiples {}

impl ConditionChecker for Multiples {
    type Filter = u32;

    fn accepts(&self, point_id: PointOffsetType, query: &u32) -> bool {
        point_id % *query == 0
    }

    fn check(&self, point_id: PointOffsetType, query: &u32) -> bool {
        point_id % *query == 0
    }
}

fn scored(idx: PointOffsetType, score: i64) -> ScoredPointOffset {
    ScoredPointOffset { idx, score }
}

fn storage_of<TMetric: Metric>(
    dim: usize,
    metric: TMetric,
    vectors: &[Vec<i16>],
) -> SimpleVectorStorage<TMetric> {
    let mut storage = SimpleVectorStorage::new(dim, metric).unwrap();
    for (i, vector) in vectors.iter().enumerate() {
        assert_eq!(storage.put_vector(vector), Ok(i as u32));
    }
    storage
}

/// Links every vector of the storage, in order, each on the level the closure
/// gives for it.
fn build<TMetric: Metric>(
    storage: &SimpleVectorStorage<TMetric>,
    m: usize,
    ef_construct: usize,
    num_layers: usize,
    use_heuristic: bool,
    mut level_of: impl FnMut(&GraphLayers, u32) -> usize,
) -> GraphLayers {
    let count = storage.vector_count();
    let mut graph = GraphLayers::new(count, m, m * 2, ef_construct, num_layers, use_heuristic);
    let checker = FakeConditionChecker {};
    for idx in 0..(count as u32) {
        let vector = storage.get_vector(idx).unwrap();
        let raw_scorer = storage.raw_scorer(&vector).unwrap();
        let scorer = FilteredScorer::new(&raw_scorer, &checker, None);
        let level = level_of(&graph, idx);
        assert_eq!(graph.link_new_point(idx, level, &scorer), Ok(()));
    }
    graph
}

/// All usable points, best first.
fn brute_force<R: RawScorer>(raw_scorer: &R, accept: impl Fn(u32) -> bool) -> Vec<ScoredPointOffset> {
    let mut all = vec![];
    for idx in 0..(raw_scorer.num_points() as u32) {
        if raw_scorer.check_point(idx) && accept(idx) {
            all.push(scored(idx, raw_scorer.score_point(idx).unwrap()));
        }
    }
    all.sort_by(|a, b| b.score.cmp(&a.score).then(a.idx.cmp(&b.idx)));
    all
}

/// Checks what holds of every graph: the degree bounds, that neighbours are
/// points of the same layer, that a point of a layer is on all layers below,
/// and that the entry point is on the highest populated layer.
fn check_graph(graph: &GraphLayers, m: usize, m0: usize, num_layers: usize) {
    let count = graph.num_points() as u32;
    let mut highest = None;
    for point in 0..count {
        let top = graph.point_level(point);
        if let Some(top) = top {
            assert!(top < num_layers.max(1));
            if highest.map_or(true, |h| top > h) {
                highest = Some(top);
            }
        }
        for level in 0..(num_layers + 2) {
            match graph.links(point, level) {
                Some(links) => {
                    assert!(top.is_some() && level <= top.unwrap());
                    assert!(links.len() <= if level == 0 { m0 } else { m });
                    assert_eq!(graph.get_m(level), if level == 0 { m0 } else { m });
                    for neighbor in links.iter() {
                        assert!(*neighbor < count);
                        assert!(graph.links(*neighbor, level).is_some());
                    }
                    for lower in 0..level {
                        assert!(graph.links(point, lower).is_some());
                    }
                },
                None => assert!(top.map_or(true, |top| level > top)),
            }
        }
    }
    match graph.entry_point() {
        None => assert_eq!(highest, None),
        Some(entry) => {
            assert_eq!(Some(entry.level), highest);
            assert_eq!(graph.point_level(entry.point_id), Some(entry.level));
        },
    }
}

fn square() -> SimpleVectorStorage<EuclidMetric> {
    storage_of(2, EuclidMetric {}, &[vec![0, 0], vec![10, 0], vec![0, 10], vec![50, 50]])
}

#[test]
fn new_graph_is_empty() {
    let graph = GraphLayers::new(7, 3, 6, 10, 4, true);
    assert_eq!(graph.num_points(), 7);
    assert_eq!(graph.entry_point(), None);
    assert_eq!(graph.get_m(0), 6);
    assert_eq!(graph.get_m(1), 3);
    assert_eq!(graph.get_m(9), 3);
    for point in 0..8 {
        assert_eq!(graph.point_level(point), None);
        assert_eq!(graph.links(point, 0), None);
    }
    check_graph(&graph, 3, 6, 4);
}

#[test]
fn search_of_an_empty_graph_finds_nothing() {
    let graph = GraphLayers::new(4, 2, 4, 10, 4, true);
    let storage = square();
    let raw_scorer = storage.raw_scorer(&[1, 1]).unwrap();
    let checker = FakeConditionChecker {};
    let scorer = FilteredScorer::new(&raw_scorer, &checker, None);
    assert_eq!(graph.search(1, 10, &scorer), Ok(vec![]));
    assert_eq!(graph.search(10, 10, &scorer), Ok(vec![]));
    let no_points = GraphLayers::new(0, 2, 4, 10, 4, true);
    assert_eq!(no_points.search(3, 3, &scorer), Ok(vec![]));
}

#[test]
fn search_for_nothing_finds_nothing() {
    let storage = square();
    let graph = build(&storage, 2, 10, 4, true, |_, _| 0);
    let raw_scorer = storage.raw_scorer(&[1, 1]).unwrap();
    let checker = FakeConditionChecker {};
    let scorer = FilteredScorer::new(&raw_scorer, &checker, None);
    assert_eq!(graph.search(0, 10, &scorer), Ok(vec![]));
    assert_eq!(graph.search(0, 0, &scorer), Ok(vec![]));
    assert_eq!(graph.search(3, 0, &scorer), Ok(vec![]));
    let short_storage = storage_of(2, EuclidMetric {}, &[vec![0, 0]]);
    let short = short_storage.raw_scorer(&[1, 1]).unwrap();
    let short_scorer = FilteredScorer::new(&short, &checker, None);
    assert_eq!(graph.search(0, 10, &short_scorer), Ok(vec![]));
}

#[test]
fn search_finds_the_nearest_corner() {
    for use_heuristic in [true, false] {
        let storage = square();
        let graph = build(&storage, 2, 10, 4, use_heuristic, |_, _| 0);
        check_graph(&graph, 2, 4, 4);
        let raw_scorer = storage.raw_scorer(&[1, 1]).unwrap();
        let checker = FakeConditionChecker {};
        let scorer = FilteredScorer::new(&raw_scorer, &checker, None);
        assert_eq!(graph.search(1, 10, &scorer), Ok(vec![scored(0, -1)]));
        assert_eq!(graph.search(1, 1, &scorer), Ok(vec![scored(0, -1)]));
        assert_eq!(
            graph.search(4, 10, &scorer),
            Ok(vec![scored(0, -1), scored(1, -9), scored(2, -9), scored(3, -69)])
        );
        assert_eq!(
            graph.search(10, 2, &scorer),
            Ok(vec![scored(0, -1), scored(1, -9), scored(2, -9), scored(3, -69)])
        );
    }
}

#[test]
fn search_finds_the_nearest_corner_across_layers() {
    let storage = square();
    let levels = [0usize, 2, 1, 3];
    let graph = build(&storage, 2, 10, 4, true, |_, idx| levels[idx as usize]);
    check_graph(&graph, 2, 4, 4);
    assert_eq!(graph.entry_point(), Some(EntryPoint { point_id: 3, level: 3 }));
    assert_eq!(graph.point_level(0), Some(0));
    assert_eq!(graph.point_level(1), Some(2));
    assert_eq!(graph.point_level(2), Some(1));
    let raw_scorer = storage.raw_scorer(&[1, 1]).unwrap();
    let checker = FakeConditionChecker {};
    let scorer = FilteredScorer::new(&raw_scorer, &checker, None);
    assert_eq!(graph.search(1, 10, &scorer), Ok(vec![scored(0, -1)]));
}

#[test]
fn first_point_becomes_the_entry_point() {
    let storage = square();
    let mut graph = GraphLayers::new(4, 2, 4, 10, 4, true);
    let checker = FakeConditionChecker {};
    let raw_scorer = storage.raw_scorer(&[10, 0]).unwrap();
    let scorer = FilteredScorer::new(&raw_scorer, &checker, None);
    assert_eq!(graph.link_new_point(1, 2, &scorer), Ok(()));
    assert_eq!(graph.entry_point(), Some(EntryPoint { point_id: 1, level: 2 }));
    assert_eq!(graph.point_level(1), Some(2));
    assert_eq!(graph.links(1, 0), Some(&vec![]));
    assert_eq!(graph.links(1, 2), Some(&vec![]));
    assert_eq!(graph.links(1, 3), None);
    assert_eq!(graph.search(3, 3, &scorer), Ok(vec![scored(1, 0)]));
}

#[test]
fn plain_selection_links_the_nearest() {
    let storage = square();
    let graph = build(&storage, 2, 10, 1, false, |_, _| 0);
    assert_eq!(graph.links(0, 0), Some(&vec![1, 2, 3]));
    assert_eq!(graph.links(1, 0), Some(&vec![0, 2, 3]));
    assert_eq!(graph.links(2, 0), Some(&vec![0, 1, 3]));
    assert_eq!(graph.links(3, 0), Some(&vec![1, 2, 0]));
}

#[test]
fn heuristic_selection_links_for_diversity() {
    // Every later point sees the earlier ones in one direction, and keeps
    // the nearest of them only.
    let storage = square();
    let graph = build(&storage, 2, 10, 1, true, |_, _| 0);
    assert_eq!(graph.links(0, 0), Some(&vec![1, 2]));
    assert_eq!(graph.links(1, 0), Some(&vec![0, 3]));
    assert_eq!(graph.links(2, 0), Some(&vec![0]));
    assert_eq!(graph.links(3, 0), Some(&vec![1]));
}

#[test]
fn full_lists_are_selected_anew() {
    // Points 0 and 2 have two neighbours each when point 3 chooses them; both
    // keep the two nearest of the three.
    let storage = storage_of(1, EuclidMetric {}, &[vec![0], vec![10], vec![4], vec![5]]);
    let graph = build(&storage, 1, 10, 1, false, |_, _| 0);
    assert_eq!(graph.get_m(0), 2);
    assert_eq!(graph.links(0, 0), Some(&vec![2, 3]));
    assert_eq!(graph.links(1, 0), Some(&vec![0, 2]));
    assert_eq!(graph.links(2, 0), Some(&vec![3, 0]));
    assert_eq!(graph.links(3, 0), Some(&vec![2, 0]));
}

#[test]
fn entry_point_moves_to_the_highest_layer() {
    let storage = square();
    let levels = [1usize, 0, 3, 3];
    let graph = build(&storage, 2, 10, 4, false, |_, idx| levels[idx as usize]);
    assert_eq!(graph.entry_point(), Some(EntryPoint { point_id: 2, level: 3 }));
    assert_eq!(graph.links(2, 3), Some(&vec![3]));
    assert_eq!(graph.links(3, 3), Some(&vec![2]));
    assert_eq!(graph.links(2, 1), Some(&vec![0, 3]));
    check_graph(&graph, 2, 4, 4);
}

#[test]
fn link_new_point_refuses_bad_input() {
    let storage = square();
    let mut graph = GraphLayers::new(4, 2, 4, 10, 3, true);
    let checker = FakeConditionChecker {};
    let raw_scorer = storage.raw_scorer(&[0, 0]).unwrap();
    let scorer = FilteredScorer::new(&raw_scorer, &checker, None);
    assert_eq!(
        graph.link_new_point(4, 0, &scorer),
        Err(OperationError::PointOutOfRange { offset: 4 })
    );
    assert_eq!(
        graph.link_new_point(0, 3, &scorer),
        Err(OperationError::LevelOutOfRange { level: 3, max_level: 2 })
    );
    assert_eq!(graph.entry_point(), None);
    assert_eq!(graph.link_new_point(0, 2, &scorer), Ok(()));
    assert_eq!(
        graph.link_new_point(0, 1, &scorer),
        Err(OperationError::PointAlreadyLinked { offset: 0 })
    );
    assert_eq!(graph.point_level(0), Some(2));
    let short_storage = storage_of(2, EuclidMetric {}, &[vec![0, 0], vec![1, 1]]);
    let short = short_storage.raw_scorer(&[1, 1]).unwrap();
    let short_scorer = FilteredScorer::new(&short, &checker, None);
    assert_eq!(
        graph.link_new_point(1, 0, &short_scorer),
        Err(OperationError::ScorerTooSmall { scorer_points: 2, graph_points: 4 })
    );
    assert_eq!(graph.point_level(1), None);
    assert_eq!(
        graph.search(1, 1, &short_scorer),
        Err(OperationError::ScorerTooSmall { scorer_points: 2, graph_points: 4 })
    );
    check_graph(&graph, 2, 4, 3);
}

#[test]
fn graph_without_layers_has_layer_zero() {
    let storage = square();
    let graph = build(&storage, 2, 10, 0, true, |graph, _| graph.level_for_sample(0));
    check_graph(&graph, 2, 4, 0);
    for point in 0..4 {
        assert_eq!(graph.point_level(point), Some(0));
    }
}

#[test]
fn degree_bound_of_zero_links_nothing() {
    let storage = square();
    let graph = build(&storage, 0, 10, 2, true, |_, idx| (idx % 2) as usize);
    check_graph(&graph, 0, 0, 2);
    for point in 0..4 {
        assert_eq!(graph.links(point, 0), Some(&vec![]));
    }
}

#[test]
fn beam_of_zero_links_nothing() {
    let storage = square();
    let graph = build(&storage, 2, 0, 2, false, |_, _| 0);
    check_graph(&graph, 2, 4, 2);
    for point in 0..4 {
        assert_eq!(graph.links(point, 0), Some(&vec![]));
    }
}

#[test]
fn level_for_sample_divides_the_range() {
    let graph = GraphLayers::new(1, 16, 32, 10, 4, true);
    assert_eq!(graph.level_for_sample(u64::MAX), 0);
    assert_eq!(graph.level_for_sample(u64::MAX / 16 + 1), 0);
    assert_eq!(graph.level_for_sample(u64::MAX / 16), 1);
    assert_eq!(graph.level_for_sample(u64::MAX / 256 + 1), 1);
    assert_eq!(graph.level_for_sample(u64::MAX / 256), 2);
    assert_eq!(graph.level_for_sample(u64::MAX / 4096), 3);
    assert_eq!(graph.level_for_sample(u64::MAX / 65536), 3);
    assert_eq!(graph.level_for_sample(1), 3);
    assert_eq!(graph.level_for_sample(0), 3);
    let flat = GraphLayers::new(1, 1, 2, 10, 4, true);
    assert_eq!(flat.level_for_sample(0), 0);
    assert_eq!(flat.level_for_sample(u64::MAX), 0);
    let single = GraphLayers::new(1, 16, 32, 10, 1, true);
    assert_eq!(single.level_for_sample(0), 0);
}

#[test]
fn random_layers_stay_below_the_cap_and_thin_out() {
    let graph = GraphLayers::new(1, 4, 8, 10, 3, true);
    let mut rng = StdRng::seed_from_u64(7);
    let mut counts = [0usize; 3];
    for _ in 0..4000 {
        let level = graph.get_random_layer(&mut rng);
        assert!(level <= 2);
        counts[level] += 1;
    }
    assert!(counts[0] > 2 * counts[1]);
    assert!(counts[1] > 2 * counts[2]);
    assert!(counts[2] > 0);
}

#[test]
fn random_vectors_have_the_size_asked_for() {
    let mut rng = StdRng::seed_from_u64(1);
    let vector = random_vector(&mut rng, 50);
    assert_eq!(vector.len(), 50);
    assert!(vector.iter().all(|x| -1000 <= *x && *x <= 1000));
    assert!(vector.iter().any(|x| *x != vector[0]));
    assert_eq!(random_vector(&mut rng, 0), vec![]);
}

#[test]
fn producer_fills_the_storage() {
    let mut rng = StdRng::seed_from_u64(2);
    let producer = TestRawScorerProducer::new(5, 20, DotProductMetric {}, &mut rng).unwrap();
    assert_eq!(producer.storage().vector_count(), 20);
    assert_eq!(producer.storage().vector_dim(), 5);
    assert_eq!(producer.storage().get_vector(19).unwrap().len(), 5);
    let scorer = producer.get_raw_scorer(vec![1, 0, 0, 0, 0]).unwrap();
    assert_eq!(scorer.num_points(), 20);
    assert_eq!(
        scorer.score_point(3),
        Ok(producer.storage().get_vector(3).unwrap()[0] as i64)
    );
    assert_eq!(
        producer.get_raw_scorer(vec![1, 0]).err(),
        Some(OperationError::WrongVector { expected_dim: 5, received_dim: 2 })
    );
    assert_eq!(
        TestRawScorerProducer::new(MAX_DIMENSION + 1, 1, DotProductMetric {}, &mut rng).err(),
        Some(OperationError::DimensionTooLarge { dim: MAX_DIMENSION + 1, max_dim: MAX_DIMENSION })
    );
    let too_many = (u32::MAX as usize).saturating_add(2);
    if too_many > u32::MAX as usize + 1 {
        assert_eq!(
            TestRawScorerProducer::new(2, too_many, DotProductMetric {}, &mut rng).err(),
            Some(OperationError::StorageFull)
        );
    }
}

fn random_graph<TMetric: Metric>(
    producer: &TestRawScorerProducer<TMetric>,
    m: usize,
    ef_construct: usize,
    use_heuristic: bool,
    rng: &mut StdRng,
) -> GraphLayers {
    build(producer.storage(), m, ef_construct, 6, use_heuristic, |graph, _| {
        graph.get_random_layer(rng)
    })
}

#[test]
fn built_graphs_keep_their_invariants() {
    let mut rng = StdRng::seed_from_u64(11);
    for use_heuristic in [true, false] {
        let producer = TestRawScorerProducer::new(4, 300, EuclidMetric {}, &mut rng).unwrap();
        let graph = random_graph(&producer, 4, 16, use_heuristic, &mut rng);
        check_graph(&graph, 4, 8, 6);
        let on_upper_layers = (0..300).filter(|p| graph.point_level(*p).unwrap() > 0).count();
        assert!(on_upper_layers > 0);
        let full = (0..300).filter(|p| graph.links(*p, 0).unwrap().len() == 8).count();
        assert!(full > 0);
    }
}

#[test]
fn search_recall_on_random_data() {
    let mut rng = StdRng::seed_from_u64(42);
    let top = 5;
    let trials = 40;
    for use_heuristic in [true, false] {
        let producer = TestRawScorerProducer::new(8, 200, EuclidMetric {}, &mut rng).unwrap();
        let graph = random_graph(&producer, 8, 32, use_heuristic, &mut rng);
        check_graph(&graph, 8, 16, 6);
        let checker = FakeConditionChecker {};
        let mut hits = 0;
        for _ in 0..trials {
            let query = random_vector(&mut rng, 8);
            let raw_scorer = producer.get_raw_scorer(query).unwrap();
            let scorer = FilteredScorer::new(&raw_scorer, &checker, None);
            let found = graph.search(top, 32, &scorer).unwrap();
            assert_eq!(found.len(), top);
            let exact = brute_force(&raw_scorer, |_| true);
            let worst_exact = exact[top - 1].score;
            hits += found.iter().filter(|point| point.score >= worst_exact).count();
            for pair in found.windows(2) {
                assert!(pair[0].is_before(&pair[1]));
            }
            for point in found.iter() {
                assert_eq!(raw_scorer.score_point(point.idx), Ok(point.score));
            }
        }
        assert!(hits >= trials * (top - 1), "{} hits in {} trials", hits, trials);
    }
}

#[test]
fn search_recall_under_cosine_and_dot() {
    let mut rng = StdRng::seed_from_u64(5);
    let checker = FakeConditionChecker {};
    let cosine = TestRawScorerProducer::new(8, 200, CosineMetric {}, &mut rng).unwrap();
    let graph = random_graph(&cosine, 8, 32, true, &mut rng);
    let mut hits = 0;
    for _ in 0..20 {
        let raw_scorer = cosine.get_raw_scorer(random_vector(&mut rng, 8)).unwrap();
        let scorer = FilteredScorer::new(&raw_scorer, &checker, None);
        let found = graph.search(5, 32, &scorer).unwrap();
        let exact = brute_force(&raw_scorer, |_| true);
        hits += found.iter().filter(|point| point.score >= exact[4].score).count();
    }
    assert!(hits >= 20 * 4, "{} hits", hits);
    let dot = TestRawScorerProducer::new(8, 100, DotProductMetric {}, &mut rng).unwrap();
    let graph = random_graph(&dot, 8, 32, true, &mut rng);
    check_graph(&graph, 8, 16, 6);
    let raw_scorer = dot.get_raw_scorer(random_vector(&mut rng, 8)).unwrap();
    let scorer = FilteredScorer::new(&raw_scorer, &checker, None);
    assert_eq!(graph.search(3, 16, &scorer).unwrap().len(), 3);
}

#[test]
fn filtered_search_returns_only_accepted_points() {
    let mut rng = StdRng::seed_from_u64(3);
    let producer = TestRawScorerProducer::new(8, 200, EuclidMetric {}, &mut rng).unwrap();
    let graph = random_graph(&producer, 8, 32, true, &mut rng);
    let checker = Multiples {};
    let two: u32 = 2;
    let mut found_any = 0;
    for _ in 0..20 {
        let raw_scorer = producer.get_raw_scorer(random_vector(&mut rng, 8)).unwrap();
        let scorer = FilteredScorer::new(&raw_scorer, &checker, Some(&two));
        let found = graph.search(5, 32, &scorer).unwrap();
        assert!(found.len() <= 5);
        found_any += found.len();
        for point in found.iter() {
            assert_eq!(point.idx % 2, 0);
            assert_eq!(raw_scorer.score_point(point.idx), Ok(point.score));
        }
        for pair in found.windows(2) {
            assert!(pair[0].is_before(&pair[1]));
        }
    }
    assert!(found_any > 0);
}

#[test]
fn filtered_search_passes_a_rejected_entry_point() {
    let storage = square();
    let levels = [0usize, 0, 0, 1];
    let graph = build(&storage, 2, 10, 2, false, |_, idx| levels[idx as usize]);
    assert_eq!(graph.entry_point(), Some(EntryPoint { point_id: 3, level: 1 }));
    let raw_scorer = storage.raw_scorer(&[49, 49]).unwrap();
    let checker = Multiples {};
    let two: u32 = 2;
    let scorer = FilteredScorer::new(&raw_scorer, &checker, Some(&two));
    assert_eq!(graph.search(3, 10, &scorer), Ok(vec![scored(2, -62), scored(0, -69)]));
    let unfiltered = FilteredScorer::new(&raw_scorer, &checker, None);
    assert_eq!(graph.search(1, 10, &unfiltered), Ok(vec![scored(3, -1)]));
}

#[test]
fn scorer_may_know_more_points_than_the_graph() {
    let storage = square();
    let mut graph = GraphLayers::new(3, 2, 4, 10, 2, true);
    let checker = FakeConditionChecker {};
    for idx in 0..3u32 {
        let raw_scorer = storage.raw_scorer(&storage.get_vector(idx).unwrap()).unwrap();
        let scorer = FilteredScorer::new(&raw_scorer, &checker, None);
        assert_eq!(graph.link_new_point(idx, 0, &scorer), Ok(()));
    }
    let raw_scorer = storage.raw_scorer(&[50, 50]).unwrap();
    let scorer = FilteredScorer::new(&raw_scorer, &checker, None);
    assert_eq!(
        graph.link_new_point(3, 0, &scorer),
        Err(OperationError::PointOutOfRange { offset: 3 })
    );
    assert_eq!(
        graph.search(5, 5, &scorer),
        Ok(vec![scored(1, -64), scored(2, -64), scored(0, -70)])
    );
    check_graph(&graph, 2, 4, 2);
}

#[test]
fn deleted_points_are_not_found() {
    let mut storage = square();
    let graph = build(&storage, 2, 10, 1, true, |_, _| 0);
    assert!(storage.delete(0));
    let raw_scorer = storage.raw_scorer(&[1, 1]).unwrap();
    let checker = FakeConditionChecker {};
    let scorer = FilteredScorer::new(&raw_scorer, &checker, None);
    assert_eq!(
        graph.search(4, 10, &scorer),
        Ok(vec![scored(1, -9), scored(2, -9), scored(3, -69)])
    );
}

#[test]
fn equal_scores_come_by_ascending_offset() {
    let storage = storage_of(
        2,
        EuclidMetric {},
        &[vec![0, 30], vec![30, 0], vec![0, -30], vec![-30, 0], vec![100, 100]],
    );
    let graph = build(&storage, 4, 10, 1, false, |_, _| 0);
    let raw_scorer = storage.raw_scorer(&[0, 0]).unwrap();
    let checker = FakeConditionChecker {};
    let scorer = FilteredScorer::new(&raw_scorer, &checker, None);
    let first = graph.search(4, 10, &scorer).unwrap();
    assert_eq!(first, vec![scored(0, -30), scored(1, -30), scored(2, -30), scored(3, -30)]);
    assert_eq!(graph.search(2, 10, &scorer), Ok(vec![scored(0, -30), scored(1, -30)]));
}

#[test]
fn search_is_repeatable() {
    let mut rng = StdRng::seed_from_u64(9);
    let producer = TestRawScorerProducer::new(6, 150, EuclidMetric {}, &mut rng).unwrap();
    let graph = random_graph(&producer, 6, 24, true, &mut rng);
    let checker = FakeConditionChecker {};
    for _ in 0..10 {
        let query = random_vector(&mut rng, 6);
        let first_scorer = producer.get_raw_scorer(query.clone()).unwrap();
        let first = graph.search(7, 24, &FilteredScorer::new(&first_scorer, &checker, None));
        let second_scorer = producer.get_raw_scorer(query).unwrap();
        let second = graph.search(7, 24, &FilteredScorer::new(&second_scorer, &checker, None));
        assert_eq!(first, second);
        assert_eq!(first.unwrap().len(), 7);
    }
}
