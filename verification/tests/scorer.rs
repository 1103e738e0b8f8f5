use segment::fixtures::index_fixtures::FakeConditionChecker;
use segment::index::hnsw_index::point_scorer::FilteredScorer;
use segment::payload_storage::ConditionChecker;
use segment::spaces::simple::{CosineMetric, DotProductMetric, EuclidMetric};
use segment::types::{OperationError, PointOffsetType, ScoreType, ScoredPointOffset, MAX_DIMENSION};
use segment::vector_storage::simple_vector_storage::SimpleVectorStorage;
use segment::vector_storage::{score_points, RawScorer};

/// Accepts the offsets that the filter divides.
struct Multiples {}

impl ConditionChecker for Multiples {
    type Filter = u32;

    fn accepts(&self, point_id: PointOffsetType, query: &u32) -> bool {
        point_id % *query == 0
    }

    fn check(&self, point_id: PointOffsetType, query: &u32) -> bool {
        point_id % *query == 0
    }
}

/// Points on a line: point `p` sits at coordinate `p`, the query at `at`.
struct Line {
    count: usize,
    at: i64,
    dead: Vec<PointOffsetType>,
}

impl RawScorer for Line {
    fn point_count(&self) -> usize {
        self.count
    }

    fn is_live(&self, point: PointOffsetType) -> bool {
        !self.dead.contains(&point)
    }

    fn query_score(&self, point: PointOffsetType) -> ScoreType {
        -((point as i64) - self.at).abs()
    }

    fn internal_score(&self, a: PointOffsetType, b: PointOffsetType) -> ScoreType {
        -((a as i64) - (b as i64)).abs()
    }

    fn num_points(&self) -> usize {
        self.count
    }

    fn check_point(&self, point: PointOffsetType) -> bool {
        (point as usize) < self.count && !self.dead.contains(&point)
    }

    fn score_point(&self, point: PointOffsetType) -> Result<ScoreType, OperationError> {
        if (point as usize) < self.count {
            Ok(self.query_score(point))
        } else {
            Err(OperationError::PointOutOfRange { offset: point })
        }
    }

    fn score_internal(
        &self,
        a: PointOffsetType,
        b: PointOffsetType,
    ) -> Result<ScoreType, OperationError> {
        if (a as usize) >= self.count {
            Err(OperationError::PointOutOfRange { offset: a })
        } else if (b as usize) >= self.count {
            Err(OperationError::PointOutOfRange { offset: b })
        } else {
            Ok(self.internal_score(a, b))
        }
    }
}

/// A line that counts how often it is asked for a score.
struct CountedLine {
    line: Line,
    scored: std::cell::Cell<usize>,
}

impl RawScorer for CountedLine {
    fn point_count(&self) -> usize {
        self.line.point_count()
    }

    fn is_live(&self, point: PointOffsetType) -> bool {
        self.line.is_live(point)
    }

    fn query_score(&self, point: PointOffsetType) -> ScoreType {
        self.line.query_score(point)
    }

    fn internal_score(&self, a: PointOffsetType, b: PointOffsetType) -> ScoreType {
        self.line.internal_score(a, b)
    }

    fn num_points(&self) -> usize {
        self.line.num_points()
    }

    fn check_point(&self, point: PointOffsetType) -> bool {
        self.line.check_point(point)
    }

    fn score_point(&self, point: PointOffsetType) -> Result<ScoreType, OperationError> {
        self.scored.set(self.scored.get() + 1);
        self.line.score_point(point)
    }

    fn score_internal(
        &self,
        a: PointOffsetType,
        b: PointOffsetType,
    ) -> Result<ScoreType, OperationError> {
        self.scored.set(self.scored.get() + 1);
        self.line.score_internal(a, b)
    }
}

fn line(count: usize, at: i64) -> Line {
    Line { count, at, dead: vec![] }
}

fn scored(idx: PointOffsetType, score: ScoreType) -> ScoredPointOffset {
    ScoredPointOffset { idx, score }
}

#[test]
fn new_binds_its_arguments() {
    let raw = line(5, 0);
    let checker = Multiples {};
    let three: u32 = 3;
    let scorer = FilteredScorer::new(&raw, &checker, Some(&three));
    assert_eq!(scorer.raw_scorer.count, 5);
    assert_eq!(scorer.filter, Some(&3));
    let unfiltered = FilteredScorer::new(&raw, &checker, None);
    assert_eq!(unfiltered.filter, None);
}

#[test]
fn check_point_without_filter_is_the_raw_check() {
    let raw = Line { count: 5, at: 0, dead: vec![2] };
    let checker = Multiples {};
    let scorer = FilteredScorer::new(&raw, &checker, None);
    assert!(scorer.check_point(0));
    assert!(scorer.check_point(1));
    assert!(!scorer.check_point(2));
    assert!(scorer.check_point(4));
    assert!(!scorer.check_point(5));
    assert!(!scorer.check_point(u32::MAX));
}

#[test]
fn check_point_with_filter_needs_both() {
    let raw = Line { count: 10, at: 0, dead: vec![4] };
    let checker = Multiples {};
    let two: u32 = 2;
    let scorer = FilteredScorer::new(&raw, &checker, Some(&two));
    assert!(scorer.check_point(0));
    assert!(!scorer.check_point(1));
    assert!(scorer.check_point(2));
    assert!(!scorer.check_point(4));
    assert!(scorer.check_point(8));
    assert!(!scorer.check_point(10));
    assert!(!scorer.check_point(12));
}

#[test]
fn score_point_passes_through() {
    let raw = Line { count: 10, at: 3, dead: vec![4] };
    let checker = Multiples {};
    let two: u32 = 2;
    let scorer = FilteredScorer::new(&raw, &checker, Some(&two));
    assert_eq!(scorer.score_point(3), Ok(0));
    assert_eq!(scorer.score_point(1), Ok(-2));
    assert_eq!(scorer.score_point(4), Ok(-1));
    assert_eq!(scorer.score_point(9), Ok(-6));
    assert_eq!(scorer.score_point(10), Err(OperationError::PointOutOfRange { offset: 10 }));
}

#[test]
fn score_internal_passes_through() {
    let raw = line(10, 3);
    let checker = Multiples {};
    let scorer = FilteredScorer::new(&raw, &checker, None);
    assert_eq!(scorer.score_internal(2, 7), Ok(-5));
    assert_eq!(scorer.score_internal(7, 2), Ok(-5));
    assert_eq!(scorer.score_internal(10, 2), Err(OperationError::PointOutOfRange { offset: 10 }));
    assert_eq!(scorer.score_internal(2, 11), Err(OperationError::PointOutOfRange { offset: 11 }));
    assert_eq!(scorer.score_internal(12, 11), Err(OperationError::PointOutOfRange { offset: 12 }));
}

#[test]
fn score_iterable_points_without_filter() {
    let raw = Line { count: 10, at: 0, dead: vec![3] };
    let checker = Multiples {};
    let scorer = FilteredScorer::new(&raw, &checker, None);
    let mut points = vec![5u32, 3, 11, 1, 7].into_iter();
    let found = scorer.score_iterable_points(&mut points, 10);
    assert_eq!(found, vec![scored(5, -5), scored(1, -1), scored(7, -7)]);
    assert_eq!(points.next(), None);
}

#[test]
fn score_iterable_points_stops_at_the_limit() {
    let raw = line(10, 0);
    let checker = Multiples {};
    let two: u32 = 2;
    let scorer = FilteredScorer::new(&raw, &checker, Some(&two));
    let mut points = vec![1u32, 2, 3, 4, 12, 6, 8].into_iter();
    let found = scorer.score_iterable_points(&mut points, 3);
    assert_eq!(found, vec![scored(2, -2), scored(4, -4), scored(6, -6)]);
    assert_eq!(points.next(), Some(8));
}

#[test]
fn score_iterable_points_with_limit_zero_takes_nothing() {
    let raw = line(10, 0);
    let checker = Multiples {};
    let scorer = FilteredScorer::new(&raw, &checker, None);
    let mut points = vec![1u32, 2].into_iter();
    let found = scorer.score_iterable_points(&mut points, 0);
    assert_eq!(found, vec![]);
    assert_eq!(points.next(), Some(1));
}

#[test]
fn score_iterable_points_takes_any_iterator() {
    let raw = line(100, 50);
    let checker = Multiples {};
    let ten: u32 = 10;
    let scorer = FilteredScorer::new(&raw, &checker, Some(&ten));
    let mut points = (0u32..1000).map(|i| i * 5);
    let found = scorer.score_iterable_points(&mut points, 4);
    assert_eq!(found, vec![scored(0, -50), scored(10, -40), scored(20, -30), scored(30, -20)]);
    assert_eq!(points.next(), Some(35));
}

#[test]
fn score_iterable_points_of_an_endless_iterator() {
    let raw = line(8, 0);
    let checker = Multiples {};
    let scorer = FilteredScorer::new(&raw, &checker, None);
    let mut points = (0u32..).map(|i| i % 16);
    let found = scorer.score_iterable_points(&mut points, 10);
    let ids: Vec<u32> = found.iter().map(|point| point.idx).collect();
    assert_eq!(ids, vec![0, 1, 2, 3, 4, 5, 6, 7, 0, 1]);
    assert_eq!(points.next(), Some(2));
}

#[test]
fn rejected_offsets_are_not_scored() {
    let raw = CountedLine {
        line: Line { count: 100, at: 0, dead: vec![10, 20] },
        scored: std::cell::Cell::new(0),
    };
    let checker = Multiples {};
    let ten: u32 = 10;
    let scorer = FilteredScorer::new(&raw, &checker, Some(&ten));
    let mut points = 0u32..1000;
    let found = scorer.score_iterable_points(&mut points, 5);
    let ids: Vec<u32> = found.iter().map(|point| point.idx).collect();
    assert_eq!(ids, vec![0, 30, 40, 50, 60]);
    assert_eq!(raw.scored.get(), 5);
    assert_eq!(points.next(), Some(61));
    let all: Vec<u32> = (0..200).collect();
    assert_eq!(scorer.score_points(&all, 200).len(), 8);
    assert_eq!(raw.scored.get(), 13);
}

#[test]
fn score_points_on_a_slice() {
    let raw = Line { count: 10, at: 9, dead: vec![8] };
    let checker = Multiples {};
    let two: u32 = 2;
    let scorer = FilteredScorer::new(&raw, &checker, Some(&two));
    assert_eq!(
        scorer.score_points(&[9, 8, 6, 6, 20, 4, 2], 10),
        vec![scored(6, -3), scored(6, -3), scored(4, -5), scored(2, -7)]
    );
    assert_eq!(scorer.score_points(&[9, 8, 6, 6, 20, 4, 2], 2), vec![scored(6, -3), scored(6, -3)]);
    assert_eq!(scorer.score_points(&[9, 8, 6], 0), vec![]);
    assert_eq!(scorer.score_points(&[], 5), vec![]);
}

#[test]
fn raw_score_points_skips_unusable_points() {
    let raw = Line { count: 6, at: 0, dead: vec![0] };
    let mut points = vec![0u32, 1, 6, 2, 3].into_iter();
    assert_eq!(score_points(&raw, &mut points, 2), vec![scored(1, -1), scored(2, -2)]);
    assert_eq!(points.next(), Some(3));
}

#[test]
fn fake_condition_checker_accepts_everything() {
    let checker = FakeConditionChecker {};
    assert!(checker.check(0, &()));
    assert!(checker.check(u32::MAX, &()));
    let raw = line(3, 0);
    let scorer = FilteredScorer::new(&raw, &checker, Some(&()));
    assert!(scorer.check_point(2));
    assert!(!scorer.check_point(3));
}

#[test]
fn storage_refuses_what_it_cannot_hold() {
    assert_eq!(
        SimpleVectorStorage::new(MAX_DIMENSION + 1, EuclidMetric {}).err(),
        Some(OperationError::DimensionTooLarge { dim: MAX_DIMENSION + 1, max_dim: MAX_DIMENSION })
    );
    let mut storage = SimpleVectorStorage::new(3, EuclidMetric {}).unwrap();
    assert_eq!(storage.put_vector(&[1, 2, 3]), Ok(0));
    assert_eq!(
        storage.put_vector(&[1, 2]),
        Err(OperationError::WrongVector { expected_dim: 3, received_dim: 2 })
    );
    assert_eq!(storage.put_vector(&[4, 5, 6]), Ok(1));
    assert_eq!(storage.vector_count(), 2);
    assert_eq!(storage.vector_dim(), 3);
    assert_eq!(storage.get_vector(1), Some(vec![4, 5, 6]));
    assert_eq!(storage.get_vector(2), None);
    assert_eq!(
        storage.raw_scorer(&[1, 2, 3, 4]).err(),
        Some(OperationError::WrongVector { expected_dim: 3, received_dim: 4 })
    );
}

#[test]
fn storage_preprocesses_once() {
    let mut storage = SimpleVectorStorage::new(2, CosineMetric {}).unwrap();
    assert_eq!(storage.put_vector(&[3, 4]), Ok(0));
    assert_eq!(storage.put_vector(&[0, 0]), Ok(1));
    assert_eq!(storage.get_vector(0), Some(vec![9830, 13107]));
    assert_eq!(storage.get_vector(1), Some(vec![0, 0]));
    let scorer = storage.raw_scorer(&[6, 8]).unwrap();
    assert_eq!(scorer.score_point(0), Ok(9830 * 9830 + 13107 * 13107));
    assert_eq!(scorer.score_point(1), Ok(0));
}

#[test]
fn simple_raw_scorer_scores_with_the_metric() {
    let mut storage = SimpleVectorStorage::new(2, DotProductMetric {}).unwrap();
    storage.put_vector(&[1, 2]).unwrap();
    storage.put_vector(&[-3, 4]).unwrap();
    storage.put_vector(&[5, 5]).unwrap();
    assert!(storage.delete(1));
    assert!(!storage.delete(1));
    assert!(!storage.delete(3));
    let scorer = storage.raw_scorer(&[2, 1]).unwrap();
    assert_eq!(scorer.num_points(), 3);
    assert!(scorer.check_point(0));
    assert!(!scorer.check_point(1));
    assert!(scorer.check_point(2));
    assert!(!scorer.check_point(3));
    assert_eq!(scorer.score_point(0), Ok(4));
    assert_eq!(scorer.score_point(1), Ok(-2));
    assert_eq!(scorer.score_point(2), Ok(15));
    assert_eq!(scorer.score_point(3), Err(OperationError::PointOutOfRange { offset: 3 }));
    assert_eq!(scorer.score_internal(0, 2), Ok(15));
    assert_eq!(scorer.score_internal(1, 1), Ok(25));
    assert_eq!(scorer.score_internal(0, 3), Err(OperationError::PointOutOfRange { offset: 3 }));
    assert_eq!(scorer.score_internal(4, 3), Err(OperationError::PointOutOfRange { offset: 4 }));
}
