use segment::common::fixed_length_priority_queue::{
    find_position, ranked_push, FixedLengthPriorityQueue,
};
use segment::index::hnsw_index::search_context::SearchContext;
use segment::types::{ScoreType, ScoredPointOffset};

fn scored(idx: u32, score: ScoreType) -> ScoredPointOffset {
    ScoredPointOffset { idx, score }
}

#[test]
fn result_order() {
    assert!(scored(5, 10).is_before(&scored(1, 9)));
    assert!(!scored(1, 9).is_before(&scored(5, 10)));
    assert!(scored(1, 9).is_before(&scored(5, 9)));
    assert!(!scored(5, 9).is_before(&scored(1, 9)));
    assert!(!scored(5, 9).is_before(&scored(5, 9)));
}

#[test]
fn ranked_push_keeps_result_order() {
    let mut items = vec![];
    for point in [scored(3, 5), scored(1, 7), scored(2, 5), scored(9, -1), scored(0, 7)] {
        ranked_push(&mut items, point);
    }
    assert_eq!(items, vec![scored(0, 7), scored(1, 7), scored(2, 5), scored(3, 5), scored(9, -1)]);
    assert_eq!(find_position(&items, &scored(4, 5)), 4);
    assert_eq!(find_position(&items, &scored(4, 8)), 0);
    assert_eq!(find_position(&items, &scored(4, -2)), 5);
    assert_eq!(find_position(&items, &scored(2, 5)), 3);
}

#[test]
fn queue_keeps_the_best() {
    let mut queue = FixedLengthPriorityQueue::new(3);
    assert!(queue.is_empty());
    assert_eq!(queue.top(), None);
    assert!(queue.push(scored(1, 10)));
    assert!(queue.push(scored(2, 30)));
    assert!(queue.push(scored(3, 20)));
    assert_eq!(queue.len(), 3);
    assert_eq!(queue.top(), Some(scored(1, 10)));
    assert!(!queue.push(scored(4, 5)));
    assert!(!queue.push(scored(5, 10)));
    assert!(queue.push(scored(0, 10)));
    assert_eq!(queue.top(), Some(scored(0, 10)));
    assert!(queue.push(scored(6, 25)));
    assert_eq!(queue.len(), 3);
    assert_eq!(queue.into_vec(), vec![scored(2, 30), scored(6, 25), scored(3, 20)]);
}

#[test]
fn queue_of_no_capacity_keeps_nothing() {
    let mut queue = FixedLengthPriorityQueue::new(0);
    assert!(!queue.push(scored(1, 10)));
    assert!(queue.is_empty());
    assert_eq!(queue.pop_best(), None);
}

#[test]
fn queue_pops_best_first() {
    let mut queue = FixedLengthPriorityQueue::new(5);
    for point in [scored(1, 1), scored(2, 3), scored(3, 2)] {
        queue.push(point);
    }
    assert_eq!(queue.pop_best(), Some(scored(2, 3)));
    assert_eq!(queue.pop_best(), Some(scored(3, 2)));
    assert_eq!(queue.pop_best(), Some(scored(1, 1)));
    assert_eq!(queue.pop_best(), None);
}

#[test]
fn search_context_starts_with_the_entry() {
    let context = SearchContext::new(scored(7, 4), 2, true);
    assert_eq!(context.lower_bound(), 4);
    assert_eq!(context.candidates, vec![scored(7, 4)]);
    assert_eq!(context.nearest.into_vec(), vec![scored(7, 4)]);
    let unadmitted = SearchContext::new(scored(7, 4), 2, false);
    assert_eq!(unadmitted.lower_bound(), ScoreType::MIN);
    assert_eq!(unadmitted.candidates, vec![scored(7, 4)]);
    assert_eq!(unadmitted.nearest.into_vec(), vec![]);
}

#[test]
fn search_context_queues_what_it_keeps() {
    let mut context = SearchContext::new(scored(7, 4), 2, true);
    context.process_candidate(scored(1, 9));
    assert_eq!(context.lower_bound(), 4);
    context.process_candidate(scored(2, 3));
    assert_eq!(context.candidates, vec![scored(1, 9), scored(7, 4)]);
    context.process_candidates(&vec![scored(3, 6), scored(4, 1), scored(5, 7)]);
    assert_eq!(context.lower_bound(), 7);
    assert_eq!(context.candidates, vec![scored(1, 9), scored(5, 7), scored(3, 6), scored(7, 4)]);
    assert_eq!(context.next_candidate(), Some(scored(1, 9)));
    assert_eq!(context.next_candidate(), Some(scored(5, 7)));
    assert_eq!(context.next_candidate(), None);
    assert_eq!(context.candidates, vec![scored(3, 6), scored(7, 4)]);
    assert_eq!(context.nearest.into_vec(), vec![scored(1, 9), scored(5, 7)]);
}
