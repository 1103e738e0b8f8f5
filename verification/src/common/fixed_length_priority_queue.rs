//! A queue that keeps the best scored points it has seen, up to a fixed
//! number, in result order.

use vstd::prelude::*;
use crate::types::{distinct_points, is_ranked, ScoredPointOffset};

verus! {

/// Where `value` goes into the ranked sequence `items`: behind every item it
/// does not rank before, so in front of the first item that it ranks before.
pub open spec fn insert_position(items: Seq<ScoredPointOffset>, value: ScoredPointOffset) -> nat
    decreases items.len(),
{
    if items.len() == 0 || value.ranks_before(items[0]) {
        0
    } else {
        1 + insert_position(items.drop_first(), value)
    }
}

/// The ranked sequence `items` with `value` put in its place.
pub open spec fn ranked_insert(
    items: Seq<ScoredPointOffset>,
    value: ScoredPointOffset,
) -> Seq<ScoredPointOffset> {
    items.insert(insert_position(items, value) as int, value)
}

/// Whether a queue of `capacity` that holds `items` keeps `value`.
pub open spec fn is_retained(
    items: Seq<ScoredPointOffset>,
    capacity: nat,
    value: ScoredPointOffset,
) -> bool {
    insert_position(items, value) < capacity
}

/// What a queue of `capacity` that holds `items` holds after `value` was
/// offered to it: the best `capacity` of the old items and the new value.
pub open spec fn bounded_insert(
    items: Seq<ScoredPointOffset>,
    capacity: nat,
    value: ScoredPointOffset,
) -> Seq<ScoredPointOffset> {
    let all = ranked_insert(items, value);
    if all.len() > capacity {
        all.take(capacity as int)
    } else {
        all
    }
}

/// The insert position splits the items: none before it is ranked behind
/// `value`, and the item at it, if there is one, is.
pub proof fn lemma_insert_position(items: Seq<ScoredPointOffset>, value: ScoredPointOffset)
    ensures
        insert_position(items, value) <= items.len(),
        forall|j: int|
            0 <= j < insert_position(items, value) ==> !value.ranks_before(#[trigger] items[j]),
        insert_position(items, value) < items.len() ==> value.ranks_before(
            items[insert_position(items, value) as int],
        ),
    decreases items.len(),
{
    if items.len() != 0 && !value.ranks_before(items[0]) {
        let rest = items.drop_first();
        lemma_insert_position(rest, value);
        assert forall|j: int| 0 <= j < insert_position(items, value) implies !value.ranks_before(
            #[trigger] items[j],
        ) by {
            if j > 0 {
                assert(items[j] == rest[j - 1]);
            }
        }
        if insert_position(items, value) < items.len() {
            assert(items[insert_position(items, value) as int] == rest[insert_position(rest, value) as int]);
        }
    }
}

/// An index that splits the items as the insert position does is the insert
/// position.
pub proof fn lemma_insert_position_is(
    items: Seq<ScoredPointOffset>,
    value: ScoredPointOffset,
    position: int,
)
    requires
        0 <= position <= items.len(),
        forall|j: int| 0 <= j < position ==> !value.ranks_before(#[trigger] items[j]),
        position < items.len() ==> value.ranks_before(items[position]),
    ensures
        insert_position(items, value) == position,
    decreases items.len(),
{
    if items.len() != 0 {
        if position == 0 {
        } else {
            assert(!value.ranks_before(items[0]));
            let rest = items.drop_first();
            assert forall|j: int| 0 <= j < position - 1 implies !value.ranks_before(
                #[trigger] rest[j],
            ) by {
                assert(rest[j] == items[j + 1]);
            }
            lemma_insert_position_is(rest, value, position - 1);
        }
    }
}

/// Putting a value in its place keeps a ranked sequence ranked.
pub proof fn lemma_ranked_insert(items: Seq<ScoredPointOffset>, value: ScoredPointOffset)
    requires
        is_ranked(items),
    ensures
        is_ranked(ranked_insert(items, value)),
{
    lemma_insert_position(items, value);
    let position = insert_position(items, value) as int;
    let all = ranked_insert(items, value);
    assert forall|i: int, j: int| 0 <= i < j < all.len() implies (#[trigger] all[i]).ranks_not_after(
        #[trigger] all[j],
    ) by {
        if j < position {
            assert(all[i] == items[i] && all[j] == items[j]);
        } else if j == position {
            assert(all[i] == items[i]);
            assert(!value.ranks_before(items[i]));
        } else if i < position {
            assert(all[i] == items[i] && all[j] == items[j - 1]);
        } else if i == position {
            assert(all[j] == items[j - 1]);
            assert(value.ranks_before(items[position]));
            if position < j - 1 {
                assert(items[position].ranks_not_after(items[j - 1]));
            }
        } else {
            assert(all[i] == items[i - 1] && all[j] == items[j - 1]);
        }
    }
}

/// What a queue holds after an offer: it stays ranked and within its
/// capacity, and holds nothing but old items and the value offered.
pub proof fn lemma_bounded_insert(
    items: Seq<ScoredPointOffset>,
    capacity: nat,
    value: ScoredPointOffset,
)
    requires
        is_ranked(items),
        items.len() <= capacity,
    ensures
        is_ranked(bounded_insert(items, capacity, value)),
        bounded_insert(items, capacity, value).len() <= capacity,
        bounded_insert(items, capacity, value).len() <= items.len() + 1,
        bounded_insert(items, capacity, value).len() >= items.len(),
        forall|i: int|
            0 <= i < bounded_insert(items, capacity, value).len() ==> {
                let kept = #[trigger] bounded_insert(items, capacity, value)[i];
                kept == value || items.contains(kept)
            },
        is_retained(items, capacity, value) ==> bounded_insert(items, capacity, value).contains(
            value,
        ),
        !is_retained(items, capacity, value) ==> bounded_insert(items, capacity, value) == items,
{
    lemma_insert_position(items, value);
    lemma_ranked_insert(items, value);
    let position = insert_position(items, value) as int;
    let all = ranked_insert(items, value);
    let kept = bounded_insert(items, capacity, value);
    assert forall|i: int| 0 <= i < kept.len() implies (#[trigger] kept[i] == value || items.contains(
        kept[i],
    )) by {
        assert(kept[i] == all[i]);
        if i < position {
            assert(all[i] == items[i]);
        } else if i > position {
            assert(all[i] == items[i - 1]);
        }
    }
    if is_retained(items, capacity, value) {
        assert(kept[position] == value);
    } else {
        assert(kept =~= items);
    }
}

/// The best point of a queue never gets worse: after an offer the queue's
/// first point scores no lower than its first point before.
pub proof fn lemma_bounded_insert_front(
    items: Seq<ScoredPointOffset>,
    capacity: nat,
    value: ScoredPointOffset,
)
    requires
        0 < items.len() <= capacity,
    ensures
        bounded_insert(items, capacity, value).len() > 0,
        bounded_insert(items, capacity, value)[0].score >= items[0].score,
{
    lemma_insert_position(items, value);
}

/// A queue that holds no point twice holds none twice after it was offered a
/// point that it did not hold.
pub proof fn lemma_bounded_insert_distinct(
    items: Seq<ScoredPointOffset>,
    capacity: nat,
    value: ScoredPointOffset,
)
    requires
        distinct_points(items),
        forall|i: int| 0 <= i < items.len() ==> (#[trigger] items[i]).idx != value.idx,
    ensures
        distinct_points(bounded_insert(items, capacity, value)),
{
    lemma_insert_position(items, value);
    let position = insert_position(items, value) as int;
    let all = ranked_insert(items, value);
    let kept = bounded_insert(items, capacity, value);
    assert forall|i: int, j: int| 0 <= i < j < kept.len() implies (#[trigger] kept[i]).idx != (
    #[trigger] kept[j]).idx by {
        assert(kept[i] == all[i] && kept[j] == all[j]);
        if j < position {
            assert(all[i] == items[i] && all[j] == items[j]);
        } else if j == position {
            assert(all[i] == items[i] && all[j] == value);
        } else if i < position {
            assert(all[i] == items[i] && all[j] == items[j - 1]);
        } else if i == position {
            assert(all[i] == value && all[j] == items[j - 1]);
        } else {
            assert(all[i] == items[i - 1] && all[j] == items[j - 1]);
        }
    }
}

/// Finds where `value` goes into `items`.
pub fn find_position(items: &Vec<ScoredPointOffset>, value: &ScoredPointOffset) -> (position: usize)
    ensures
        position == insert_position(items@, *value),
        position <= items@.len(),
{
    let mut position: usize = 0;
    while position < items.len() && !value.is_before(&items[position])
        invariant
            position <= items@.len(),
            forall|j: int| 0 <= j < position ==> !value.ranks_before(#[trigger] items@[j]),
        decreases items@.len() - position,
    {
        position = position + 1;
    }
    proof {
        lemma_insert_position_is(items@, *value, position as int);
    }
    position
}

/// Puts `value` in its place in `items`.
pub fn ranked_push(items: &mut Vec<ScoredPointOffset>, value: ScoredPointOffset)
    ensures
        final(items)@ == ranked_insert(old(items)@, value),
{
    let position: usize = find_position(items, &value);
    items.insert(position, value);
}

/// The best scored points seen so far, at most `capacity` of them, best first.
pub struct FixedLengthPriorityQueue {
    items: Vec<ScoredPointOffset>,
    length: usize,
}

impl View for FixedLengthPriorityQueue {
    type V = Seq<ScoredPointOffset>;

    closed spec fn view(&self) -> Seq<ScoredPointOffset> {
        self.items@
    }
}

impl FixedLengthPriorityQueue {
    /// The largest number of points the queue keeps.
    pub closed spec fn capacity(&self) -> nat {
        self.length as nat
    }

    /// The queue is in result order and within its capacity.
    pub open spec fn wf(&self) -> bool {
        is_ranked(self@) && self@.len() <= self.capacity()
    }

    /// An empty queue that keeps up to `length` points.
    pub fn new(length: usize) -> (queue: Self)
        ensures
            queue.wf(),
            queue@ == Seq::<ScoredPointOffset>::empty(),
            queue.capacity() == length,
    {
        FixedLengthPriorityQueue { items: Vec::new(), length }
    }

    /// Offers `value` to the queue and tells whether the queue kept it. A
    /// full queue keeps the value only if it ranks before the worst point
    /// held, which then leaves.
    pub fn push(&mut self, value: ScoredPointOffset) -> (retained: bool)
        requires
            old(self).wf(),
        ensures
            final(self).wf(),
            final(self).capacity() == old(self).capacity(),
            final(self)@ == bounded_insert(old(self)@, old(self).capacity(), value),
            retained == is_retained(old(self)@, old(self).capacity(), value),
    {
        let position: usize = find_position(&self.items, &value);
        proof {
            lemma_bounded_insert(old(self)@, old(self).capacity(), value);
        }
        if position >= self.length {
            return false;
        }
        if self.items.len() == self.length {
            self.items.pop();
        }
        self.items.insert(position, value);
        proof {
            assert(self.items@ =~= bounded_insert(old(self)@, old(self).capacity(), value));
        }
        true
    }

    /// Number of points held.
    pub fn len(&self) -> (len: usize)
        ensures
            len == self@.len(),
    {
        self.items.len()
    }

    /// Whether the queue holds no point.
    pub fn is_empty(&self) -> (empty: bool)
        ensures
            empty == (self@.len() == 0),
    {
        self.items.len() == 0
    }

    /// The worst point held, if any.
    pub fn top(&self) -> (worst: Option<ScoredPointOffset>)
        ensures
            worst == (if self@.len() == 0 {
                None
            } else {
                Some(self@.last())
            }),
    {
        if self.items.len() == 0 {
            None
        } else {
            Some(self.items[self.items.len() - 1])
        }
    }

    /// Takes the best point out of the queue, if there is one.
    pub fn pop_best(&mut self) -> (best: Option<ScoredPointOffset>)
        requires
            old(self).wf(),
        ensures
            final(self).wf(),
            final(self).capacity() == old(self).capacity(),
            old(self)@.len() == 0 ==> best is None && final(self)@ == old(self)@,
            old(self)@.len() > 0 ==> best == Some(old(self)@[0]) && final(self)@ == old(
                self,
            )@.drop_first(),
    {
        if self.items.len() == 0 {
            None
        } else {
            let best = self.items.remove(0);
            proof {
                assert(self.items@ =~= old(self)@.drop_first());
                assert forall|i: int, j: int| 0 <= i < j < self@.len() implies (
                #[trigger] self@[i]).ranks_not_after(#[trigger] self@[j]) by {
                    assert(self@[i] == old(self)@[i + 1] && self@[j] == old(self)@[j + 1]);
                }
            }
            Some(best)
        }
    }

    /// The points held, best first.
    pub fn into_vec(self) -> (points: Vec<ScoredPointOffset>)
        ensures
            points@ == self@,
    {
        self.items
    }
}

} // verus!
