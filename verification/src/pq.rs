//! Trusted boundary around `priority_queue::PriorityQueue`, used as the open
//! set of the path search: items are point identifiers, priorities order the
//! frontier. The queue holds each item at most once, so its contents are a
//! map from item to priority.

use std::collections::hash_map::RandomState;
use vstd::prelude::*;

verus! {

#[verifier::external_type_specification]
#[verifier::external_body]
#[verifier::reject_recursive_types(I)]
#[verifier::reject_recursive_types(P)]
#[verifier::reject_recursive_types(H)]
pub struct ExPriorityQueue<I, P, H>(priority_queue::PriorityQueue<I, P, H>);

/// What the queue holds: each item with its current priority.
pub uninterp spec fn pq_contents(q: priority_queue::PriorityQueue<i64, i64, RandomState>) -> Map<
    i64,
    i64,
>;

/// The empty contents.
pub open spec fn pq_empty() -> Map<i64, i64> {
    Map::empty()
}

/// Relies on `PriorityQueue::new`: makes an empty queue.
#[verifier::external_body]
pub fn pq_new() -> (q: priority_queue::PriorityQueue<i64, i64, RandomState>)
    ensures
        pq_contents(q) == pq_empty(),
{
    priority_queue::PriorityQueue::new()
}

/// Relies on `PriorityQueue::push`: inserts the pair, or updates the
/// priority of an item already present.
#[verifier::external_body]
pub fn pq_push(
    q: &mut priority_queue::PriorityQueue<i64, i64, RandomState>,
    item: i64,
    priority: i64,
)
    ensures
        pq_contents(*final(q)) == pq_contents(*old(q)).insert(item, priority),
{
    q.push(item, priority);
}

/// Relies on `PriorityQueue::pop`: removes and returns a pair whose
/// priority is greatest, or `None` on an empty queue. Which of several
/// greatest-priority items leaves is not specified.
#[verifier::external_body]
pub fn pq_pop(q: &mut priority_queue::PriorityQueue<i64, i64, RandomState>) -> (r: Option<
    (i64, i64),
>)
    ensures
        match r {
            None => pq_contents(*old(q)) == pq_empty() && pq_contents(*final(q))
                == pq_contents(*old(q)),
            Some((item, priority)) => pq_contents(*old(q)).contains_pair(item, priority)
                && pq_contents(*final(q)) == pq_contents(*old(q)).remove(item) && forall|j: i64|
                pq_contents(*old(q)).dom().contains(j) ==> pq_contents(*old(q))[j] <= priority,
        },
{
    q.pop()
}

/// Relies on `PriorityQueue::is_empty`: true exactly when nothing is queued.
#[verifier::external_body]
pub fn pq_is_empty(q: &priority_queue::PriorityQueue<i64, i64, RandomState>) -> (r: bool)
    ensures
        r <==> pq_contents(*q) == pq_empty(),
{
    q.is_empty()
}

} // verus!
