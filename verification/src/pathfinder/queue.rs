//! The indexed priority queue of the `priority-queue` crate, as far as the
//! eager form of Dijkstra's search uses it.
//!
//! Nothing in this file is proved: the contracts restate what the crate
//! documents of its queue, over the map from the items in the queue to their
//! priorities.

use vstd::prelude::*;
use priority_queue::PriorityQueue;

verus! {

/// The queue type itself; its inside is not visible to the proofs.
#[verifier::external_type_specification]
#[verifier::external_body]
#[verifier::reject_recursive_types(I)]
#[verifier::reject_recursive_types(P)]
#[verifier::reject_recursive_types(H)]
pub struct ExPriorityQueue<I, P, H>(PriorityQueue<I, P, H>);

/// The items that a queue holds, each with its priority.
pub uninterp spec fn entries(queue: PriorityQueue<usize, i64>) -> Map<usize, i64>;

/// `PriorityQueue::new`: an empty queue.
#[verifier::external_body]
pub(crate) fn queue_new() -> (made: PriorityQueue<usize, i64>)
    ensures
        entries(made).dom() == Set::<usize>::empty(),
        entries(made).dom().finite(),
{
    PriorityQueue::new()
}

/// `PriorityQueue::push`: the item enters the queue with the priority given,
/// or, where it is in the queue already, gets that priority.  Returns the
/// priority that the item had before, if it was in the queue.
#[verifier::external_body]
pub(crate) fn queue_push(queue: &mut PriorityQueue<usize, i64>, item: usize, priority: i64) -> (was:
    Option<i64>)
    ensures
        entries(*final(queue)) == entries(*old(queue)).insert(item, priority),
        entries(*final(queue)).dom().finite(),
        was == if entries(*old(queue)).contains_key(item) {
            Some(entries(*old(queue))[item])
        } else {
            None
        },
{
    queue.push(item, priority)
}

/// `PriorityQueue::pop`: takes an item of the greatest priority out of the
/// queue and returns it with its priority; `None` where the queue is empty.
#[verifier::external_body]
pub(crate) fn queue_pop(queue: &mut PriorityQueue<usize, i64>) -> (top: Option<(usize, i64)>)
    ensures
        entries(*final(queue)).dom().finite(),
        top is None ==> entries(*old(queue)).dom() == Set::<usize>::empty() && entries(
            *final(queue),
        ) == entries(*old(queue)),
        top matches Some((item, priority)) ==> {
            &&& entries(*old(queue)).contains_key(item)
            &&& entries(*old(queue))[item] == priority
            &&& entries(*final(queue)) == entries(*old(queue)).remove(item)
            &&& forall|other: usize| #[trigger]
                entries(*old(queue)).contains_key(other) ==> entries(*old(queue))[other]
                    <= priority
        },
{
    queue.pop()
}

/// `PriorityQueue::change_priority`: gives an item of the queue a new
/// priority and returns the one it had; leaves the queue as it is and returns
/// `None` where the item is not in it.
#[verifier::external_body]
pub(crate) fn queue_change_priority(
    queue: &mut PriorityQueue<usize, i64>,
    item: usize,
    priority: i64,
) -> (was: Option<i64>)
    ensures
        entries(*final(queue)).dom().finite(),
        entries(*final(queue)) == if entries(*old(queue)).contains_key(item) {
            entries(*old(queue)).insert(item, priority)
        } else {
            entries(*old(queue))
        },
        was == if entries(*old(queue)).contains_key(item) {
            Some(entries(*old(queue))[item])
        } else {
            None
        },
{
    queue.change_priority(&item, priority)
}

} // verus!
