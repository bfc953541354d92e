//! The queue of partial paths searched by `get_path_between_rooms`: a
//! `priority_queue::PriorityQueue` of `(room, path)` items, the path given
//! by its index, whose priority grows as the path gets shorter.
use vstd::prelude::*;

use priority_queue::PriorityQueue;
use std::collections::hash_map::RandomState;

verus! {

#[verifier::external_type_specification]
#[verifier::external_body]
#[verifier::reject_recursive_types(I)]
#[verifier::reject_recursive_types(P)]
#[verifier::reject_recursive_types(H)]
pub struct ExPriorityQueue<I, P, H>(priority_queue::PriorityQueue<I, P, H>);

/// A queue of `(room, path index)` items with `usize` priorities.
pub type PathQueue = PriorityQueue<(usize, usize), usize, RandomState>;

/// The items a queue holds, each with its priority.
pub uninterp spec fn queue_items(q: PathQueue) -> Map<(usize, usize), usize>;

/// `PriorityQueue::new`: an empty queue.
#[verifier::external_body]
pub(crate) fn queue_new() -> (queue: PathQueue)
    ensures
        queue_items(queue).dom() == Set::<(usize, usize)>::empty(),
{
    PriorityQueue::new()
}

/// `PriorityQueue::push_increase`: inserts `item` with `priority`, or raises
/// the priority of an equal item already queued when `priority` is greater;
/// an equal item with an equal or greater priority is left as it is.
#[verifier::external_body]
pub(crate) fn queue_push_increase(q: &mut PathQueue, item: (usize, usize), priority: usize)
    ensures
        queue_items(*final(q)) == (if queue_items(*old(q)).dom().contains(item) && queue_items(*old(q))[item] >= priority {
            queue_items(*old(q))
        } else {
            queue_items(*old(q)).insert(item, priority)
        }),
{
    q.push_increase(item, priority);
}

/// `PriorityQueue::pop`: removes and returns an item of greatest priority
/// with its priority, or `None` when the queue is empty. Which of several
/// items of equal priority comes out is left open.
#[verifier::external_body]
pub(crate) fn queue_pop(q: &mut PathQueue) -> (r: Option<((usize, usize), usize)>)
    ensures
        r is None <==> queue_items(*old(q)).dom() == Set::<(usize, usize)>::empty(),
        r matches Some((item, p)) ==> {
            &&& queue_items(*old(q)).dom().contains(item)
            &&& queue_items(*old(q))[item] == p
            &&& forall|other: (usize, usize)| #[trigger] queue_items(*old(q)).dom().contains(other) ==> queue_items(*old(q))[other] <= p
            &&& queue_items(*final(q)) == queue_items(*old(q)).remove(item)
        },
        r is None ==> queue_items(*final(q)) == queue_items(*old(q)),
{
    q.pop()
}

} // verus!
