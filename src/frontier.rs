use vstd::prelude::*;

use priority_queue::PriorityQueue;

verus! {

#[verifier::external_type_specification]
#[verifier::external_body]
#[verifier::reject_recursive_types(I)]
#[verifier::reject_recursive_types(P)]
#[verifier::reject_recursive_types(H)]
pub struct ExPriorityQueue<I, P, H>(PriorityQueue<I, P, H>);

/// The search frontier: node indices keyed by a priority, the highest first.
pub type Frontier = PriorityQueue<usize, i64>;

/// What a frontier holds: each item with its priority.
pub uninterp spec fn frontier_items(q: Frontier) -> Map<usize, i64>;

/// Relies on `PriorityQueue::new`: the queue starts empty.
#[verifier::external_body]
pub(crate) fn frontier_new() -> (r: Frontier)
    ensures
        forall|k: usize| !(#[trigger] frontier_items(r).contains_key(k)),
{
    PriorityQueue::new()
}

/// Relies on `PriorityQueue::push`: the item is inserted with the priority,
/// or, when already there, its priority is replaced.
#[verifier::external_body]
pub(crate) fn frontier_push(q: &mut Frontier, item: usize, priority: i64)
    ensures
        frontier_items(*final(q)) == frontier_items(*old(q)).insert(item, priority),
{
    q.push(item, priority);
}

/// Relies on `PriorityQueue::pop`: `None` only on an empty queue, else an
/// item of greatest priority, which leaves the queue.
#[verifier::external_body]
pub(crate) fn frontier_pop(q: &mut Frontier) -> (r: Option<(usize, i64)>)
    ensures
        r is None ==> forall|k: usize| !(#[trigger] frontier_items(*old(q)).contains_key(k)),
        r is None ==> frontier_items(*final(q)) == frontier_items(*old(q)),
        r matches Some((item, priority)) ==> {
            &&& frontier_items(*old(q)).contains_key(item)
            &&& frontier_items(*old(q))[item] == priority
            &&& forall|k: usize| #[trigger]
                frontier_items(*old(q)).contains_key(k) ==> frontier_items(*old(q))[k] <= priority
            &&& frontier_items(*final(q)) == frontier_items(*old(q)).remove(item)
        },
{
    q.pop()
}

} // verus!
