//! The search frontier: a double ended priority queue of node indices, from `priority_queue`.
use priority_queue::DoublePriorityQueue;
use std::collections::hash_map::RandomState;
use std::hash::Hash;
use vstd::prelude::*;

verus! {

/// `priority_queue`'s double ended priority queue, declared to the verifier as an opaque type.
#[verifier::external_type_specification]
#[verifier::external_body]
#[verifier::reject_recursive_types(I)]
#[verifier::reject_recursive_types(P)]
#[verifier::reject_recursive_types(H)]
pub struct ExDoublePriorityQueue<I: Hash + Eq, P: Ord, H>(DoublePriorityQueue<I, P, H>);

/// Node indices keyed by estimated total cost.
pub type Frontier = DoublePriorityQueue<usize, u128, RandomState>;

/// The frontier queue's contents: each item with its priority.
pub uninterp spec fn frontier_items(q: Frontier) -> Map<usize, u128>;

/// Relies on `DoublePriorityQueue::new`: the queue starts empty.
#[verifier::external_body]
pub(crate) fn new_frontier() -> (r: Frontier)
    ensures
        frontier_items(r).dom().is_empty(),
        frontier_items(r).dom().finite(),
{
    DoublePriorityQueue::new()
}

/// Relies on `DoublePriorityQueue::push`: an absent item is inserted; an item already there
/// keeps its place and takes the new priority.
#[verifier::external_body]
pub(crate) fn push_frontier(
    q: &mut Frontier,
    item: usize,
    priority: u128,
)
    ensures
        frontier_items(*final(q)) == frontier_items(*old(q)).insert(item, priority),
{
    q.push(item, priority);
}

/// Relies on `DoublePriorityQueue::pop_min`: removes and returns an item of least priority, or
/// `None` when the queue is empty.
#[verifier::external_body]
pub(crate) fn pop_min_frontier(q: &mut Frontier) -> (r: Option<(usize, u128)>)
    ensures
        r is None ==> frontier_items(*old(q)).dom().is_empty(),
        r is None ==> frontier_items(*final(q)) == frontier_items(*old(q)),
        r matches Some((i, p)) ==> {
            &&& frontier_items(*old(q)).contains_key(i)
            &&& frontier_items(*old(q))[i] == p
            &&& frontier_items(*final(q)) == frontier_items(*old(q)).remove(i)
            &&& forall|j: usize| #[trigger]
                frontier_items(*old(q)).contains_key(j) ==> p <= frontier_items(*old(q))[j]
        },
{
    q.pop_min()
}

} // verus!
