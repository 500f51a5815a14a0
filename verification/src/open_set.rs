//! The open set of the path search: a priority queue of cells from the
//! `priority-queue` crate, described to the verifier by contracts that are
//! taken on trust.

use crate::grid::Cell;
use priority_queue::PriorityQueue;
use std::hash::Hash;
use vstd::prelude::*;

verus! {

/// `priority_queue::PriorityQueue`, opaque to the verifier.
#[verifier::external_type_specification]
#[verifier::external_body]
#[verifier::reject_recursive_types(I)]
#[verifier::reject_recursive_types(P)]
#[verifier::reject_recursive_types(H)]
pub struct ExPriorityQueue<I: Hash + Eq, P: Ord, H>(PriorityQueue<I, P, H>);

/// The priority of a cell in the open set.
pub type Rank = (i64, i64, i64);

/// The open set: cells waiting to be expanded, the greatest priority first.
pub type OpenSet = PriorityQueue<Cell, Rank>;

/// The cells that a queue holds, each with its priority.
pub uninterp spec fn open_entries(q: OpenSet) -> Map<Cell, Rank>;

/// The order of priorities: that of tuples of integers, component by
/// component from the left.
pub open spec fn outranks(a: Rank, b: Rank) -> bool {
    a.0 > b.0 || (a.0 == b.0 && (a.1 > b.1 || (a.1 == b.1 && a.2 > b.2)))
}

/// `PriorityQueue::new`: the new queue holds nothing.
#[verifier::external_body]
pub(crate) fn open_set_new() -> (queue: OpenSet)
    ensures
        open_entries(queue).dom() == Set::<Cell>::empty(),
{
    PriorityQueue::new()
}

/// `PriorityQueue::push`: the cell is entered with the priority given; where
/// the queue held the cell already, only its priority changes.
#[verifier::external_body]
pub(crate) fn open_set_push(
    q: &mut OpenSet,
    item: Cell,
    priority: Rank,
)
    ensures
        open_entries(*final(q)) == open_entries(*old(q)).insert(item, priority),
{
    q.push(item, priority);
}

/// `PriorityQueue::pop`: `None` on an empty queue, which stays empty;
/// otherwise an entry that no other entry outranks leaves the queue and is
/// returned.
#[verifier::external_body]
pub(crate) fn open_set_pop(q: &mut OpenSet) -> (r: Option<(Cell, Rank)>)
    ensures
        match r {
            Some((item, priority)) => {
                &&& open_entries(*old(q)).contains_pair(item, priority)
                &&& open_entries(*final(q)) == open_entries(*old(q)).remove(item)
                &&& forall|other: Cell| #[trigger]
                    open_entries(*old(q)).dom().contains(other) ==> !outranks(
                        open_entries(*old(q))[other],
                        priority,
                    )
            },
            None => {
                &&& open_entries(*old(q)).dom() == Set::<Cell>::empty()
                &&& open_entries(*final(q)) == open_entries(*old(q))
            },
        },
{
    q.pop()
}

} // verus!
