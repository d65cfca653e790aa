//! The queue of the ways that a search has yet to follow, shortest first.

use crate::grid::Position;
use priority_queue::PriorityQueue;
use std::cmp::Reverse;
use vstd::prelude::*;

verus! {

/// `priority_queue::PriorityQueue`: a queue of items, each with a priority.
#[verifier::external_type_specification]
#[verifier::external_body]
#[verifier::reject_recursive_types(I)]
#[verifier::reject_recursive_types(P)]
#[verifier::reject_recursive_types(H)]
pub struct ExPriorityQueue<I, P, H>(PriorityQueue<I, P, H>);

/// `std::cmp::Reverse`: a value that is ordered the other way round.
#[verifier::external_type_specification]
#[verifier::external_body]
#[verifier::reject_recursive_types(T)]
pub struct ExReverse<T>(Reverse<T>);

/// A queue of ways through the grid, each with its length as its priority:
/// the shorter way comes out first.
pub type WayQueue = PriorityQueue<Vec<Position>, Reverse<usize>>;

/// The ways that `queue` holds, each with its length.
pub uninterp spec fn queued(queue: WayQueue) -> Map<Seq<Position>, usize>;

/// `PriorityQueue::new` of priority_queue. Claims that the new queue holds
/// nothing.
#[verifier::external_body]
pub(crate) fn queue_new() -> (fresh: WayQueue)
    ensures
        queued(fresh).dom() == Set::<Seq<Position>>::empty(),
{
    PriorityQueue::new()
}

/// `PriorityQueue::push` of priority_queue, with the priority
/// `Reverse(length)`. Claims that the queue then holds `way` with `length`,
/// in place of what it held for `way` if it held it, and everything else
/// as before.
#[verifier::external_body]
pub(crate) fn queue_push(
    queue: &mut WayQueue,
    way: Vec<Position>,
    length: usize,
)
    ensures
        queued(*final(queue)) == queued(*old(queue)).insert(way@, length),
{
    queue.push(way, Reverse(length));
}

/// `PriorityQueue::pop` of priority_queue. Claims that it returns nothing
/// and leaves the queue as it is exactly if the queue holds nothing, and
/// that it otherwise takes out and returns a way that the queue holds, with
/// its length, than which no way in the queue is shorter: the priorities
/// are the lengths reversed, and `pop` takes the greatest.
#[verifier::external_body]
pub(crate) fn queue_pop(queue: &mut WayQueue) -> (popped:
    Option<(Vec<Position>, usize)>)
    ensures
        match popped {
            None => queued(*old(queue)).dom() == Set::<Seq<Position>>::empty() && queued(
                *final(queue),
            ) == queued(*old(queue)),
            Some((way, length)) => {
                &&& queued(*old(queue)).contains_key(way@)
                &&& queued(*old(queue))[way@] == length
                &&& forall|other: Seq<Position>| #[trigger]
                    queued(*old(queue)).contains_key(other) ==> length <= queued(
                        *old(queue),
                    )[other]
                &&& queued(*final(queue)) == queued(*old(queue)).remove(way@)
            },
        },
{
    match queue.pop() {
        None => None,
        Some((way, Reverse(length))) => Some((way, length)),
    }
}

} // verus!
