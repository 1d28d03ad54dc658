//! The eviction order of the arrival-order policy: a bounded queue of keys,
//! kept in a ring buffer of the `crossbeam_queue` crate.
//!
//! Nothing in this file is proved. Each function states what the crate's
//! source shows of the one call it makes, and the policy is verified against
//! these statements.

use crossbeam_queue::ArrayQueue;
use vstd::prelude::*;

verus! {

/// `crossbeam_queue::ArrayQueue`, declared so that a queue can be held in a
/// field and handed to the functions below. The verifier sees nothing inside
/// it.
#[verifier::external_type_specification]
#[verifier::external_body]
#[verifier::reject_recursive_types(T)]
pub struct ExArrayQueue<T>(ArrayQueue<T>);

/// The most keys a queue can be built for. A slot of the ring buffer takes at
/// most 16 bytes, and no allocation may exceed `isize::MAX` bytes.
pub const QUEUE_MAX_LIMIT: usize = usize::MAX / 32;

/// The keys that a queue holds, the oldest first.
pub uninterp spec fn queue_keys(q: ArrayQueue<i32>) -> Seq<i32>;

/// The number of keys that a queue was built to hold.
pub uninterp spec fn queue_limit(q: ArrayQueue<i32>) -> nat;

/// `ArrayQueue::new`: an empty queue with room for `limit` keys.
///
/// The call panics on a limit of zero and on one too large to allocate, so
/// both are left out. The buffer is allocated here, all of it.
#[verifier::external_body]
pub(crate) fn queue_new(limit: usize) -> (q: ArrayQueue<i32>)
    requires
        0 < limit <= QUEUE_MAX_LIMIT,
    ensures
        queue_keys(q) == Seq::<i32>::empty(),
        queue_limit(q) == limit,
{
    ArrayQueue::new(limit)
}

/// `ArrayQueue::push`: the key joins at the back, unless the queue is full;
/// a full queue hands the key back and stays as it was.
#[verifier::external_body]
pub(crate) fn queue_push(q: &mut ArrayQueue<i32>, key: i32) -> (pushed: Result<(), i32>)
    ensures
        pushed == if queue_keys(*old(q)).len() < queue_limit(*old(q)) {
            Ok(())
        } else {
            Err(key)
        },
        queue_keys(*final(q)) == if pushed.is_ok() {
            queue_keys(*old(q)).push(key)
        } else {
            queue_keys(*old(q))
        },
        queue_limit(*final(q)) == queue_limit(*old(q)),
{
    q.push(key)
}

/// `ArrayQueue::pop`: the oldest key leaves and is returned; an empty queue
/// gives `None` and stays empty.
#[verifier::external_body]
pub(crate) fn queue_pop(q: &mut ArrayQueue<i32>) -> (key: Option<i32>)
    ensures
        key == if queue_keys(*old(q)).len() > 0 {
            Some(queue_keys(*old(q)).first())
        } else {
            None
        },
        queue_keys(*final(q)) == if queue_keys(*old(q)).len() > 0 {
            queue_keys(*old(q)).drop_first()
        } else {
            queue_keys(*old(q))
        },
        queue_limit(*final(q)) == queue_limit(*old(q)),
{
    q.pop()
}

} // verus!
