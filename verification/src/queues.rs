//! Bounded FIFO queues from the crossbeam collection, behind trusted
//! wrappers.
//!
//! The device scancode rings and the executor's ready ring are
//! `crossbeam_queue::ArrayQueue` values.  Verus sees the queue as an
//! opaque value whose contents and capacity are named below; each wrapper
//! states over those names what the crate's source shows for
//! single-owner use: `push` appends at the tail unless the queue is
//! full, `pop` takes from the head.

use vstd::prelude::*;

verus! {

#[verifier::external_type_specification]
#[verifier::external_body]
#[verifier::reject_recursive_types(T)]
pub struct ExArrayQueue<T>(crossbeam_queue::ArrayQueue<T>);

/// The bytes a byte queue holds, head first.
pub uninterp spec fn byte_queue_view(q: crossbeam_queue::ArrayQueue<u8>) -> Seq<u8>;

/// The capacity a byte queue was created with.
pub uninterp spec fn byte_queue_cap(q: crossbeam_queue::ArrayQueue<u8>) -> int;

/// The words an id queue holds, head first.
pub uninterp spec fn id_queue_view(q: crossbeam_queue::ArrayQueue<u64>) -> Seq<u64>;

/// The capacity an id queue was created with.
pub uninterp spec fn id_queue_cap(q: crossbeam_queue::ArrayQueue<u64>) -> int;

/// Relies on crossbeam_queue::ArrayQueue::new: an empty queue with the
/// given capacity.  The capacity must not be zero, for new panics on it.
#[verifier::external_body]
pub fn new_byte_queue(cap: usize) -> (q: crossbeam_queue::ArrayQueue<u8>)
    requires
        1 <= cap,
    ensures
        byte_queue_view(q) == Seq::<u8>::empty(),
        byte_queue_cap(q) == cap,
{
    crossbeam_queue::ArrayQueue::new(cap)
}

/// Relies on crossbeam_queue::ArrayQueue::push: appends at the tail and
/// returns Ok, or hands the value back when the queue is full.
#[verifier::external_body]
pub fn byte_queue_push(q: &mut crossbeam_queue::ArrayQueue<u8>, v: u8) -> (r: bool)
    ensures
        byte_queue_cap(*final(q)) == byte_queue_cap(*old(q)),
        byte_queue_view(*old(q)).len() < byte_queue_cap(*old(q)) ==> r && byte_queue_view(
            *final(q),
        ) == byte_queue_view(*old(q)).push(v),
        byte_queue_view(*old(q)).len() >= byte_queue_cap(*old(q)) ==> !r && byte_queue_view(
            *final(q),
        ) == byte_queue_view(*old(q)),
{
    q.push(v).is_ok()
}

/// Relies on crossbeam_queue::ArrayQueue::pop: takes the element at the
/// head, or returns nothing when the queue is empty.
#[verifier::external_body]
pub fn byte_queue_pop(q: &mut crossbeam_queue::ArrayQueue<u8>) -> (r: Option<u8>)
    ensures
        byte_queue_cap(*final(q)) == byte_queue_cap(*old(q)),
        byte_queue_view(*old(q)).len() > 0 ==> r == Some(byte_queue_view(*old(q))[0])
            && byte_queue_view(*final(q)) == byte_queue_view(*old(q)).drop_first(),
        byte_queue_view(*old(q)).len() == 0 ==> r is None && byte_queue_view(*final(q))
            == byte_queue_view(*old(q)),
{
    q.pop()
}

/// Relies on crossbeam_queue::ArrayQueue::len.
#[verifier::external_body]
pub fn byte_queue_len(q: &crossbeam_queue::ArrayQueue<u8>) -> (r: usize)
    ensures
        r == byte_queue_view(*q).len(),
{
    q.len()
}

/// Relies on crossbeam_queue::ArrayQueue::new: an empty queue with the
/// given capacity.  The capacity must not be zero, for new panics on it.
#[verifier::external_body]
pub fn new_id_queue(cap: usize) -> (q: crossbeam_queue::ArrayQueue<u64>)
    requires
        1 <= cap,
    ensures
        id_queue_view(q) == Seq::<u64>::empty(),
        id_queue_cap(q) == cap,
{
    crossbeam_queue::ArrayQueue::new(cap)
}

/// Relies on crossbeam_queue::ArrayQueue::push: appends at the tail and
/// returns Ok, or hands the value back when the queue is full.
#[verifier::external_body]
pub fn id_queue_push(q: &mut crossbeam_queue::ArrayQueue<u64>, v: u64) -> (r: bool)
    ensures
        id_queue_cap(*final(q)) == id_queue_cap(*old(q)),
        id_queue_view(*old(q)).len() < id_queue_cap(*old(q)) ==> r && id_queue_view(*final(q))
            == id_queue_view(*old(q)).push(v),
        id_queue_view(*old(q)).len() >= id_queue_cap(*old(q)) ==> !r && id_queue_view(*final(q))
            == id_queue_view(*old(q)),
{
    q.push(v).is_ok()
}

/// Relies on crossbeam_queue::ArrayQueue::pop: takes the element at the
/// head, or returns nothing when the queue is empty.
#[verifier::external_body]
pub fn id_queue_pop(q: &mut crossbeam_queue::ArrayQueue<u64>) -> (r: Option<u64>)
    ensures
        id_queue_cap(*final(q)) == id_queue_cap(*old(q)),
        id_queue_view(*old(q)).len() > 0 ==> r == Some(id_queue_view(*old(q))[0])
            && id_queue_view(*final(q)) == id_queue_view(*old(q)).drop_first(),
        id_queue_view(*old(q)).len() == 0 ==> r is None && id_queue_view(*final(q))
            == id_queue_view(*old(q)),
{
    q.pop()
}

/// Relies on crossbeam_queue::ArrayQueue::len.
#[verifier::external_body]
pub fn id_queue_len(q: &crossbeam_queue::ArrayQueue<u64>) -> (r: usize)
    ensures
        r == id_queue_view(*q).len(),
{
    q.len()
}

} // verus!
