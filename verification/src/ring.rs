//! Trusted boundary to the `ringbuffer` crate.
//!
//! The circular tracks of the statistics engine and the working sample
//! buffer are `ringbuffer::AllocRingBuffer<i128>` values. Verus sees them
//! through two names — the sequence a buffer holds, oldest first, and the
//! capacity it was created with — and through thin wrappers whose contracts
//! restate what the crate's source does: a full buffer evicts its oldest
//! element on push, and indexing counts from the oldest element.

use vstd::prelude::*;

verus! {

#[verifier::external_type_specification]
#[verifier::external_body]
#[verifier::reject_recursive_types(T)]
pub struct ExAllocRingBuffer<T>(ringbuffer::AllocRingBuffer<T>);

/// The elements a buffer currently holds, oldest first.
pub uninterp spec fn ring_seq(rb: ringbuffer::AllocRingBuffer<i128>) -> Seq<i128>;

/// The fixed capacity the buffer was created with.
pub uninterp spec fn ring_cap(rb: ringbuffer::AllocRingBuffer<i128>) -> nat;

/// Relies on `ringbuffer::AllocRingBuffer::new`: an empty buffer with the
/// given capacity (`new` panics on a zero capacity, which the precondition
/// rules out).
#[verifier::external_body]
pub(crate) fn ring_new(capacity: usize) -> (r: ringbuffer::AllocRingBuffer<i128>)
    requires
        capacity > 0,
    ensures
        ring_seq(r) == Seq::<i128>::empty(),
        ring_cap(r) == capacity as nat,
{
    ringbuffer::AllocRingBuffer::new(capacity)
}

/// Relies on `ringbuffer::RingBuffer::enqueue`: appends the value, evicting
/// the oldest element when the buffer is full.
#[verifier::external_body]
pub(crate) fn ring_push(rb: &mut ringbuffer::AllocRingBuffer<i128>, v: i128)
    ensures
        ring_cap(*final(rb)) == ring_cap(*old(rb)),
        ring_seq(*final(rb)) == if ring_seq(*old(rb)).len() < ring_cap(*old(rb)) {
            ring_seq(*old(rb)).push(v)
        } else {
            ring_seq(*old(rb)).drop_first().push(v)
        },
{
    let _ = ringbuffer::RingBuffer::enqueue(rb, v);
}

/// Relies on `ringbuffer::RingBuffer::get`: the element `i` places after the
/// oldest one (in range, so the modulo in its source is the identity).
#[verifier::external_body]
pub(crate) fn ring_get(rb: &ringbuffer::AllocRingBuffer<i128>, i: usize) -> (r: i128)
    requires
        i < ring_seq(*rb).len(),
    ensures
        r == ring_seq(*rb)[i as int],
{
    *ringbuffer::RingBuffer::get(rb, i).unwrap()
}

/// Relies on `ringbuffer::RingBuffer::get_mut`: a mutable reference to the
/// element `i` places after the oldest one; the wrapper overwrites it.
#[verifier::external_body]
pub(crate) fn ring_set(rb: &mut ringbuffer::AllocRingBuffer<i128>, i: usize, v: i128)
    requires
        i < ring_seq(*old(rb)).len(),
    ensures
        ring_cap(*final(rb)) == ring_cap(*old(rb)),
        ring_seq(*final(rb)) == ring_seq(*old(rb)).update(i as int, v),
{
    *ringbuffer::RingBuffer::get_mut(rb, i).unwrap() = v;
}

/// Relies on `ringbuffer::RingBuffer::len`: the number of elements held.
#[verifier::external_body]
pub(crate) fn ring_len(rb: &ringbuffer::AllocRingBuffer<i128>) -> (r: usize)
    ensures
        r == ring_seq(*rb).len(),
{
    ringbuffer::RingBuffer::len(rb)
}

} // verus!
