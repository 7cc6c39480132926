//! The outside collections that the heat-map search runs on: the FIFO
//! `queues::Queue` of open tiles and the `bit_vec::BitVec` of closed tiles.
//! Each item here is trusted: its contract restates what the crate's source
//! does, and nothing in this crate proves it.
use vstd::prelude::*;
use bit_vec::BitVec;
use queues::IsQueue;
use queues::Queue;

verus! {

#[verifier::external_type_specification]
#[verifier::external_body]
#[verifier::reject_recursive_types(T)]
pub struct ExQueue<T: Clone>(Queue<T>);

#[verifier::external_type_specification]
#[verifier::external_body]
#[verifier::reject_recursive_types(B)]
pub struct ExBitVec<B>(BitVec<B>);

/// The tiles held by a queue, oldest first.
pub uninterp spec fn queue_items(q: Queue<(usize, usize)>) -> Seq<(usize, usize)>;

/// The bits held by a bit vector, bit 0 first.
pub uninterp spec fn bitvec_bits(v: BitVec) -> Seq<bool>;

/// `Queue::new`: the queue starts empty (its body builds an empty `Vec`).
#[verifier::external_body]
pub(crate) fn queue_new() -> (q: Queue<(usize, usize)>)
    ensures
        queue_items(q) == Seq::<(usize, usize)>::empty(),
{
    Queue::new()
}

/// `IsQueue::add` on `Queue`: pushes the item at the back of the inner
/// `Vec`. It always answers `Ok(None)`; that answer is not passed on.
#[verifier::external_body]
pub(crate) fn queue_add(q: &mut Queue<(usize, usize)>, item: (usize, usize))
    ensures
        queue_items(*final(q)) == queue_items(*old(q)).push(item),
{
    let _ = q.add(item);
}

/// `IsQueue::remove` on `Queue`: on an empty queue an error and no change;
/// otherwise the oldest item, taken off the front. The error is mapped to
/// `None`.
#[verifier::external_body]
pub(crate) fn queue_remove(q: &mut Queue<(usize, usize)>) -> (res: Option<(usize, usize)>)
    ensures
        queue_items(*old(q)).len() == 0 ==> res is None && queue_items(*final(q)) == queue_items(
            *old(q),
        ),
        queue_items(*old(q)).len() > 0 ==> res == Some(queue_items(*old(q))[0]) && queue_items(
            *final(q),
        ) == queue_items(*old(q)).drop_first(),
{
    q.remove().ok()
}

/// `BitVec::from_elem`: `nbits` bits, each equal to `bit`.
#[verifier::external_body]
pub(crate) fn bitvec_from_elem(nbits: usize, bit: bool) -> (v: BitVec)
    ensures
        bitvec_bits(v) == Seq::new(nbits as nat, |i: int| bit),
{
    BitVec::from_elem(nbits, bit)
}

/// Indexing a `BitVec` (`Index<usize>`): the bit at `i`; it panics past
/// the end, which the precondition rules out.
#[verifier::external_body]
pub(crate) fn bitvec_index(v: &BitVec, i: usize) -> (b: bool)
    requires
        i < bitvec_bits(*v).len(),
    ensures
        b == bitvec_bits(*v)[i as int],
{
    v[i]
}

/// `BitVec::set`: writes bit `i`; it panics past the end, which the
/// precondition rules out.
#[verifier::external_body]
pub(crate) fn bitvec_set(v: &mut BitVec, i: usize, bit: bool)
    requires
        i < bitvec_bits(*old(v)).len(),
    ensures
        bitvec_bits(*final(v)) == bitvec_bits(*old(v)).update(i as int, bit),
{
    v.set(i, bit)
}

} // verus!
