//! The three bounded SPSC channels connecting the ingress side with the
//! client side: responses, URCs and control commands.  Each is a
//! `heapless::spsc::Queue` held behind trusted wrappers whose contracts
//! speak of the sequence of items the queue holds, front first.
//!
//! A `heapless::spsc::Queue` declared with const parameter `N` holds at
//! most `N - 1` items.

use vstd::prelude::*;

use crate::error::InternalError;
use crate::Command;

verus! {

/// Const parameter of the response queue: it holds at most
/// [`RES_CAPACITY`] frames.
pub const RES_QUEUE_N: usize = 6;

/// How many response frames the response queue can hold.
pub const RES_CAPACITY: usize = 5;

/// Const parameter of the URC queue: it holds at most [`URC_CAPACITY`]
/// lines.
pub const URC_QUEUE_N: usize = 11;

/// How many URC lines the URC queue can hold.
pub const URC_CAPACITY: usize = 10;

/// Const parameter of the control queue: it holds at most
/// [`COM_CAPACITY`] commands.
pub const COM_QUEUE_N: usize = 4;

/// How many control commands the control queue can hold.
pub const COM_CAPACITY: usize = 3;

#[verifier::external_type_specification]
#[verifier::external_body]
#[verifier::reject_recursive_types(T)]
pub struct ExSpscQueue<T, const N: usize>(heapless::spsc::Queue<T, N>);

/// One frame on the response queue: a response body, or the error the
/// ingress classified.
pub type ResponseFrame = Result<Vec<u8>, InternalError>;

/// The frames held by the response queue, front first.
pub uninterp spec fn res_frames(
    q: heapless::spsc::Queue<ResponseFrame, RES_QUEUE_N>,
) -> Seq<ResponseFrame>;

/// The URC lines held by the URC queue, front first.
pub uninterp spec fn urc_frames(
    q: heapless::spsc::Queue<Vec<u8>, URC_QUEUE_N>,
) -> Seq<Vec<u8>>;

/// The control commands held by the control queue, front first.
pub uninterp spec fn com_items(
    q: heapless::spsc::Queue<Command, COM_QUEUE_N>,
) -> Seq<Command>;

/// Relies on `heapless::spsc::Queue::new`: the new queue is empty.
#[verifier::external_body]
pub(crate) fn res_queue_new() -> (q: heapless::spsc::Queue<ResponseFrame, RES_QUEUE_N>)
    ensures
        res_frames(q) == Seq::<ResponseFrame>::empty(),
{
    heapless::spsc::Queue::new()
}

/// Relies on `heapless::spsc::Queue::enqueue`: appends the item at the
/// back when fewer than `N - 1` items are held, and otherwise hands it
/// back, leaving the queue unchanged.
#[verifier::external_body]
pub(crate) fn res_enqueue(
    q: &mut heapless::spsc::Queue<ResponseFrame, RES_QUEUE_N>,
    item: ResponseFrame,
) -> (r: bool)
    ensures
        res_frames(*old(q)).len() < RES_CAPACITY ==> r && res_frames(*final(q)) == res_frames(
            *old(q),
        ).push(item),
        res_frames(*old(q)).len() >= RES_CAPACITY ==> !r && res_frames(*final(q)) == res_frames(
            *old(q),
        ),
{
    q.enqueue(item).is_ok()
}

/// Relies on `heapless::spsc::Queue::dequeue`: removes and returns the
/// front item, or returns nothing when the queue is empty.
#[verifier::external_body]
pub(crate) fn res_dequeue(q: &mut heapless::spsc::Queue<ResponseFrame, RES_QUEUE_N>) -> (r:
    Option<ResponseFrame>)
    ensures
        res_frames(*old(q)).len() == 0 ==> r is None && res_frames(*final(q)) == res_frames(
            *old(q),
        ),
        res_frames(*old(q)).len() > 0 ==> r == Some(res_frames(*old(q))[0]) && res_frames(
            *final(q),
        ) == res_frames(*old(q)).drop_first(),
{
    q.dequeue()
}

/// Relies on `heapless::spsc::Queue::new`: the new queue is empty.
#[verifier::external_body]
pub(crate) fn urc_queue_new() -> (q: heapless::spsc::Queue<Vec<u8>, URC_QUEUE_N>)
    ensures
        urc_frames(q) == Seq::<Vec<u8>>::empty(),
{
    heapless::spsc::Queue::new()
}

/// Relies on `heapless::spsc::Queue::enqueue`: appends the item at the
/// back when fewer than `N - 1` items are held, and otherwise hands it
/// back, leaving the queue unchanged.
#[verifier::external_body]
pub(crate) fn urc_enqueue(
    q: &mut heapless::spsc::Queue<Vec<u8>, URC_QUEUE_N>,
    item: Vec<u8>,
) -> (r: bool)
    ensures
        urc_frames(*old(q)).len() < URC_CAPACITY ==> r && urc_frames(*final(q)) == urc_frames(
            *old(q),
        ).push(item),
        urc_frames(*old(q)).len() >= URC_CAPACITY ==> !r && urc_frames(*final(q)) == urc_frames(
            *old(q),
        ),
{
    q.enqueue(item).is_ok()
}

/// Relies on `heapless::spsc::Queue::dequeue`: removes and returns the
/// front item, or returns nothing when the queue is empty.
#[verifier::external_body]
pub(crate) fn urc_dequeue(q: &mut heapless::spsc::Queue<Vec<u8>, URC_QUEUE_N>) -> (r: Option<
    Vec<u8>,
>)
    ensures
        urc_frames(*old(q)).len() == 0 ==> r is None && urc_frames(*final(q)) == urc_frames(
            *old(q),
        ),
        urc_frames(*old(q)).len() > 0 ==> r == Some(urc_frames(*old(q))[0]) && urc_frames(
            *final(q),
        ) == urc_frames(*old(q)).drop_first(),
{
    q.dequeue()
}

/// Relies on `heapless::spsc::Queue::new`: the new queue is empty.
#[verifier::external_body]
pub(crate) fn com_queue_new() -> (q: heapless::spsc::Queue<Command, COM_QUEUE_N>)
    ensures
        com_items(q) == Seq::<Command>::empty(),
{
    heapless::spsc::Queue::new()
}

/// Relies on `heapless::spsc::Queue::enqueue`: appends the item at the
/// back when fewer than `N - 1` items are held, and otherwise hands it
/// back, leaving the queue unchanged.
#[verifier::external_body]
pub(crate) fn com_enqueue(
    q: &mut heapless::spsc::Queue<Command, COM_QUEUE_N>,
    item: Command,
) -> (r: bool)
    ensures
        com_items(*old(q)).len() < COM_CAPACITY ==> r && com_items(*final(q)) == com_items(
            *old(q),
        ).push(item),
        com_items(*old(q)).len() >= COM_CAPACITY ==> !r && com_items(*final(q)) == com_items(
            *old(q),
        ),
{
    q.enqueue(item).is_ok()
}

/// Relies on `heapless::spsc::Queue::dequeue`: removes and returns the
/// front item, or returns nothing when the queue is empty.
#[verifier::external_body]
pub(crate) fn com_dequeue(q: &mut heapless::spsc::Queue<Command, COM_QUEUE_N>) -> (r: Option<
    Command,
>)
    ensures
        com_items(*old(q)).len() == 0 ==> r is None && com_items(*final(q)) == com_items(*old(q)),
        com_items(*old(q)).len() > 0 ==> r == Some(com_items(*old(q))[0]) && com_items(*final(q))
            == com_items(*old(q)).drop_first(),
{
    q.dequeue()
}

} // verus!
