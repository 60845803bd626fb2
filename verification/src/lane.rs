//! The lanes that batches travel on from one thread to another.
//!
//! A lane is modelled by all batches that ever go down it, which are finitely many.
//! That a loop which empties a lane ends is therefore shown for a thread at the other
//! end that stops sending at some time.

use crate::evqueue::{BatchView, EventBatch};
use rtrb::{Consumer, Producer, PushError, RingBuffer};
use vstd::prelude::*;

verus! {

#[verifier::external_type_specification]
#[verifier::external_body]
#[verifier::reject_recursive_types(T)]
pub struct ExProducer<T>(rtrb::Producer<T>);

#[verifier::external_type_specification]
#[verifier::external_body]
#[verifier::reject_recursive_types(T)]
pub struct ExConsumer<T>(rtrb::Consumer<T>);

/// The end of a lane that batches go in at.
pub struct Inlet {
    /// All batches that ever go down the lane, in order.
    pub lane: Seq<BatchView>,
    /// How many of them have gone in so far.
    pub sent: nat,
    /// How many batches the lane has room for.
    pub capacity: nat,
}

/// The end of a lane that batches come out at.
pub struct Outlet {
    /// All batches that ever go down the lane, in order.
    pub lane: Seq<BatchView>,
    /// How many of them have come out so far.
    pub taken: nat,
    /// Whether there was nothing to come out when last asked.
    pub dry: bool,
}

/// What has been and is to be pushed through a producer.
pub uninterp spec fn inlet(end: Producer<Box<EventBatch>>) -> Inlet;

/// What has been and is to be popped through a consumer.
pub uninterp spec fn outlet(end: Consumer<Box<EventBatch>>) -> Outlet;

/// `rtrb::RingBuffer::new`: the two ends of one new lane. It panics where the
/// memory for so many batches cannot be counted in bytes.
#[verifier::external_body]
pub(crate) fn new_lane(capacity: usize) -> (ends: (
    Producer<Box<EventBatch>>,
    Consumer<Box<EventBatch>>,
))
    requires
        capacity <= 0x0fff_ffff,
    ensures
        inlet(ends.0).lane == outlet(ends.1).lane,
        inlet(ends.0).sent == 0,
        inlet(ends.0).capacity == capacity,
        outlet(ends.1).taken == 0,
        !outlet(ends.1).dry,
{
    RingBuffer::new(capacity)
}

/// `rtrb::Producer::push`: the batch goes in behind those before it, or is handed
/// back because the lane is full, which it cannot be before it has been filled
/// once. When a full lane has room again is up to the thread at its other end.
#[verifier::external_body]
pub(crate) fn send(end: &mut Producer<Box<EventBatch>>, batch: Box<EventBatch>) -> (r: Result<
    (),
    Box<EventBatch>,
>)
    ensures
        inlet(*final(end)).lane == inlet(*old(end)).lane,
        inlet(*final(end)).capacity == inlet(*old(end)).capacity,
        inlet(*final(end)).sent <= inlet(*final(end)).lane.len(),
        match r {
            Ok(()) => {
                &&& inlet(*final(end)).sent == inlet(*old(end)).sent + 1
                &&& inlet(*old(end)).lane[inlet(*old(end)).sent as int] == batch@
            },
            Err(returned) => {
                &&& inlet(*final(end)).sent == inlet(*old(end)).sent
                &&& inlet(*old(end)).sent >= inlet(*old(end)).capacity
                &&& returned == batch
            },
        },
{
    match end.push(batch) {
        Ok(()) => Ok(()),
        Err(PushError::Full(returned)) => Err(returned),
    }
}

/// `rtrb::Consumer::pop`: the batch that went in first of those still there, or
/// nothing where there is none. When there is one is up to the thread at the
/// lane's other end.
#[verifier::external_body]
pub(crate) fn receive(end: &mut Consumer<Box<EventBatch>>) -> (r: Option<Box<EventBatch>>)
    ensures
        outlet(*final(end)).lane == outlet(*old(end)).lane,
        outlet(*final(end)).dry == (r is None),
        outlet(*final(end)).taken <= outlet(*final(end)).lane.len(),
        match r {
            Some(batch) => {
                &&& outlet(*final(end)).taken == outlet(*old(end)).taken + 1
                &&& outlet(*old(end)).lane[outlet(*old(end)).taken as int] == batch@
            },
            None => outlet(*final(end)).taken == outlet(*old(end)).taken,
        },
{
    end.pop().ok()
}

} // verus!
