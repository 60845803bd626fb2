//! The queue that carries events off the traced threads, a batch at a time.

use crate::clock::{low64, Clock};
use crate::event::{
    decoded, kind_of_word, pack_code_kind, packed_word, packing_round_trips, ticks_after,
    ticks_from_base, Event, EventKind, PackedEvent,
};
use crate::lane::{new_lane, outlet, receive, send, Outlet};
use crate::ring::{boxed_views, lemma_push_events, total_events};
use crate::snapshot::{marks, Mark};
use crate::tls::{armed, fits, open_batch, queue_of, way_of, Cold, Hot};
use rtrb::Consumer;
use vstd::prelude::*;

verus! {

/// How many events a batch holds before it is handed on.
pub const BATCH_N: usize = 1024;

/// How many batches a thread can have in flight.
pub const BATCHES_CAPACITY: usize = 64;

/// How many events a blocked reader takes at a time.
pub const DRAIN_EVENTS: usize = 4096;

/// How long a blocked reader waits for an event.
pub const WAIT_MILLIS: u64 = 20;

/// The widest distance from the start of a batch that a buffered event can have.
pub const DELTA_OVERFLOW: u64 = 0xffff_ffff;

/// What a batch weighs before it holds an event.
pub const BATCH_HEADER_BYTES: usize = 40;

/// What one buffered event weighs.
pub const EVENT_BYTES: usize = 8;

/// Events of one thread, each at its distance from one reading of the clock.
pub struct EventBatch {
    pub base_ticks: u64,
    pub tid: u32,
    pub events: Vec<PackedEvent>,
}

/// The contents of a batch.
pub struct BatchView {
    pub base_ticks: u64,
    pub tid: u32,
    pub events: Seq<PackedEvent>,
}

impl View for EventBatch {
    type V = BatchView;

    open spec fn view(&self) -> BatchView {
        BatchView { base_ticks: self.base_ticks, tid: self.tid, events: self.events@ }
    }
}

/// The memory a batch takes, up to what a count of bytes can say.
pub open spec fn batch_bytes(b: BatchView) -> usize {
    let total = BATCH_HEADER_BYTES + EVENT_BYTES * b.events.len();
    if total > usize::MAX {
        usize::MAX
    } else {
        total as usize
    }
}

/// The reading of the last event of a batch, or of its start.
pub open spec fn batch_end(b: BatchView) -> u64 {
    if b.events.len() == 0 {
        b.base_ticks
    } else {
        ticks_after(b.base_ticks, b.events.last().delta_ticks)
    }
}

/// The events that a batch stands for, in order.
pub open spec fn decoded_batch(clock: Clock, b: BatchView) -> Seq<Event> {
    Seq::new(b.events.len(), |i: int| decoded(clock, b.base_ticks, b.tid, b.events[i]))
}

impl EventBatch {
    pub fn with_capacity(cap: usize, base_ticks: u64, tid: u32) -> (batch: Self)
        ensures
            batch@ == (BatchView { base_ticks, tid, events: Seq::empty() }),
    {
        EventBatch { base_ticks, tid, events: Vec::with_capacity(cap) }
    }

    /// The memory this batch takes.
    pub fn bytes(&self) -> (n: usize)
        ensures
            n == batch_bytes(self@),
    {
        match EVENT_BYTES.checked_mul(self.events.len()) {
            None => usize::MAX,
            Some(events) => BATCH_HEADER_BYTES.saturating_add(events),
        }
    }

    /// The reading of the last event, or of the start of an empty batch.
    pub fn end_ticks(&self) -> (ticks: u64)
        ensures
            ticks == batch_end(self@),
    {
        if self.events.len() == 0 {
            self.base_ticks
        } else {
            ticks_from_base(self.base_ticks, self.events[self.events.len() - 1].delta_ticks)
        }
    }

    /// Appends the events that this batch stands for.
    pub fn decode_into(&self, clock: &Clock, out: &mut Vec<Event>)
        ensures
            final(out)@ == old(out)@ + decoded_batch(*clock, self@),
    {
        let ghost before = out@;
        let n: usize = self.events.len();
        for i in 0..n
            invariant
                n == self.events@.len(),
                out@ == before + decoded_batch(*clock, self@).take(i as int),
        {
            let ev = Event::from_packed(clock, self.base_ticks, self.tid, self.events[i]);
            out.push(ev);
            assert(decoded_batch(*clock, self@).take(i + 1) =~= decoded_batch(*clock, self@).take(
                i as int,
            ).push(ev));
        }
        assert(decoded_batch(*clock, self@).take(n as int) =~= decoded_batch(*clock, self@));
    }
}

/// Hands out ids, of queues and of windows. None is zero, which is the queue that a
/// thread starts with.
pub struct Ids {
    next: u64,
}

impl Ids {
    /// The next id.
    pub closed spec fn upcoming(&self) -> u64 {
        self.next
    }

    pub fn new() -> (ids: Self)
        ensures
            ids.upcoming() == 1,
    {
        Ids { next: 1 }
    }

    /// The next id, which is one more than the one before it.
    pub fn take(&mut self) -> (id: u64)
        ensures
            id == old(self).upcoming(),
            final(self).upcoming() == low64(id + 1),
    {
        let id: u64 = self.next;
        self.next = id.wrapping_add(1);
        id
    }
}

/// What the traced threads send to, and what is written out is read from.
pub struct EventQueue {
    id: u64,
    clock: Clock,
    consumers: Vec<Consumer<Box<EventBatch>>>,
    dropped: u64,
    closed: bool,
    recycle_floor: u64,
}

/// What a queue holds.
pub struct QueueView {
    pub id: u64,
    pub clock: Clock,
    /// The lanes of the threads that send to it, in the order they were opened.
    pub outlets: Seq<Outlet>,
    pub dropped: u64,
    pub closed: bool,
    pub recycle_floor: u64,
}

/// The lanes behind some consumers.
pub open spec fn outlets_of(consumers: Seq<Consumer<Box<EventBatch>>>) -> Seq<Outlet> {
    Seq::new(consumers.len(), |i: int| outlet(consumers[i]))
}

impl View for EventQueue {
    type V = QueueView;

    closed spec fn view(&self) -> QueueView {
        QueueView {
            id: self.id,
            clock: self.clock,
            outlets: outlets_of(self.consumers@),
            dropped: self.dropped,
            closed: self.closed,
            recycle_floor: self.recycle_floor,
        }
    }
}

/// Whether an event fits the open batch as it stands.
pub open spec fn goes_straight_in(hot: Hot, run: u64, ticks: u64) -> bool {
    hot.cursor < hot.end && hot.queue_id == run && low64(ticks - hot.base_ticks) <= DELTA_OVERFLOW
}

/// Whether a thread is not connected to a queue.
pub open spec fn is_stale(cold: Cold, id: u64) -> bool {
    cold.producer is None || queue_of(cold) != id
}

/// Whether batches may have come out of a lane, and nothing else has happened to it.
pub open spec fn has_advanced(before: Outlet, after: Outlet) -> bool {
    &&& after.lane == before.lane
    &&& before.taken <= after.taken
    &&& before.taken < after.taken ==> after.taken <= after.lane.len()
}

/// The batches that have come out of a lane between two points.
pub open spec fn came_out(before: Outlet, after: Outlet) -> Seq<BatchView> {
    if before.taken < after.taken {
        before.lane.subrange(before.taken as int, after.taken as int)
    } else {
        Seq::empty()
    }
}

/// The batches that have come out of several lanes between two points, one lane
/// after the other.
pub open spec fn drained(before: Seq<Outlet>, after: Seq<Outlet>) -> Seq<BatchView>
    decreases before.len(),
{
    if before.len() == 0 {
        Seq::empty()
    } else {
        drained(before.drop_last(), after.drop_last()) + came_out(before.last(), after.last())
    }
}

/// Whether the lanes have been emptied in turn: nothing has come out of one before
/// those ahead of it had run dry.
pub open spec fn in_turn(before: Seq<Outlet>, after: Seq<Outlet>) -> bool {
    &&& after.len() == before.len()
    &&& forall|i: int| 0 <= i < before.len() ==> has_advanced(#[trigger] before[i], after[i])
    &&& forall|i: int, j: int|
        0 <= i < j < before.len() && #[trigger] after[j] != before[j] ==> (#[trigger] after[i]).dry
}

/// Whether all lanes have run dry.
pub open spec fn all_dry(outlets: Seq<Outlet>) -> bool {
    forall|i: int| 0 <= i < outlets.len() ==> (#[trigger] outlets[i]).dry
}

/// The events that some batches stand for, in order.
pub open spec fn decoded_batches(clock: Clock, batches: Seq<BatchView>) -> Seq<Event>
    decreases batches.len(),
{
    if batches.len() == 0 {
        Seq::empty()
    } else {
        decoded_batches(clock, batches.drop_last()) + decoded_batch(clock, batches.last())
    }
}

/// The readings of some batches, in order.
pub open spec fn readings(batches: Seq<BatchView>) -> Seq<Mark>
    decreases batches.len(),
{
    if batches.len() == 0 {
        Seq::empty()
    } else {
        readings(batches.drop_last()) + marks(batches.last())
    }
}

/// All that a connected thread has recorded and not lost, sent off or not.
pub open spec fn recorded(hot: Hot, cold: Cold) -> Seq<Mark> {
    readings(way_of(cold).lane.take(way_of(cold).sent as int)) + marks(open_batch(hot, cold))
}

/// What is recorded of an event: when, where and what.
pub struct Taking {
    pub run: u64,
    pub ticks: u64,
    pub tid: u32,
    pub word: u32,
}

/// Whether a thread has recorded an event: in its open batch, or in a new one where
/// the batch is full, was opened for another run or lies too far back. The batch has
/// then been sent off, or its events counted where its lane had no room. A thread
/// that was not connected to the queue is connected to it now.
pub open spec fn took(
    hot: Hot,
    cold: Cold,
    queue: QueueView,
    what: Taking,
    after_hot: Hot,
    after: Cold,
    left: QueueView,
) -> bool {
    &&& fits(after_hot, after)
    &&& after.batch is Some
    &&& goes_straight_in(hot, what.run, what.ticks) ==> {
        &&& left == queue
        &&& after_hot == (Hot { cursor: (hot.cursor + 1) as usize, ..hot })
        &&& after.producer == cold.producer
        &&& open_batch(after_hot, after) == (BatchView {
            events: open_batch(hot, cold).events.push(
                PackedEvent {
                    delta_ticks: low64(what.ticks - hot.base_ticks) as u32,
                    code_kind: what.word,
                },
            ),
            ..open_batch(hot, cold)
        })
    }
    &&& !goes_straight_in(hot, what.run, what.ticks) ==> {
        &&& open_batch(after_hot, after) == (BatchView {
            base_ticks: what.ticks,
            tid: what.tid,
            events: seq![
                PackedEvent { delta_ticks: 0, code_kind: what.word },
            ],
        })
        &&& after_hot.cursor == 1
        &&& after_hot.end == BATCH_N
        &&& after_hot.base_ticks == what.ticks
        &&& after_hot.tid == what.tid
        &&& after_hot.epoch == low64(hot.epoch + 2)
        &&& after.producer is Some
        &&& queue_of(after) == queue.id
    }
    &&& !goes_straight_in(hot, what.run, what.ticks) && is_stale(cold, queue.id) ==> {
        &&& after_hot.queue_id == queue.id
        &&& after_hot.clock_direct == (queue.clock.rate() is Some)
        &&& left == (QueueView {
            outlets: queue.outlets.push(
                Outlet { lane: way_of(after).lane, taken: 0, dry: false },
            ),
            ..queue
        })
        &&& way_of(after).sent == 0
        &&& way_of(after).capacity == BATCHES_CAPACITY
    }
    &&& !goes_straight_in(hot, what.run, what.ticks) && !is_stale(cold, queue.id) ==> {
        let full = open_batch(hot, cold);
        let here = way_of(cold);
        let there = way_of(after);
        &&& after_hot.queue_id == hot.queue_id
        &&& after_hot.clock_direct == hot.clock_direct
        &&& there.lane == here.lane
        &&& there.capacity == here.capacity
        &&& {
            ||| {
                &&& left == queue
                &&& there.sent == here.sent + 1
                &&& here.lane[here.sent as int] == full
            }
            ||| {
                &&& left == (QueueView {
                    dropped: low64(queue.dropped + full.events.len()),
                    ..queue
                })
                &&& there.sent == here.sent
                &&& here.sent >= here.capacity
            }
        }
    }
    &&& !is_stale(cold, queue.id) ==> {
        let all = recorded(hot, cold);
        let lost = left.dropped - queue.dropped;
        let mark = (what.ticks, what.word);
        ||| lost == 0 && recorded(after_hot, after) == all.push(mark)
        ||| lost == low64(queue.dropped + hot.cursor) - queue.dropped
            && recorded(after_hot, after) == all.take(
            all.len() - hot.cursor,
        ).push(mark)
    }
    &&& after_hot.code_gen == hot.code_gen
    &&& after_hot.last_code_key == hot.last_code_key
    &&& after_hot.last_code_id == hot.last_code_id
    &&& after_hot.ensured == hot.ensured
    &&& after_hot.name_retries == hot.name_retries
}

/// What comes of an attempt to read from a queue.
#[derive(Copy, Clone, Debug, PartialEq, Eq, Structural)]
pub enum Drained {
    /// Events were read.
    Events,
    /// The queue is closed and empty.
    End,
    /// There is nothing yet: wait, and try again.
    Wait,
}

/// Writes an event to the open batch of a thread, where it fits. This is all that
/// recording comes to for all but one event in a batch, and needs no queue.
pub fn push_straight_in(
    hot: &mut Hot,
    cold: &mut Cold,
    run: u64,
    ticks: u64,
    code_kind: u32,
) -> (done: bool)
    requires
        fits(*old(hot), *old(cold)),
    ensures
        fits(*final(hot), *final(cold)),
        done == goes_straight_in(*old(hot), run, ticks),
        done ==> {
            &&& *final(hot) == (Hot { cursor: (old(hot).cursor + 1) as usize, ..*old(hot) })
            &&& final(cold).producer == old(cold).producer
            &&& final(cold).batch is Some
            &&& open_batch(*final(hot), *final(cold)) == (BatchView {
                events: open_batch(*old(hot), *old(cold)).events.push(
                    PackedEvent {
                        delta_ticks: low64(ticks - old(hot).base_ticks) as u32,
                        code_kind,
                    },
                ),
                ..open_batch(*old(hot), *old(cold))
            })
        },
        !done ==> *final(hot) == *old(hot) && *final(cold) == *old(cold),
{
    let delta: u64 = ticks.wrapping_sub(hot.base_ticks);
    if hot.cursor < hot.end && hot.queue_id == run && delta <= DELTA_OVERFLOW {
        cold.write(hot, PackedEvent { delta_ticks: delta as u32, code_kind });
        true
    } else {
        false
    }
}

impl EventQueue {
    pub fn new(id: u64, clock: Clock) -> (queue: Self)
        ensures
            queue@ == (QueueView {
                id,
                clock,
                outlets: Seq::empty(),
                dropped: 0,
                closed: false,
                recycle_floor: 0,
            }),
    {
        let queue = EventQueue {
            id,
            clock,
            consumers: Vec::new(),
            dropped: 0,
            closed: false,
            recycle_floor: 0,
        };
        assert(queue@.outlets =~= Seq::empty());
        queue
    }

    pub fn clock(&self) -> (clock: &Clock)
        ensures
            *clock == self@.clock,
    {
        &self.clock
    }

    pub fn id(&self) -> (id: u64)
        ensures
            id == self@.id,
    {
        self.id
    }

    /// Records one event of a thread.
    ///
    /// It goes into the thread's open batch at its distance from the batch's start.
    /// Where the batch is full, was opened for another run or lies too far back,
    /// the batch is sent off and the event starts a new one. A thread that is not
    /// connected to this queue is connected to it first.
    pub fn push_with_ctx(
        &mut self,
        hot: &mut Hot,
        cold: &mut Cold,
        run: u64,
        ticks: u64,
        tid: u32,
        code_id: u32,
        kind: EventKind,
    )
        requires
            fits(*old(hot), *old(cold)),
        ensures
            took(
                *old(hot),
                *old(cold),
                old(self)@,
                Taking { run, ticks, tid, word: packed_word(code_id, kind) },
                *final(hot),
                *final(cold),
                final(self)@,
            ),
            ({
                let last = open_batch(*final(hot), *final(cold)).events.last();
                &&& last.code_kind % 0x100_0000 == code_id % 0x100_0000
                &&& kind_of_word(last.code_kind) == kind
            }),
    {
        let code_kind: u32 = pack_code_kind(code_id, kind);
        if !push_straight_in(hot, cold, run, ticks, code_kind) {
            self.slow_path(hot, cold, ticks, tid, code_kind);
        }
        proof {
            packing_round_trips(code_id, kind);
            let full = open_batch(*old(hot), *old(cold));
            let now = open_batch(*hot, *cold);
            let sent = way_of(*old(cold)).lane.take(way_of(*old(cold)).sent as int);
            let mark = (ticks, code_kind);
            assert(marks(now).last() == mark);
            if goes_straight_in(*old(hot), run, ticks) {
                assert(marks(now) =~= marks(full).push(mark));
                assert(recorded(*hot, *cold) =~= recorded(*old(hot), *old(cold)).push(mark));
            } else if !is_stale(*old(cold), old(self)@.id) {
                assert(marks(now) =~= seq![mark]);
                let later = way_of(*cold).lane.take(way_of(*cold).sent as int);
                if way_of(*cold).sent > way_of(*old(cold)).sent {
                    assert(later.drop_last() =~= sent);
                    assert(later.last() == full);
                    assert(recorded(*hot, *cold) =~= recorded(*old(hot), *old(cold)).push(mark));
                } else {
                    let all = recorded(*old(hot), *old(cold));
                    assert(all.take(all.len() - old(hot).cursor) =~= readings(sent));
                    assert(recorded(*hot, *cold) =~= all.take(all.len() - old(hot).cursor).push(
                        mark,
                    ));
                }
            }
        }
    }

    fn slow_path(&mut self, hot: &mut Hot, cold: &mut Cold, ticks: u64, tid: u32, code_kind: u32)
        requires
            fits(*old(hot), *old(cold)),
        ensures
            fits(*final(hot), *final(cold)),
            final(cold).batch is Some,
            open_batch(*final(hot), *final(cold)) == (BatchView {
                base_ticks: ticks,
                tid,
                events: seq![PackedEvent { delta_ticks: 0, code_kind }],
            }),
            final(cold).producer is Some,
            queue_of(*final(cold)) == old(self)@.id,
            is_stale(*old(cold), old(self)@.id) ==> {
                &&& *final(hot) == (Hot {
                    cursor: 1,
                    ..armed(
                        Hot {
                            queue_id: old(self)@.id,
                            clock_direct: old(self)@.clock.rate() is Some,
                            ..*old(hot)
                        },
                        final(cold).batch,
                    )
                })
                &&& final(self)@ == (QueueView {
                    outlets: old(self)@.outlets.push(
                        Outlet { lane: way_of(*final(cold)).lane, taken: 0, dry: false },
                    ),
                    ..old(self)@
                })
                &&& way_of(*final(cold)).sent == 0
                &&& way_of(*final(cold)).capacity == BATCHES_CAPACITY
            },
            !is_stale(*old(cold), old(self)@.id) ==> {
                let full = open_batch(*old(hot), *old(cold));
                let before = way_of(*old(cold));
                let after = way_of(*final(cold));
                &&& *final(hot) == (Hot { cursor: 1, ..armed(*old(hot), final(cold).batch) })
                &&& after.lane == before.lane
                &&& after.capacity == before.capacity
                &&& {
                    ||| {
                        &&& final(self)@ == old(self)@
                        &&& after.sent == before.sent + 1
                        &&& before.lane[before.sent as int] == full
                    }
                    ||| {
                        &&& final(self)@ == (QueueView {
                            dropped: low64(old(self)@.dropped + full.events.len()),
                            ..old(self)@
                        })
                        &&& after.sent == before.sent
                        &&& before.sent >= before.capacity
                    }
                }
            },
    {
        let stale: bool = match &cold.producer {
            Some((id, _)) => *id != self.id,
            None => true,
        };
        if stale {
            self.init_producer(cold, hot, ticks, tid);
        } else {
            self.ship_and_renew(cold, hot, ticks, tid);
        }
        assert(open_batch(*hot, *cold).events =~= Seq::empty());
        cold.write(hot, PackedEvent { delta_ticks: 0, code_kind });
        assert(open_batch(*hot, *cold).events =~= seq![PackedEvent { delta_ticks: 0, code_kind }]);
    }

    /// Connects a thread to this queue, with an empty batch.
    fn init_producer(&mut self, cold: &mut Cold, hot: &mut Hot, ticks: u64, tid: u32)
        ensures
            fits(*final(hot), *final(cold)),
            final(cold).batch is Some,
            final(cold).batch->0@ == (BatchView { base_ticks: ticks, tid, events: Seq::empty() }),
            final(cold).producer is Some,
            queue_of(*final(cold)) == old(self)@.id,
            *final(hot) == armed(
                Hot {
                    queue_id: old(self)@.id,
                    clock_direct: old(self)@.clock.rate() is Some,
                    ..*old(hot)
                },
                final(cold).batch,
            ),
            final(self)@ == (QueueView {
                outlets: old(self)@.outlets.push(
                    Outlet { lane: way_of(*final(cold)).lane, taken: 0, dry: false },
                ),
                ..old(self)@
            }),
            way_of(*final(cold)).sent == 0,
            way_of(*final(cold)).capacity == BATCHES_CAPACITY,
    {
        let (prod, cons) = new_lane(BATCHES_CAPACITY);
        self.consumers.push(cons);
        cold.producer = Some((self.id, prod));
        cold.batch = Some(Box::new(EventBatch::with_capacity(BATCH_N, ticks, tid)));
        hot.queue_id = self.id;
        hot.clock_direct = self.clock.is_direct();
        cold.arm(hot);
        assert(self@.outlets =~= old(self)@.outlets.push(
            Outlet { lane: way_of(*cold).lane, taken: 0, dry: false },
        ));
    }

    /// Sends off the open batch of a connected thread, and starts an empty one.
    fn ship_and_renew(&mut self, cold: &mut Cold, hot: &mut Hot, base_ticks: u64, tid: u32)
        requires
            fits(*old(hot), *old(cold)),
            old(cold).producer is Some,
        ensures
            fits(*final(hot), *final(cold)),
            final(cold).batch is Some,
            final(cold).batch->0@ == (BatchView { base_ticks, tid, events: Seq::empty() }),
            final(cold).producer is Some,
            queue_of(*final(cold)) == queue_of(*old(cold)),
            *final(hot) == armed(*old(hot), final(cold).batch),
            ({
                let full = open_batch(*old(hot), *old(cold));
                let before = way_of(*old(cold));
                let after = way_of(*final(cold));
                &&& after.lane == before.lane
                &&& after.capacity == before.capacity
                &&& {
                    ||| {
                        &&& final(self)@ == old(self)@
                        &&& after.sent == before.sent + 1
                        &&& before.lane[before.sent as int] == full
                    }
                    ||| {
                        &&& final(self)@ == (QueueView {
                            dropped: low64(old(self)@.dropped + full.events.len()),
                            ..old(self)@
                        })
                        &&& after.sent == before.sent
                        &&& before.sent >= before.capacity
                    }
                }
            }),
    {
        cold.commit(hot);
        match (cold.batch.take(), cold.producer.take()) {
            (Some(full), Some((id, mut end))) => {
                let dropped: usize = full.events.len();
                match send(&mut end, full) {
                    Err(returned) => {
                        self.record_dropped(dropped as u64);
                        let mut reused = returned;
                        reused.events.clear();
                        reused.base_ticks = base_ticks;
                        reused.tid = tid;
                        cold.batch = Some(reused);
                    },
                    Ok(()) => {
                        cold.batch = Some(
                            Box::new(EventBatch::with_capacity(BATCH_N, base_ticks, tid)),
                        );
                    },
                }
                cold.producer = Some((id, end));
            },
            _ => {
                assert(false);
            },
        }
        cold.arm(hot);
    }

    /// How many events have been lost to full lanes.
    pub fn dropped(&self) -> (n: u64)
        ensures
            n == self@.dropped,
    {
        self.dropped
    }

    pub fn record_dropped(&mut self, events: u64)
        ensures
            final(self)@ == (QueueView {
                dropped: low64(old(self)@.dropped + events),
                ..old(self)@
            }),
    {
        self.dropped = self.dropped.wrapping_add(events);
    }

    /// Says that nothing more will be sent.
    pub fn close(&mut self)
        ensures
            final(self)@ == (QueueView { closed: true, ..old(self)@ }),
    {
        self.closed = true;
    }

    pub fn is_closed(&self) -> (closed: bool)
        ensures
            closed == self@.closed,
    {
        self.closed
    }

    /// The reading before which no event is held any more, as last published.
    pub fn recycle_floor(&self) -> (floor: u64)
        ensures
            floor == self@.recycle_floor,
    {
        self.recycle_floor
    }

    pub fn set_recycle_floor(&mut self, floor: u64)
        ensures
            final(self)@ == (QueueView { recycle_floor: floor, ..old(self)@ }),
    {
        self.recycle_floor = floor;
    }
}

proof fn lemma_later_lanes_add_nothing(before: Seq<Outlet>, after: Seq<Outlet>, k: int)
    requires
        0 <= k <= before.len() == after.len(),
        forall|j: int| k <= j < before.len() ==> #[trigger] after[j] == before[j],
    ensures
        drained(before, after) == drained(before.take(k), after.take(k)),
    decreases before.len(),
{
    if k == before.len() {
        assert(before.take(k) =~= before);
        assert(after.take(k) =~= after);
    } else {
        let rest = before.drop_last();
        let left = after.drop_last();
        lemma_later_lanes_add_nothing(rest, left, k);
        assert(after[before.len() - 1] == before[before.len() - 1]);
        assert(rest.take(k) =~= before.take(k));
        assert(left.take(k) =~= after.take(k));
        assert(drained(rest, left) + Seq::empty() =~= drained(rest, left));
    }
}

/// One more batch out of the lane in turn comes behind those before it.
proof fn lemma_one_more(before: Seq<Outlet>, after: Seq<Outlet>, k: int, next: Outlet)
    requires
        0 <= k < before.len() == after.len(),
        has_advanced(before[k], after[k]),
        forall|j: int| k < j < before.len() ==> #[trigger] after[j] == before[j],
        next.lane == after[k].lane,
        next.taken == after[k].taken + 1,
        after[k].taken < after[k].lane.len(),
    ensures
        drained(before, after.update(k, next)) == drained(before, after).push(
            after[k].lane[after[k].taken as int],
        ),
{
    let later = after.update(k, next);
    lemma_later_lanes_add_nothing(before, after, k + 1);
    lemma_later_lanes_add_nothing(before, later, k + 1);
    assert(before.take(k + 1).drop_last() =~= before.take(k));
    assert(after.take(k + 1).drop_last() =~= after.take(k));
    assert(later.take(k + 1).drop_last() =~= after.take(k));
    assert(later.take(k + 1).last() == next);
    let b = after[k].lane[after[k].taken as int];
    assert(came_out(before[k], next) =~= came_out(before[k], after[k]).push(b));
    let base = drained(before.take(k), after.take(k));
    assert(base + came_out(before[k], after[k]).push(b) =~= (base + came_out(
        before[k],
        after[k],
    )).push(b));
}

proof fn lemma_same_lanes(before: Seq<Outlet>, after: Seq<Outlet>, k: int, dry: bool)
    requires
        0 <= k < before.len() == after.len(),
    ensures
        drained(before, after.update(k, Outlet { dry, ..after[k] })) == drained(before, after),
    decreases before.len(),
{
    let later = after.update(k, Outlet { dry, ..after[k] });
    if k < before.len() - 1 {
        lemma_same_lanes(before.drop_last(), after.drop_last(), k, dry);
        assert(later.drop_last() =~= after.drop_last().update(k, Outlet { dry, ..after[k] }));
    } else {
        assert(later.drop_last() =~= after.drop_last());
    }
}

proof fn lemma_nothing_drained(outlets: Seq<Outlet>)
    ensures
        drained(outlets, outlets) == Seq::<BatchView>::empty(),
{
    lemma_later_lanes_add_nothing(outlets, outlets, 0);
    assert(outlets.take(0) =~= Seq::empty());
}

/// Whether reading stopped where it had to: at the first batch with which the
/// events read come to the limit, or else when all lanes were dry.
pub open spec fn stopped_at_events(
    batches: Seq<BatchView>,
    after: Seq<Outlet>,
    limit: Option<usize>,
) -> bool {
    match limit {
        None => all_dry(after),
        Some(limit) => {
            &&& batches.len() == 0 || total_events(batches) < limit ==> all_dry(after)
            &&& batches.len() > 1 ==> total_events(batches.drop_last()) < limit
        },
    }
}

/// Whether reading stopped where it had to: at the batch with which those read come
/// to the limit, or else when all lanes were dry.
pub open spec fn stopped_at_batches(count: nat, after: Seq<Outlet>, limit: usize) -> bool {
    &&& count == 0 || count < limit ==> all_dry(after)
    &&& count > 1 ==> count <= limit
}

impl EventQueue {
    /// Reads batches from the lanes in turn and decodes them, until it has come to
    /// `limit` events or there are no more.
    fn drain_events(&mut self, out: &mut Vec<Event>, limit: Option<usize>) -> (got: usize)
        ensures
            final(self)@ == (QueueView { outlets: final(self)@.outlets, ..old(self)@ }),
            in_turn(old(self)@.outlets, final(self)@.outlets),
            ({
                let batches = drained(old(self)@.outlets, final(self)@.outlets);
                &&& final(out)@ == old(out)@ + decoded_batches(old(self)@.clock, batches)
                &&& got == total_events(batches)
                &&& stopped_at_events(batches, final(self)@.outlets, limit)
            }),
    {
        let ghost before = self@.outlets;
        let ghost start = out@;
        let n: usize = self.consumers.len();
        let mut got: usize = 0;
        proof {
            lemma_nothing_drained(before);
            assert(out@ =~= start + decoded_batches(self@.clock, Seq::empty()));
        }
        for k in 0..n
            invariant
                n == self@.outlets.len() == before.len(),
                self@.outlets == outlets_of(self.consumers@),
                self.consumers@.len() == n,
                before == old(self)@.outlets,
                start == old(out)@,
                self@ == (QueueView { outlets: self@.outlets, ..old(self)@ }),
                forall|i: int|
                    0 <= i < k ==> has_advanced(before[i], self@.outlets[i]) && (
                    #[trigger] self@.outlets[i]).dry,
                forall|i: int| k <= i < n ==> #[trigger] self@.outlets[i] == before[i],
                out@ == start + decoded_batches(
                    self@.clock,
                    drained(before, self@.outlets),
                ),
                got == total_events(drained(before, self@.outlets)),
                drained(before, self@.outlets).len() > 0 ==> (limit matches Some(l) ==> got < l),
        {
            let mut more: bool = true;
            while more
                invariant
                    k < n == self@.outlets.len() == before.len(),
                    self@.outlets == outlets_of(self.consumers@),
                    self.consumers@.len() == n,
                    before == old(self)@.outlets,
                    start == old(out)@,
                    self@ == (QueueView { outlets: self@.outlets, ..old(self)@ }),
                    forall|i: int|
                        0 <= i < k ==> has_advanced(before[i], self@.outlets[i]) && (
                        #[trigger] self@.outlets[i]).dry,
                    has_advanced(before[k as int], self@.outlets[k as int]),
                    !more ==> self@.outlets[k as int].dry,
                    forall|i: int| k < i < n ==> #[trigger] self@.outlets[i] == before[i],
                    out@ == start + decoded_batches(
                        self@.clock,
                        drained(before, self@.outlets),
                    ),
                    got == total_events(drained(before, self@.outlets)),
                    drained(before, self@.outlets).len() > 0 ==> (limit matches Some(l) ==> got
                        < l),
                decreases
                        self@.outlets[k as int].lane.len() - self@.outlets[k as int].taken + if more {
                            1int
                        } else {
                            0int
                        },
            {
                let ghost after = self@.outlets;
                let ghost so_far = drained(before, after);
                match receive(&mut self.consumers[k]) {
                    None => {
                        more = false;
                        proof {
                            assert(self@.outlets =~= after.update(
                                k as int,
                                Outlet { dry: true, ..after[k as int] },
                            ));
                            lemma_same_lanes(before, after, k as int, true);
                        }
                    },
                    Some(batch) => {
                        let ghost next = self@.outlets[k as int];
                        proof {
                            assert(self@.outlets =~= after.update(k as int, next));
                            lemma_one_more(before, after, k as int, next);
                            lemma_push_events(so_far, batch@);
                            assert(so_far.push(batch@).drop_last() =~= so_far);
                        }
                        batch.decode_into(&self.clock, out);
                        proof {
                            assert(out@ =~= start + (decoded_batches(self@.clock, so_far)
                                + decoded_batch(self@.clock, batch@)));
                            assert(out@.len() == start.len() + decoded_batches(
                                self@.clock,
                                so_far.push(batch@),
                            ).len());
                            lemma_decoded_len(self@.clock, so_far.push(batch@));
                            assert(out@.len() == out.len());
                        }
                        got = got + batch.events.len();
                        let stop: bool = match limit {
                            Some(limit) => got >= limit,
                            None => false,
                        };
                        if stop {
                            return got;
                        }
                    },
                }
            }
        }
        proof {
            let batches = drained(before, self@.outlets);
            if batches.len() > 0 {
                lemma_push_events(batches.drop_last(), batches.last());
                assert(batches =~= batches.drop_last().push(batches.last()));
            }
        }
        got
    }

    /// Reads what the lanes hold, until it has come to `limit` events.
    pub fn drain_nonblocking(&mut self, out: &mut Vec<Event>, limit: usize) -> (got: usize)
        ensures
            final(self)@ == (QueueView { outlets: final(self)@.outlets, ..old(self)@ }),
            in_turn(old(self)@.outlets, final(self)@.outlets),
            ({
                let batches = drained(old(self)@.outlets, final(self)@.outlets);
                &&& final(out)@ == old(out)@ + decoded_batches(old(self)@.clock, batches)
                &&& got == total_events(batches)
                &&& stopped_at_events(batches, final(self)@.outlets, Some(limit))
            }),
    {
        self.drain_events(out, Some(limit))
    }
}

impl EventQueue {
    /// Reads batches from the lanes in turn, until it has come to `limit` of them.
    pub fn drain_batches(&mut self, out: &mut Vec<Box<EventBatch>>, limit: usize) -> (got: usize)
        ensures
            final(self)@ == (QueueView { outlets: final(self)@.outlets, ..old(self)@ }),
            in_turn(old(self)@.outlets, final(self)@.outlets),
            ({
                let batches = drained(old(self)@.outlets, final(self)@.outlets);
                &&& boxed_views(final(out)@) == boxed_views(old(out)@) + batches
                &&& got == batches.len()
                &&& stopped_at_batches(got as nat, final(self)@.outlets, limit)
            }),
    {
        let ghost before = self@.outlets;
        let ghost start = boxed_views(out@);
        let n: usize = self.consumers.len();
        let mut got: usize = 0;
        proof {
            lemma_nothing_drained(before);
            assert(start =~= start + Seq::empty());
        }
        for k in 0..n
            invariant
                n == self@.outlets.len() == before.len(),
                self@.outlets == outlets_of(self.consumers@),
                self.consumers@.len() == n,
                before == old(self)@.outlets,
                start == boxed_views(old(out)@),
                self@ == (QueueView { outlets: self@.outlets, ..old(self)@ }),
                forall|i: int|
                    0 <= i < k ==> has_advanced(before[i], self@.outlets[i]) && (
                    #[trigger] self@.outlets[i]).dry,
                forall|i: int| k <= i < n ==> #[trigger] self@.outlets[i] == before[i],
                boxed_views(out@) == start + drained(before, self@.outlets),
                got == drained(before, self@.outlets).len(),
                got > 0 ==> got < limit,
        {
            let mut more: bool = true;
            while more
                invariant
                    k < n == self@.outlets.len() == before.len(),
                    self@.outlets == outlets_of(self.consumers@),
                    self.consumers@.len() == n,
                    before == old(self)@.outlets,
                    start == boxed_views(old(out)@),
                    self@ == (QueueView { outlets: self@.outlets, ..old(self)@ }),
                    forall|i: int|
                        0 <= i < k ==> has_advanced(before[i], self@.outlets[i]) && (
                        #[trigger] self@.outlets[i]).dry,
                    has_advanced(before[k as int], self@.outlets[k as int]),
                    !more ==> self@.outlets[k as int].dry,
                    forall|i: int| k < i < n ==> #[trigger] self@.outlets[i] == before[i],
                    boxed_views(out@) == start + drained(before, self@.outlets),
                    got == drained(before, self@.outlets).len(),
                    got > 0 ==> got < limit,
                decreases
                        self@.outlets[k as int].lane.len() - self@.outlets[k as int].taken + if more {
                            1int
                        } else {
                            0int
                        },
            {
                let ghost after = self@.outlets;
                let ghost so_far = drained(before, after);
                match receive(&mut self.consumers[k]) {
                    None => {
                        more = false;
                        proof {
                            assert(self@.outlets =~= after.update(
                                k as int,
                                Outlet { dry: true, ..after[k as int] },
                            ));
                            lemma_same_lanes(before, after, k as int, true);
                        }
                    },
                    Some(batch) => {
                        let ghost next = self@.outlets[k as int];
                        let ghost held = boxed_views(out@);
                        proof {
                            assert(self@.outlets =~= after.update(k as int, next));
                            lemma_one_more(before, after, k as int, next);
                        }
                        out.push(batch);
                        proof {
                            assert(boxed_views(out@) =~= held.push(batch@));
                            assert(held.push(batch@) =~= start + so_far.push(batch@));
                            assert(boxed_views(out@).len() == out.len());
                        }
                        got = got + 1;
                        if got >= limit {
                            return got;
                        }
                    },
                }
            }
        }
        got
    }

    /// One attempt of a reader to get events. Where the queue is closed, this is
    /// also the last of them: what is still in the lanes comes out now.
    pub fn drain_blocking(&mut self, out: &mut Vec<Event>) -> (outcome: Drained)
        ensures
            final(self)@ == (QueueView { outlets: final(self)@.outlets, ..old(self)@ }),
            exists|mid: Seq<Outlet>|
                {
                    let first = drained(old(self)@.outlets, mid);
                    let rest = drained(mid, final(self)@.outlets);
                    let clock = old(self)@.clock;
                    &&& #[trigger] in_turn(old(self)@.outlets, mid)
                    &&& stopped_at_events(first, mid, Some(DRAIN_EVENTS))
                    &&& if total_events(first) > 0 {
                        &&& final(self)@.outlets == mid
                        &&& final(out)@ == old(out)@ + decoded_batches(clock, first)
                        &&& outcome is Events
                    } else if old(self)@.closed {
                        &&& in_turn(mid, final(self)@.outlets)
                        &&& all_dry(final(self)@.outlets)
                        &&& final(out)@ == old(out)@ + decoded_batches(clock, rest)
                        &&& outcome == (if final(out)@.len() == 0 {
                            Drained::End
                        } else {
                            Drained::Events
                        })
                    } else {
                        &&& final(self)@.outlets == mid
                        &&& all_dry(mid)
                        &&& final(out)@ == old(out)@
                        &&& outcome is Wait
                    }
                },
    {
        let got: usize = self.drain_events(out, Some(DRAIN_EVENTS));
        let ghost mid = self@.outlets;
        let ghost first = drained(old(self)@.outlets, mid);
        assert(in_turn(old(self)@.outlets, mid));
        if got > 0 {
            return Drained::Events;
        }
        proof {
            lemma_decoded_len(self@.clock, first);
            assert(out@ =~= old(out)@);
        }
        if self.closed {
            let _ = self.drain_events(out, None);
            if out.len() == 0 {
                return Drained::End;
            }
            return Drained::Events;
        }
        Drained::Wait
    }
}

pub proof fn lemma_decoded_len(clock: Clock, batches: Seq<BatchView>)
    ensures
        decoded_batches(clock, batches).len() == total_events(batches),
    decreases batches.len(),
{
    if batches.len() > 0 {
        lemma_decoded_len(clock, batches.drop_last());
        lemma_push_events(batches.drop_last(), batches.last());
        assert(batches =~= batches.drop_last().push(batches.last()));
    }
}

/// The events read out of some batches are their readings, each at the time it was
/// taken and with the code and kind it was taken for.
pub proof fn what_is_read_is_what_was_recorded(clock: Clock, batches: Seq<BatchView>, i: int)
    requires
        0 <= i < decoded_batches(clock, batches).len(),
    ensures
        decoded_batches(clock, batches).len() == readings(batches).len(),
        decoded_batches(clock, batches)[i].ts_ns == clock.ns_at(readings(batches)[i].0),
        decoded_batches(clock, batches)[i].code_kind == readings(batches)[i].1,
    decreases batches.len(),
{
    let rest = batches.drop_last();
    lemma_readings_len(batches);
    lemma_readings_len(rest);
    lemma_decoded_len(clock, batches);
    lemma_decoded_len(clock, rest);
    if i < decoded_batches(clock, rest).len() {
        what_is_read_is_what_was_recorded(clock, rest, i);
    }
}

pub proof fn lemma_readings_len(batches: Seq<BatchView>)
    ensures
        readings(batches).len() == total_events(batches),
    decreases batches.len(),
{
    if batches.len() > 0 {
        lemma_readings_len(batches.drop_last());
        lemma_push_events(batches.drop_last(), batches.last());
        assert(batches =~= batches.drop_last().push(batches.last()));
    }
}

/// The id that a queue gets as the `n`-th one.
pub open spec fn nth_id(n: nat) -> u64 {
    low64(1 + n as int)
}

/// No queue has the id that a thread starts with, and no two have the same one,
/// until the ids run out.
pub proof fn queue_ids_are_never_reused(m: nat, n: nat)
    requires
        m < n < 0xffff_ffff_ffff_ffff,
    ensures
        nth_id(m) != 0,
        nth_id(n) != 0,
        nth_id(m) != nth_id(n),
        low64(nth_id(m) + 1) == nth_id(m + 1),
{
}

/// A thread that records an event has it as the last one of its open batch, at the reading
/// it was taken at. The batch that was open takes it where it has room, is of the same run,
/// and starts no further back than four bytes can say; else a new one does, which is of the
/// thread and starts at that reading.
pub proof fn what_is_taken_is_the_last_of_the_open_batch(
    hot: Hot,
    cold: Cold,
    queue: QueueView,
    what: Taking,
    after_hot: Hot,
    after: Cold,
    left: QueueView,
)
    requires
        fits(hot, cold),
        took(hot, cold, queue, what, after_hot, after, left),
    ensures
        ({
            let b = open_batch(after_hot, after);
            let here = open_batch(hot, cold);
            let away = (what.ticks - hot.base_ticks) % 0x1_0000_0000_0000_0000;
            &&& b.events.len() > 0
            &&& (b.base_ticks + b.events.last().delta_ticks) % 0x1_0000_0000_0000_0000
                == what.ticks
            &&& b.events.last().code_kind == what.word
            &&& after_hot.cursor == b.events.len()
            &&& after_hot.base_ticks == b.base_ticks
            &&& if hot.cursor < hot.end && hot.queue_id == what.run && away < 0x1_0000_0000 {
                &&& b.base_ticks == here.base_ticks
                &&& b.tid == here.tid
                &&& b.events.len() == here.events.len() + 1
                &&& b.events.take(here.events.len() as int) == here.events
                &&& left == queue
                &&& after_hot.epoch == hot.epoch
            } else {
                &&& b.base_ticks == what.ticks
                &&& b.tid == what.tid
                &&& b.events.len() == 1
                &&& after_hot.epoch == (hot.epoch + 2) % 0x1_0000_0000_0000_0000
            }
        }),
{
    if goes_straight_in(hot, what.run, what.ticks) {
        let here = open_batch(hot, cold);
        let b = open_batch(after_hot, after);
        assert(b.events.take(here.events.len() as int) =~= here.events);
    }
}

/// A thread that records an event loses none that it had, or its whole open batch, and that
/// only where its lane is full. What is lost is counted.
pub proof fn what_is_lost_is_counted(
    hot: Hot,
    cold: Cold,
    queue: QueueView,
    what: Taking,
    after_hot: Hot,
    after: Cold,
    left: QueueView,
)
    requires
        fits(hot, cold),
        took(hot, cold, queue, what, after_hot, after, left),
        cold.producer is Some,
        queue_of(cold) == queue.id,
    ensures
        ({
            let here = way_of(cold);
            let there = way_of(after);
            let open = open_batch(hot, cold);
            ||| left.dropped == queue.dropped && there.sent == here.sent && open_batch(
                after_hot,
                after,
            ).events.len() == open.events.len() + 1
            ||| left.dropped == queue.dropped && there.sent == here.sent + 1
                && there.lane[here.sent as int] == open
            ||| left.dropped == (queue.dropped + open.events.len()) % 0x1_0000_0000_0000_0000
                && there.sent == here.sent && here.sent >= here.capacity
        }),
        left.id == queue.id,
        left.clock == queue.clock,
        left.outlets == queue.outlets,
        left.closed == queue.closed,
        left.recycle_floor == queue.recycle_floor,
{
}

/// Each event that is read out of some batches is of the thread of the batch it was in.
pub proof fn what_is_read_is_of_its_thread(
    clock: Clock,
    batches: Seq<BatchView>,
    tid: u32,
    i: int,
)
    requires
        0 <= i < decoded_batches(clock, batches).len(),
        forall|k: int| 0 <= k < batches.len() ==> (#[trigger] batches[k]).tid == tid,
    ensures
        decoded_batches(clock, batches)[i].tid == tid,
    decreases batches.len(),
{
    let rest = batches.drop_last();
    if i < decoded_batches(clock, rest).len() {
        assert forall|k: int| 0 <= k < rest.len() implies (#[trigger] rest[k]).tid == tid by {
            assert(rest[k] == batches[k]);
        }
        what_is_read_is_of_its_thread(clock, rest, tid, i);
    }
}

/// Ids are handed out one after the other.
pub proof fn ids_follow_one_another(ids: &mut Ids, id: u64, fresh: Ids)
    requires
        call_ensures(Ids::take, (ids,), id),
        call_ensures(Ids::new, (), fresh),
    ensures
        id == old(ids).upcoming(),
        final(ids).upcoming() == (id + 1) % 0x1_0000_0000_0000_0000,
        fresh.upcoming() == 1,
{
}

/// What is lost is counted, a queue that is closed says so, and a floor is published as it
/// is; none of them changes anything else of a queue.
pub proof fn a_queue_says_what_it_was_told(
    counted: &mut EventQueue,
    events: u64,
    closed: &mut EventQueue,
    floored: &mut EventQueue,
    floor: u64,
)
    requires
        call_ensures(EventQueue::record_dropped, (counted, events), ()),
        call_ensures(EventQueue::close, (closed,), ()),
        call_ensures(EventQueue::set_recycle_floor, (floored, floor), ()),
    ensures
        final(counted)@.dropped == (old(counted)@.dropped + events) % 0x1_0000_0000_0000_0000,
        final(counted)@.closed == old(counted)@.closed,
        final(counted)@.outlets == old(counted)@.outlets,
        final(counted)@.recycle_floor == old(counted)@.recycle_floor,
        final(closed)@.closed,
        final(closed)@.dropped == old(closed)@.dropped,
        final(closed)@.outlets == old(closed)@.outlets,
        final(closed)@.recycle_floor == old(closed)@.recycle_floor,
        final(floored)@.recycle_floor == floor,
        final(floored)@.dropped == old(floored)@.dropped,
        final(floored)@.closed == old(floored)@.closed,
        final(floored)@.outlets == old(floored)@.outlets,
{
}

/// A batch weighs forty bytes and eight for each event, ends with its last event, and is
/// decoded event by event: each of the thread of the batch, at the time of its reading, and
/// with what happened.
pub proof fn a_batch_is_decoded_event_by_event(
    batch: &EventBatch,
    n: usize,
    ticks: u64,
    clock: &Clock,
    out: &mut Vec<Event>,
    i: int,
    reading: u64,
)
    requires
        call_ensures(EventBatch::bytes, (batch,), n),
        call_ensures(EventBatch::end_ticks, (batch,), ticks),
        call_ensures(EventBatch::decode_into, (batch, clock, out), ()),
        0 <= i < batch.events@.len(),
        reading == (batch.base_ticks + batch.events@[i].delta_ticks) % 0x1_0000_0000_0000_0000,
    ensures
        40 + 8 * batch.events@.len() <= usize::MAX ==> n == 40 + 8 * batch.events@.len(),
        i == batch.events@.len() - 1 ==> ticks == reading,
        final(out)@.len() == old(out)@.len() + batch.events@.len(),
        final(out)@.take(old(out)@.len() as int) == old(out)@,
        final(out)@[old(out)@.len() + i].ts_ns == clock.ns_at(reading),
        final(out)@[old(out)@.len() + i].tid == batch.tid,
        final(out)@[old(out)@.len() + i].code_kind == batch.events@[i].code_kind,
{
    assert(final(out)@.take(old(out)@.len() as int) =~= old(out)@);
}

/// An event that a thread records is the last of its open batch: at the reading it was taken
/// at, of the code object and of the kind that it is of. It goes into the batch that is open
/// where that has room, is of the run, and starts less than four bytes of ticks before.
pub proof fn an_event_is_recorded_as_it_happened(
    queue: &mut EventQueue,
    hot: &mut Hot,
    cold: &mut Cold,
    run: u64,
    ticks: u64,
    tid: u32,
    code_id: u32,
    kind: EventKind,
)
    requires
        fits(*old(hot), *old(cold)),
        call_ensures(
            EventQueue::push_with_ctx,
            (queue, hot, cold, run, ticks, tid, code_id, kind),
            (),
        ),
    ensures
        ({
            let b = open_batch(*final(hot), *final(cold));
            let here = open_batch(*old(hot), *old(cold));
            let away = (ticks - old(hot).base_ticks) % 0x1_0000_0000_0000_0000;
            &&& b.events.len() > 0
            &&& (b.base_ticks + b.events.last().delta_ticks) % 0x1_0000_0000_0000_0000 == ticks
            &&& kind_of_word(b.events.last().code_kind) == kind
            &&& b.events.last().code_kind % 0x100_0000 == code_id % 0x100_0000
            &&& if old(hot).cursor < old(hot).end && old(hot).queue_id == run && away
                < 0x1_0000_0000 {
                &&& b.tid == here.tid
                &&& b.events.drop_last() == here.events
                &&& final(queue)@ == old(queue)@
            } else {
                &&& b.tid == tid
                &&& b.base_ticks == ticks
                &&& b.events.len() == 1
            }
        }),
        final(hot).last_code_key == old(hot).last_code_key,
        final(hot).last_code_id == old(hot).last_code_id,
        final(hot).ensured == old(hot).ensured,
        final(hot).name_retries == old(hot).name_retries,
{
    let what = Taking { run, ticks, tid, word: packed_word(code_id, kind) };
    what_is_taken_is_the_last_of_the_open_batch(
        *old(hot),
        *old(cold),
        old(queue)@,
        what,
        *final(hot),
        *final(cold),
        final(queue)@,
    );
    let b = open_batch(*final(hot), *final(cold));
    let here = open_batch(*old(hot), *old(cold));
    if b.events.len() == here.events.len() + 1 {
        assert(b.events.drop_last() =~= b.events.take(here.events.len() as int));
    }
}

/// What comes out of a queue is what was sent, lane by lane and in order, decoded by the
/// queue's clock. The queue says the same of itself as before.
pub proof fn what_is_drained_was_sent(
    queue: &mut EventQueue,
    out: &mut Vec<Event>,
    limit: usize,
    got: usize,
)
    requires
        call_ensures(EventQueue::drain_nonblocking, (queue, out, limit), got),
    ensures
        ({
            let came = drained(old(queue)@.outlets, final(queue)@.outlets);
            &&& final(out)@.take(old(out)@.len() as int) == old(out)@
            &&& final(out)@.skip(old(out)@.len() as int) == decoded_batches(
                old(queue)@.clock,
                came,
            )
            &&& final(out)@.len() == old(out)@.len() + got
            &&& total_events(came) == got
        }),
        final(queue)@.dropped == old(queue)@.dropped,
        final(queue)@.closed == old(queue)@.closed,
        final(queue)@.recycle_floor == old(queue)@.recycle_floor,
{
    let came = drained(old(queue)@.outlets, final(queue)@.outlets);
    lemma_decoded_len(old(queue)@.clock, came);
    assert(final(out)@.take(old(out)@.len() as int) =~= old(out)@);
    assert(final(out)@.skip(old(out)@.len() as int) =~= decoded_batches(
        old(queue)@.clock,
        came,
    ));
}

/// A thread that records for a queue that it is not connected to is connected to it: a lane
/// for 64 batches is added to those of the queue, with nothing in it yet. One that is
/// connected adds no lane.
pub proof fn a_thread_is_connected_once(
    queue: &mut EventQueue,
    hot: &mut Hot,
    cold: &mut Cold,
    run: u64,
    ticks: u64,
    tid: u32,
    code_id: u32,
    kind: EventKind,
)
    requires
        fits(*old(hot), *old(cold)),
        call_ensures(
            EventQueue::push_with_ctx,
            (queue, hot, cold, run, ticks, tid, code_id, kind),
            (),
        ),
        old(hot).cursor >= old(hot).end || old(hot).queue_id != run,
    ensures
        final(cold).producer is Some,
        queue_of(*final(cold)) == old(queue)@.id,
        final(hot).end == 1024,
        final(hot).cursor == 1,
        old(cold).producer is None || queue_of(*old(cold)) != old(queue)@.id ==> {
            &&& final(hot).queue_id == old(queue)@.id
            &&& final(hot).clock_direct == (old(queue)@.clock.rate() is Some)
            &&& final(queue)@.outlets.drop_last() == old(queue)@.outlets
            &&& final(queue)@.outlets.len() == old(queue)@.outlets.len() + 1
            &&& final(queue)@.outlets.last().lane == way_of(*final(cold)).lane
            &&& final(queue)@.outlets.last().taken == 0
            &&& way_of(*final(cold)).sent == 0
            &&& way_of(*final(cold)).capacity == 64
            &&& final(queue)@.dropped == old(queue)@.dropped
        },
        old(cold).producer is Some && queue_of(*old(cold)) == old(queue)@.id
            ==> final(queue)@.outlets == old(queue)@.outlets,
{
    if is_stale(*old(cold), old(queue)@.id) {
        assert(final(queue)@.outlets.drop_last() =~= old(queue)@.outlets);
    }
}

/// A blocked reader is told of the end only where the queue is closed and nothing is left,
/// and to wait only where it is open and nothing has come; what it is given stands behind
/// what it had.
pub proof fn a_blocked_reader_is_told_of_the_end(
    queue: &mut EventQueue,
    out: &mut Vec<Event>,
    outcome: Drained,
)
    requires
        call_ensures(EventQueue::drain_blocking, (queue, out), outcome),
    ensures
        outcome is End ==> old(queue)@.closed && final(out)@.len() == 0 && all_dry(
            final(queue)@.outlets,
        ),
        outcome is Wait ==> !old(queue)@.closed && final(out)@ == old(out)@ && all_dry(
            final(queue)@.outlets,
        ),
        old(out)@.is_prefix_of(final(out)@),
        !old(queue)@.closed && final(out)@.len() - old(out)@.len() > 0 && final(out)@.len()
            - old(out)@.len() < 4096 ==> all_dry(final(queue)@.outlets),
        final(queue)@.dropped == old(queue)@.dropped,
        final(queue)@.closed == old(queue)@.closed,
{
    let mid = choose|mid: Seq<Outlet>|
        {
            let first = drained(old(queue)@.outlets, mid);
            let rest = drained(mid, final(queue)@.outlets);
            let clock = old(queue)@.clock;
            &&& #[trigger] in_turn(old(queue)@.outlets, mid)
            &&& stopped_at_events(first, mid, Some(DRAIN_EVENTS))
            &&& if total_events(first) > 0 {
                &&& final(queue)@.outlets == mid
                &&& final(out)@ == old(out)@ + decoded_batches(clock, first)
                &&& outcome is Events
            } else if old(queue)@.closed {
                &&& in_turn(mid, final(queue)@.outlets)
                &&& all_dry(final(queue)@.outlets)
                &&& final(out)@ == old(out)@ + decoded_batches(clock, rest)
                &&& outcome == (if final(out)@.len() == 0 {
                    Drained::End
                } else {
                    Drained::Events
                })
            } else {
                &&& final(queue)@.outlets == mid
                &&& all_dry(mid)
                &&& final(out)@ == old(out)@
                &&& outcome is Wait
            }
        };
    lemma_decoded_len(old(queue)@.clock, drained(old(queue)@.outlets, mid));
}

/// Batches come out of a queue as they were sent, lane by lane and in order, until there
/// are as many as were asked for or none is left.
pub proof fn batches_come_out_as_they_were_sent(
    queue: &mut EventQueue,
    out: &mut Vec<Box<EventBatch>>,
    limit: usize,
    got: usize,
)
    requires
        call_ensures(EventQueue::drain_batches, (queue, out, limit), got),
    ensures
        final(out)@.len() == old(out)@.len() + got,
        boxed_views(final(out)@).skip(old(out)@.len() as int) == drained(
            old(queue)@.outlets,
            final(queue)@.outlets,
        ),
        got < limit ==> all_dry(final(queue)@.outlets),
        limit > 0 ==> got <= limit,
        final(queue)@.dropped == old(queue)@.dropped,
        final(queue)@.closed == old(queue)@.closed,
{
    let came = drained(old(queue)@.outlets, final(queue)@.outlets);
    assert(boxed_views(final(out)@).len() == final(out)@.len());
    assert(boxed_views(old(out)@).len() == old(out)@.len());
    assert(boxed_views(final(out)@).skip(old(out)@.len() as int) =~= came);
}

proof fn lemma_in_one_turn(before: Seq<Outlet>, after: Seq<Outlet>, k: int)
    requires
        in_turn(before, after),
        0 <= k < before.len(),
        forall|i: int| 0 <= i < before.len() && i != k ==> #[trigger] after[i] == before[i],
    ensures
        drained(before, after) == came_out(before[k], after[k]),
    decreases before.len(),
{
    let (a, b) = (before.drop_last(), after.drop_last());
    let n = before.len() - 1;
    if k == n {
        assert(a =~= b);
        lemma_nothing_drained(a);
        assert(Seq::<BatchView>::empty() + came_out(before[k], after[k]) =~= came_out(
            before[k],
            after[k],
        ));
    } else {
        assert(after[n] == before[n]);
        assert forall|i: int| 0 <= i < a.len() implies has_advanced(#[trigger] a[i], b[i]) by {
            assert(has_advanced(before[i], after[i]));
        }
        assert forall|i: int| 0 <= i < a.len() && i != k implies #[trigger] b[i] == a[i] by {
            assert(after[i] == before[i]);
        }
        assert forall|i: int, j: int|
            0 <= i < j < a.len() && #[trigger] b[j] != a[j] implies (#[trigger] b[i]).dry by {
            assert(after[j] != before[j]);
            assert(after[i].dry);
        }
        lemma_in_one_turn(a, b, k);
        assert(came_out(before[k], after[k]) + Seq::<BatchView>::empty() =~= came_out(
            before[k],
            after[k],
        ));
    }
}

/// Where batches have come out of one lane only, they are the next ones of that lane, none
/// left out and none twice.
pub proof fn a_lane_is_read_where_it_was_left(
    before: Seq<Outlet>,
    after: Seq<Outlet>,
    k: int,
    i: int,
)
    requires
        in_turn(before, after),
        0 <= k < before.len(),
        forall|j: int| 0 <= j < before.len() && j != k ==> #[trigger] after[j] == before[j],
    ensures
        drained(before, after).len() == after[k].taken - before[k].taken,
        0 <= i < after[k].taken - before[k].taken ==> drained(before, after)[i]
            == before[k].lane[before[k].taken + i],
{
    lemma_in_one_turn(before, after, k);
    assert(has_advanced(before[k], after[k]));
}

} // verus!
