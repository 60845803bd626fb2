//! The recorder that keeps the recent past in memory, and cuts dumps out of it.

use crate::event::Event;
use crate::evqueue::{
    all_dry, drained, has_advanced, in_turn, stopped_at_batches, BatchView, EventBatch,
    EventQueue, QueueView,
};
use crate::lane::Outlet;
use crate::lists::{retain, reversed};
use crate::pipeline::{doubled_rest, Pace, FIRST_REST};
use crate::ring::{
    batch_views, boxed_views, events_are_held_or_counted, lemma_push_events, the_oldest_go_first,
    total_events, Ring, RingView,
};
use crate::snapshot::{
    a_reading_of_the_history_is_shown, all_by, assemble, assembled, holds_event, views,
};
use vstd::prelude::*;

verus! {

/// How many batches the recorder takes in at a time.
pub const DRAIN_LIMIT: usize = 256;

/// How many events of a dump are written at a time.
pub const WRITE_CHUNK: usize = 4096;

/// How often the recorder publishes what it no longer holds.
pub const FLOOR_EVERY: u32 = 1024;

/// What the recorder can be asked to do. `D` is what tells the one who asked that
/// it has been done.
pub enum Control<D> {
    /// Hold on to history from a reading on.
    Open { id: u64, start_ticks: u64 },
    /// That history is no longer wanted.
    Cancel { id: u64 },
    /// Write out a stretch of history, which is no longer wanted after that.
    Dump { id: u64, start_ticks: u64, end_ticks: u64, reason: String, done: Option<D> },
    /// Write out all history up to a reading.
    DumpAll { end_ticks: u64, reason: String, done: Option<D> },
}

/// A dump that has been asked for.
pub struct Dump<D> {
    /// The window that the dump ends, if it ends one.
    pub id: Option<u64>,
    pub start_ticks: u64,
    pub end_ticks: u64,
    pub reason: String,
    pub done: Option<D>,
    pub events: Vec<Event>,
    /// How many of the events have been handed out.
    pub written: usize,
}

impl<D> Dump<D> {
    /// The events of the dump.
    pub open spec fn cut(&self) -> Seq<Event> {
        self.events@
    }

    /// How many of them have been handed out.
    pub open spec fn handed_out(&self) -> int {
        self.written as int
    }

    /// The next events to write, where there are any left.
    pub fn next_chunk(&mut self) -> (chunk: Option<Vec<Event>>)
        requires
            old(self).handed_out() <= old(self).cut().len(),
        ensures
            final(self).cut() == old(self).cut(),
            final(self).id == old(self).id,
            final(self).start_ticks == old(self).start_ticks,
            final(self).end_ticks == old(self).end_ticks,
            final(self).reason == old(self).reason,
            final(self).done == old(self).done,
            match chunk {
                None => {
                    &&& old(self).handed_out() == old(self).cut().len()
                    &&& final(self).handed_out() == old(self).handed_out()
                },
                Some(events) => {
                    &&& old(self).handed_out() < old(self).cut().len()
                    &&& final(self).handed_out() == next_stop(
                        old(self).handed_out(),
                        old(self).cut().len() as int,
                    )
                    &&& events@ == old(self).cut().subrange(
                        old(self).handed_out(),
                        final(self).handed_out(),
                    )
                },
            },
    {
        if self.written >= self.events.len() {
            return None;
        }
        let left: usize = self.events.len() - self.written;
        let take: usize = if left < WRITE_CHUNK {
            left
        } else {
            WRITE_CHUNK
        };
        let start: usize = self.written;
        let mut events: Vec<Event> = Vec::new();
        for i in 0..take
            invariant
                start + take <= self.events@.len(),
                events@ =~= self.events@.subrange(start as int, start + i),
        {
            assert(self.events@.len() == self.events.len());
            events.push(self.events[start + i]);
        }
        self.written = start + take;
        Some(events)
    }
}

/// Where a chunk ends that starts at a place.
pub open spec fn next_stop(start: int, len: int) -> int {
    if len - start < WRITE_CHUNK {
        len
    } else {
        start + WRITE_CHUNK
    }
}

/// The chunks of a dump, from a place on.
pub open spec fn chunks_from(events: Seq<Event>, start: int) -> Seq<Seq<Event>>
    decreases events.len() - start,
{
    if start >= events.len() {
        Seq::empty()
    } else {
        let stop = next_stop(start, events.len() as int);
        seq![events.subrange(start, stop)] + chunks_from(events, stop)
    }
}

/// The events of some chunks.
pub open spec fn joined(chunks: Seq<Seq<Event>>) -> Seq<Event>
    decreases chunks.len(),
{
    if chunks.len() == 0 {
        Seq::empty()
    } else {
        chunks[0] + joined(chunks.skip(1))
    }
}

/// The chunks of a dump hold all its events, in order.
pub proof fn chunks_hold_every_event(events: Seq<Event>, start: int)
    requires
        0 <= start <= events.len(),
    ensures
        joined(chunks_from(events, start)) == events.skip(start),
    decreases events.len() - start,
{
    if start < events.len() {
        let stop = next_stop(start, events.len() as int);
        chunks_hold_every_event(events, stop);
        let all = chunks_from(events, start);
        assert(all.skip(1) =~= chunks_from(events, stop));
        assert(events.skip(start) =~= events.subrange(start, stop) + events.skip(stop));
    } else {
        assert(events.skip(start) =~= Seq::empty());
    }
}

/// A ring after it has taken in some batches.
pub open spec fn pushed_all(ring: RingView, batches: Seq<BatchView>) -> RingView
    decreases batches.len(),
{
    if batches.len() == 0 {
        ring
    } else {
        let before = pushed_all(ring, batches.drop_last());
        (RingView { batches: before.batches.push(batches.last()), ..before }).trimmed()
    }
}

proof fn lemma_pushed_all_adds(ring: RingView, first: Seq<BatchView>, second: Seq<BatchView>)
    ensures
        pushed_all(ring, first + second) == pushed_all(pushed_all(ring, first), second),
    decreases second.len(),
{
    if second.len() == 0 {
        assert(first + second =~= first);
    } else {
        lemma_pushed_all_adds(ring, first, second.drop_last());
        assert((first + second).drop_last() =~= first + second.drop_last());
    }
}

/// Takes some batches into a ring, in order.
fn push_all(ring: &mut Ring, batches: Vec<Box<EventBatch>>)
    requires
        old(ring).wf(),
    ensures
        final(ring).wf(),
        final(ring)@ == pushed_all(old(ring)@, boxed_views(batches@)),
{
    let ghost all = boxed_views(batches@);
    let ghost start = ring@;
    let n: usize = batches.len();
    let mut backwards = reversed(batches);
    assert(all.take(0) =~= Seq::empty());
    while backwards.len() > 0
        invariant
            n == all.len(),
            backwards@.len() <= n,
            start == old(ring)@,
            ring.wf(),
            ring@ == pushed_all(start, all.take(n - backwards@.len())),
            forall|i: int|
                0 <= i < backwards@.len() ==> (#[trigger] backwards@[i])@ == all[n - 1 - i],
        decreases backwards@.len(),
    {
        let ghost k = n - backwards@.len();
        assert(all.take(k + 1).drop_last() =~= all.take(k));
        assert(backwards@[backwards@.len() - 1]@ == all[k]);
        match backwards.pop() {
            Some(batch) => {
                ring.push(batch);
            },
            None => {},
        }
    }
    assert(all.take(n as int) =~= all);
}

/// Whether the lanes of a queue have been emptied several times over.
pub open spec fn are_rounds(rounds: Seq<Seq<Outlet>>) -> bool {
    &&& rounds.len() > 0
    &&& forall|i: int, j: int|
        0 <= i && j == i + 1 && j < rounds.len() ==> in_turn(
            #[trigger] rounds[i],
            #[trigger] rounds[j],
        )
}

/// The batches that have come out of the lanes in several rounds.
pub open spec fn round_batches(rounds: Seq<Seq<Outlet>>) -> Seq<BatchView>
    decreases rounds.len(),
{
    if rounds.len() <= 1 {
        Seq::empty()
    } else {
        round_batches(rounds.drop_last()) + drained(rounds[rounds.len() - 2], rounds.last())
    }
}

/// Whether a recorder has gone from one ring and queue to another by taking in what
/// came out of the queue's lanes, until they were dry.
pub open spec fn took_in_all(
    ring: RingView,
    queue: QueueView,
    after_ring: RingView,
    after_queue: QueueView,
) -> bool {
    &&& after_queue == (QueueView { outlets: after_queue.outlets, ..queue })
    &&& all_dry(after_queue.outlets)
    &&& exists|rounds: Seq<Seq<Outlet>>|
        {
            &&& #[trigger] are_rounds(rounds)
            &&& rounds[0] == queue.outlets
            &&& rounds.last() == after_queue.outlets
            &&& after_ring == pushed_all(ring, round_batches(rounds))
        }
}

/// How many batches are still to come out of some lanes.
spec fn to_come(outlets: Seq<Outlet>) -> int
    decreases outlets.len(),
{
    if outlets.len() == 0 {
        0
    } else {
        let o = outlets.last();
        to_come(outlets.drop_last()) + if o.taken <= o.lane.len() {
            o.lane.len() - o.taken
        } else {
            0
        }
    }
}

proof fn lemma_fewer_to_come(before: Seq<Outlet>, after: Seq<Outlet>)
    requires
        in_turn(before, after),
    ensures
        to_come(after) == to_come(before) - drained(before, after).len(),
        to_come(after) >= 0,
    decreases before.len(),
{
    if before.len() > 0 {
        let a = before.drop_last();
        let b = after.drop_last();
        assert forall|i: int| 0 <= i < a.len() implies has_advanced(#[trigger] a[i], b[i]) by {
            assert(has_advanced(before[i], after[i]));
        }
        assert forall|i: int, j: int|
            0 <= i < j < a.len() && #[trigger] b[j] != a[j] implies (#[trigger] b[i]).dry by {
            assert(after[j] != before[j]);
            assert(after[i].dry);
        }
        lemma_fewer_to_come(a, b);
        let n = before.len() - 1;
        assert(has_advanced(before[n], after[n]));
    }
}

/// The windows that are open: an id, and the reading from which history is wanted.
pub type Windows = Seq<(u64, u64)>;

/// The earliest reading from which history is wanted, if any is.
pub open spec fn earliest(windows: Windows) -> Option<u64>
    decreases windows.len(),
{
    if windows.len() == 0 {
        None
    } else {
        let start = windows.last().1;
        match earliest(windows.drop_last()) {
            None => Some(start),
            Some(other) => Some(
                if start < other {
                    start
                } else {
                    other
                },
            ),
        }
    }
}

/// Whether a window has another id.
pub open spec fn is_another(id: u64) -> spec_fn((u64, u64)) -> bool {
    |w: (u64, u64)| w.0 != id
}

/// The earliest of a reading and the starts of some batches.
pub open spec fn earliest_start(reading: u64, batches: Seq<BatchView>) -> u64
    decreases batches.len(),
{
    if batches.len() == 0 {
        reading
    } else {
        let before = earliest_start(reading, batches.drop_last());
        if batches.last().base_ticks < before {
            batches.last().base_ticks
        } else {
            before
        }
    }
}

/// Keeps recent history, and knows which of it is wanted.
pub struct Recorder {
    ring: Ring,
    windows: Vec<(u64, u64)>,
}

/// What a recorder holds.
pub struct RecorderView {
    pub ring: RingView,
    pub windows: Windows,
}

impl View for Recorder {
    type V = RecorderView;

    closed spec fn view(&self) -> RecorderView {
        RecorderView { ring: self.ring@, windows: self.windows@ }
    }
}

impl RecorderView {
    /// With its ring holding on to the history that is wanted.
    pub open spec fn refloored(self) -> RecorderView {
        RecorderView {
            ring: (RingView { floor: earliest(self.windows), ..self.ring }).trimmed(),
            ..self
        }
    }

    /// Without a window.
    pub open spec fn without(self, id: u64) -> RecorderView {
        RecorderView { windows: self.windows.filter(is_another(id)), ..self }
    }
}

impl Recorder {
    pub closed spec fn wf(&self) -> bool {
        self.ring.wf()
    }

    pub fn new(capacity_bytes: usize) -> (r: Self)
        ensures
            r.wf(),
            r@ == (RecorderView {
                ring: RingView {
                    batches: Seq::empty(),
                    capacity: capacity_bytes,
                    floor: None,
                    horizon_ticks: 0,
                    evicted_events: 0,
                },
                windows: Seq::empty(),
            }),
    {
        Recorder { ring: Ring::new(capacity_bytes), windows: Vec::new() }
    }

    /// Takes in what has been sent, up to `limit` batches.
    pub fn absorb(&mut self, inbound: &mut EventQueue, limit: usize) -> (got: usize)
        requires
            old(self).wf(),
        ensures
            final(self).wf(),
            final(inbound)@ == (QueueView { outlets: final(inbound)@.outlets, ..old(inbound)@ }),
            in_turn(old(inbound)@.outlets, final(inbound)@.outlets),
            stopped_at_batches(got as nat, final(inbound)@.outlets, limit),
            ({
                let batches = drained(old(inbound)@.outlets, final(inbound)@.outlets);
                &&& got == batches.len()
                &&& final(self)@ == (RecorderView {
                    ring: pushed_all(old(self)@.ring, batches),
                    ..old(self)@
                })
            }),
    {
        let mut batches: Vec<Box<EventBatch>> = Vec::new();
        assert(boxed_views(batches@) =~= Seq::empty());
        let got: usize = inbound.drain_batches(&mut batches, limit);
        assert(boxed_views(batches@) =~= drained(old(inbound)@.outlets, inbound@.outlets));
        push_all(&mut self.ring, batches);
        got
    }

    /// Takes in all that has been sent.
    pub fn absorb_all(&mut self, inbound: &mut EventQueue)
        requires
            old(self).wf(),
        ensures
            final(self).wf(),
            final(self)@.windows == old(self)@.windows,
            took_in_all(old(self)@.ring, old(inbound)@, final(self)@.ring, final(inbound)@),
    {
        let ghost mut rounds: Seq<Seq<Outlet>> = seq![inbound@.outlets];
        let mut more: bool = true;
        while more
            invariant
                self.wf(),
                self@.windows == old(self)@.windows,
                inbound@ == (QueueView { outlets: inbound@.outlets, ..old(inbound)@ }),
                !more ==> all_dry(inbound@.outlets),
                are_rounds(rounds),
                rounds[0] == old(inbound)@.outlets,
                rounds.last() == inbound@.outlets,
                self@.ring == pushed_all(old(self)@.ring, round_batches(rounds)),
            decreases to_come(inbound@.outlets) + if more {
                1int
            } else {
                0int
            },
        {
            let ghost before = inbound@.outlets;
            let got: usize = self.absorb(inbound, usize::MAX);
            more = got > 0;
            proof {
                let after = inbound@.outlets;
                lemma_fewer_to_come(before, after);
                let batches = round_batches(rounds);
                lemma_pushed_all_adds(old(self)@.ring, batches, drained(before, after));
                let longer = rounds.push(after);
                assert(longer.drop_last() =~= rounds);
                assert(longer[longer.len() - 2] == before);
                rounds = longer;
            }
        }
    }

    /// Has the ring hold on to the history that is wanted.
    fn refloor(&mut self)
        requires
            old(self).wf(),
        ensures
            final(self).wf(),
            final(self)@ == old(self)@.refloored(),
    {
        let mut floor: Option<u64> = None;
        let n: usize = self.windows.len();
        assert(self.windows@.take(0) =~= Seq::empty());
        for i in 0..n
            invariant
                n == self.windows@.len(),
                floor == earliest(self.windows@.take(i as int)),
        {
            assert(self.windows@.take(i + 1).drop_last() =~= self.windows@.take(i as int));
            let start: u64 = self.windows[i].1;
            floor = match floor {
                None => Some(start),
                Some(other) => Some(
                    if start < other {
                        start
                    } else {
                        other
                    },
                ),
            };
        }
        assert(self.windows@.take(n as int) =~= self.windows@);
        self.ring.set_floor(floor);
    }

    fn drop_window(&mut self, id: u64)
        requires
            old(self).wf(),
        ensures
            final(self).wf(),
            final(self)@ == old(self)@.without(id),
    {
        let keep = |window: &(u64, u64)| -> (kept: bool)
            ensures
                kept == (window.0 != id),
        { window.0 != id };
        retain(&mut self.windows, keep, Ghost(is_another(id)));
    }

    /// Publishes the reading before which no event is held any more, neither here
    /// nor in a thread's open batch. `now` was read before the tails were.
    pub fn update_recycle_floor(&mut self, inbound: &mut EventQueue, now: u64, tails: &[EventBatch])
        requires
            old(self).wf(),
        ensures
            final(self).wf(),
            final(self)@.windows == old(self)@.windows,
            final(inbound)@.recycle_floor == earliest_start(
                earliest_start(now, views(tails@)),
                final(self)@.ring.batches,
            ),
            took_in_all(
                old(self)@.ring,
                old(inbound)@,
                final(self)@.ring,
                QueueView { recycle_floor: old(inbound)@.recycle_floor, ..final(inbound)@ },
            ),
    {
        self.absorb_all(inbound);
        let ghost taken = inbound@;
        let mut floor: u64 = now;
        let n: usize = tails.len();
        assert(views(tails@).take(0) =~= Seq::empty());
        for i in 0..n
            invariant
                n == tails@.len(),
                floor == earliest_start(now, views(tails@).take(i as int)),
        {
            assert(views(tails@).take(i + 1).drop_last() =~= views(tails@).take(i as int));
            let start: u64 = tails[i].base_ticks;
            assert(views(tails@)[i as int].base_ticks == start);
            if start < floor {
                floor = start;
            }
        }
        assert(views(tails@).take(n as int) =~= views(tails@));
        let ghost from_tails = floor;
        let batches = self.ring.iter();
        let ghost held = batch_views(batches@);
        let m: usize = batches.len();
        assert(held.take(0) =~= Seq::empty());
        for i in 0..m
            invariant
                m == batches@.len() == held.len(),
                held == batch_views(batches@),
                floor == earliest_start(from_tails, held.take(i as int)),
        {
            assert(held.take(i + 1).drop_last() =~= held.take(i as int));
            let start: u64 = batches[i].base_ticks;
            assert(held[i as int].base_ticks == start);
            if start < floor {
                floor = start;
            }
        }
        assert(held.take(m as int) =~= held);
        inbound.set_recycle_floor(floor);
        assert((QueueView { recycle_floor: old(inbound)@.recycle_floor, ..inbound@ }) == taken);
    }

    /// Does what it is asked to, but for a dump, which it hands back to be carried
    /// out.
    pub fn handle<D>(&mut self, msg: Control<D>) -> (dump: Option<Dump<D>>)
        requires
            old(self).wf(),
        ensures
            final(self).wf(),
            match msg {
                Control::Open { id, start_ticks } => {
                    &&& dump is None
                    &&& final(self)@ == (RecorderView {
                        windows: old(self)@.windows.push((id, start_ticks)),
                        ..old(self)@
                    }).refloored()
                },
                Control::Cancel { id } => {
                    &&& dump is None
                    &&& final(self)@ == old(self)@.without(id).refloored()
                },
                Control::Dump { id, start_ticks, end_ticks, reason, done } => {
                    &&& final(self)@ == old(self)@
                    &&& dump matches Some(d) && d.id == Some(id) && d.start_ticks == start_ticks
                        && d.end_ticks == end_ticks && d.reason == reason && d.done == done
                        && d.cut().len() == 0 && d.handed_out() == 0
                },
                Control::DumpAll { end_ticks, reason, done } => {
                    &&& final(self)@ == old(self)@
                    &&& dump matches Some(d) && d.id is None && d.start_ticks == 0 && d.end_ticks
                        == end_ticks && d.reason == reason && d.done == done && d.cut().len() == 0
                        && d.handed_out() == 0
                },
            },
    {
        match msg {
            Control::Open { id, start_ticks } => {
                self.windows.push((id, start_ticks));
                self.refloor();
                None
            },
            Control::Cancel { id } => {
                self.drop_window(id);
                self.refloor();
                None
            },
            Control::Dump { id, start_ticks, end_ticks, reason, done } => Some(
                Dump {
                    id: Some(id),
                    start_ticks,
                    end_ticks,
                    reason,
                    done,
                    events: Vec::new(),
                    written: 0,
                },
            ),
            Control::DumpAll { end_ticks, reason, done } => Some(
                Dump {
                    id: None,
                    start_ticks: 0,
                    end_ticks,
                    reason,
                    done,
                    events: Vec::new(),
                    written: 0,
                },
            ),
        }
    }

    /// Cuts a dump out of history. The tails were read after all that had been sent
    /// was taken in; what has been sent since is taken in first, so that a batch is
    /// found in the ring, in the tails, or in both.
    pub fn cut<D>(&mut self, inbound: &mut EventQueue, dump: &mut Dump<D>, tails: &[EventBatch])
        requires
            old(self).wf(),
        ensures
            final(self).wf(),
            final(self)@.windows == old(self)@.windows,
            took_in_all(old(self)@.ring, old(inbound)@, final(self)@.ring, final(inbound)@),
            final(dump).cut() == assembled(
                final(self)@.ring.batches,
                views(tails@),
                final(inbound)@.clock,
                final(self)@.ring.horizon_ticks,
                old(dump).start_ticks,
                old(dump).end_ticks,
            ),
            final(dump).handed_out() == 0,
            final(dump).id == old(dump).id,
            final(dump).start_ticks == old(dump).start_ticks,
            final(dump).end_ticks == old(dump).end_ticks,
            final(dump).reason == old(dump).reason,
            final(dump).done == old(dump).done,
    {
        self.absorb_all(inbound);
        let history = self.ring.iter();
        dump.events = assemble(
            history.as_slice(),
            tails,
            inbound.clock(),
            self.ring.horizon_ticks(),
            dump.start_ticks,
            dump.end_ticks,
        );
        dump.written = 0;
    }

    /// Ends a dump that has been written: its window is closed, and what is no longer
    /// held is published. Hands back what tells the one who asked for it.
    pub fn settle<D>(
        &mut self,
        inbound: &mut EventQueue,
        dump: Dump<D>,
        now: u64,
        tails: &[EventBatch],
    ) -> (done: Option<D>)
        requires
            old(self).wf(),
        ensures
            final(self).wf(),
            done == dump.done,
            ({
                let before = match dump.id {
                    Some(id) => old(self)@.without(id).refloored(),
                    None => old(self)@,
                };
                &&& final(self)@.windows == before.windows
                &&& final(inbound)@.recycle_floor == earliest_start(
                    earliest_start(now, views(tails@)),
                    final(self)@.ring.batches,
                )
                &&& took_in_all(
                    before.ring,
                    old(inbound)@,
                    final(self)@.ring,
                    QueueView { recycle_floor: old(inbound)@.recycle_floor, ..final(inbound)@ },
                )
            }),
    {
        if let Some(id) = dump.id {
            self.drop_window(id);
            self.refloor();
        }
        self.update_recycle_floor(inbound, now, tails);
        dump.done
    }
}

/// What came of one turn of the recorder.
#[derive(Copy, Clone, Debug, PartialEq, Eq, Structural)]
pub enum Turn {
    /// Something was taken in.
    Worked,
    /// There was nothing to take in: rest, and try again.
    Idle,
    /// The queue is closed and all that it held has been taken in.
    Closed,
}

/// Counts the turns until what is no longer held has to be published again.
pub struct Ticker {
    turns: u32,
}

impl Ticker {
    /// How many turns it has been.
    pub closed spec fn count(&self) -> u32 {
        self.turns
    }

    pub fn new() -> (t: Self)
        ensures
            t.count() == 0,
    {
        Ticker { turns: 0 }
    }

    /// One more turn: whether it is time.
    pub fn tick(&mut self) -> (due: bool)
        requires
            old(self).count() < FLOOR_EVERY,
        ensures
            due == (old(self).count() + 1 == FLOOR_EVERY),
            final(self).count() == (if due {
                0
            } else {
                old(self).count() + 1
            }),
            final(self).count() < FLOOR_EVERY,
    {
        self.turns = self.turns + 1;
        if self.turns == FLOOR_EVERY {
            self.turns = 0;
            true
        } else {
            false
        }
    }
}

impl Recorder {
    /// One turn: takes in what there is, or all that is left once the queue is closed.
    pub fn turn(&mut self, inbound: &mut EventQueue) -> (turn: Turn)
        requires
            old(self).wf(),
        ensures
            final(self).wf(),
            final(self)@.windows == old(self)@.windows,
            final(inbound)@ == (QueueView { outlets: final(inbound)@.outlets, ..old(inbound)@ }),
            exists|mid: Seq<Outlet>|
                {
                    let batches = drained(old(inbound)@.outlets, mid);
                    let ring = pushed_all(old(self)@.ring, batches);
                    &&& #[trigger] in_turn(old(inbound)@.outlets, mid)
                    &&& stopped_at_batches(batches.len(), mid, DRAIN_LIMIT)
                    &&& if batches.len() > 0 {
                        &&& turn is Worked
                        &&& final(inbound)@.outlets == mid
                        &&& final(self)@.ring == ring
                    } else if old(inbound)@.closed {
                        &&& turn is Closed
                        &&& took_in_all(
                            ring,
                            QueueView { outlets: mid, ..old(inbound)@ },
                            final(self)@.ring,
                            final(inbound)@,
                        )
                    } else {
                        &&& turn is Idle
                        &&& final(inbound)@.outlets == mid
                        &&& all_dry(mid)
                        &&& final(self)@.ring == old(self)@.ring
                    }
                },
    {
        let got: usize = self.absorb(inbound, DRAIN_LIMIT);
        let ghost mid = inbound@.outlets;
        assert(in_turn(old(inbound)@.outlets, mid));
        assert((QueueView { outlets: mid, ..old(inbound)@ }) == inbound@);
        if got > 0 {
            Turn::Worked
        } else if inbound.is_closed() {
            self.absorb_all(inbound);
            Turn::Closed
        } else {
            Turn::Idle
        }
    }

    /// How many events the ring has let go.
    pub fn evicted_events(&self) -> (n: u64)
        ensures
            n == self@.ring.evicted_events,
    {
        self.ring.evicted_events()
    }
}

/// No event that is held, here or in a thread's open batch, was recorded in a batch
/// that starts before the reading that is published.
pub proof fn nothing_held_starts_before_the_floor(
    now: u64,
    tails: Seq<BatchView>,
    batches: Seq<BatchView>,
)
    ensures
        ({
            let floor = earliest_start(earliest_start(now, tails), batches);
            &&& floor <= now
            &&& forall|i: int| 0 <= i < tails.len() ==> floor <= (#[trigger] tails[i]).base_ticks
            &&& forall|i: int| 0 <= i < batches.len() ==> floor <= (#[trigger] batches[i]).base_ticks
        }),
{
    lemma_earliest_start(now, tails);
    lemma_earliest_start(earliest_start(now, tails), batches);
}

proof fn lemma_earliest_start(reading: u64, batches: Seq<BatchView>)
    ensures
        earliest_start(reading, batches) <= reading,
        forall|i: int|
            0 <= i < batches.len() ==> earliest_start(reading, batches) <= (
            #[trigger] batches[i]).base_ticks,
    decreases batches.len(),
{
    if batches.len() > 0 {
        let rest = batches.drop_last();
        lemma_earliest_start(reading, rest);
        assert forall|i: int| 0 <= i < batches.len() implies earliest_start(reading, batches) <= (
        #[trigger] batches[i]).base_ticks by {
            if i < rest.len() {
                assert(rest[i] == batches[i]);
            }
        }
    }
}

/// The ring holds on to history from the earliest window on: from none where no
/// window is open, and otherwise from a window's start that no other comes before.
pub proof fn the_floor_follows_the_oldest_window(windows: Windows)
    ensures
        earliest(windows) is None <==> windows.len() == 0,
        earliest(windows) matches Some(start) ==> {
            &&& exists|i: int| 0 <= i < windows.len() && (#[trigger] windows[i]).1 == start
            &&& forall|i: int| 0 <= i < windows.len() ==> start <= (#[trigger] windows[i]).1
        },
    decreases windows.len(),
{
    if windows.len() > 0 {
        let rest = windows.drop_last();
        the_floor_follows_the_oldest_window(rest);
        let n = windows.len() - 1;
        let start = earliest(windows).unwrap();
        if start == windows[n].1 {
            assert(windows[n].1 == start);
        } else {
            let i = choose|i: int| 0 <= i < rest.len() && (#[trigger] rest[i]).1 == start;
            assert(windows[i].1 == start);
        }
        assert forall|i: int| 0 <= i < windows.len() implies start <= (#[trigger] windows[i]).1 by {
            if i < n {
                assert(rest[i] == windows[i]);
            }
        }
    }
}

/// What a session waits for.
pub enum Phase<D> {
    /// The next message, if there is one.
    Message,
    /// The tails that a dump is to take in.
    CutTails(Dump<D>),
    /// That the file of a dump is open.
    Opened(Dump<D>),
    /// That a part of a dump has been written.
    Written(Dump<D>),
    /// That the end of a dump has been written.
    Finished(Dump<D>),
    /// The time and the tails, after a dump.
    SettleTails(Dump<D>),
    /// That the one who asked for a dump has been told.
    Told,
    /// The time and the tails, once in a while.
    FloorTails,
    /// That it has rested.
    Rested,
    /// Nothing any more.
    Stopped,
}

/// What a session asks to be done next.
pub enum Ask<D> {
    /// See whether there is a message.
    Receive,
    /// Read the time, and then the tails of all threads.
    ReadTails,
    /// Open the file of a dump, which is called after a reason.
    Open(String),
    /// Write some events to the dump.
    Write(Vec<Event>),
    /// Write the end of the dump, with the number of events lost, and close its file.
    Finish(u64),
    /// Tell the one who asked that the dump is there.
    Tell(D),
    /// Rest for some microseconds.
    Rest(u64),
    /// Stop.
    Stop,
}

/// A recorder at work: it says what is to be done, and goes on when that has been
/// done.
pub struct Session<D> {
    recorder: Recorder,
    pace: Pace,
    ticker: Ticker,
    /// Whether this turn has done anything.
    worked: bool,
    /// Whether the queue is closed and only messages are left.
    closing: bool,
    phase: Phase<D>,
}

/// Where a session stands.
pub struct SessionView<D> {
    pub recorder: RecorderView,
    pub next_rest: u64,
    pub turns: u32,
    pub worked: bool,
    pub closing: bool,
    pub phase: Phase<D>,
}

impl<D> View for Session<D> {
    type V = SessionView<D>;

    closed spec fn view(&self) -> SessionView<D> {
        SessionView {
            recorder: self.recorder@,
            next_rest: self.pace.next_rest(),
            turns: self.ticker.count(),
            worked: self.worked,
            closing: self.closing,
            phase: self.phase,
        }
    }
}

/// Whether a recorder has taken in all that was sent before tails were to be read.
pub open spec fn took_in_before_tails<D>(
    before: SessionView<D>,
    queue: QueueView,
    after: SessionView<D>,
    after_queue: QueueView,
) -> bool {
    &&& took_in_all(before.recorder.ring, queue, after.recorder.ring, after_queue)
    &&& after.recorder.windows == before.recorder.windows
}

/// What a dump is asked to do, and by whom, whatever has become of it.
pub open spec fn same_dump<D>(a: Dump<D>, b: Dump<D>) -> bool {
    &&& a.id == b.id
    &&& a.start_ticks == b.start_ticks
    &&& a.end_ticks == b.end_ticks
    &&& a.reason == b.reason
    &&& a.done == b.done
}

/// What a session does with a message: it opens and closes windows at once, and
/// starts a dump by taking in all that was sent and asking for the tails.
pub open spec fn on_message<D>(
    before: SessionView<D>,
    queue: QueueView,
    msg: Control<D>,
    after: SessionView<D>,
    after_queue: QueueView,
    ask: Ask<D>,
) -> bool {
    &&& after.worked
    &&& after.next_rest == before.next_rest
    &&& after.turns == before.turns
    &&& after.closing == before.closing
    &&& match msg {
        Control::Open { id, start_ticks } => {
            &&& after_queue == queue
            &&& after.recorder == (RecorderView {
                windows: before.recorder.windows.push((id, start_ticks)),
                ..before.recorder
            }).refloored()
            &&& after.phase is Message
            &&& ask is Receive
        },
        Control::Cancel { id } => {
            &&& after_queue == queue
            &&& after.recorder == before.recorder.without(id).refloored()
            &&& after.phase is Message
            &&& ask is Receive
        },
        Control::Dump { id, start_ticks, end_ticks, reason, done } => {
            &&& took_in_before_tails(before, queue, after, after_queue)
            &&& after.phase matches Phase::CutTails(d) && d.id == Some(id) && d.start_ticks
                == start_ticks && d.end_ticks == end_ticks && d.reason == reason && d.done == done
            &&& ask is ReadTails
        },
        Control::DumpAll { end_ticks, reason, done } => {
            &&& took_in_before_tails(before, queue, after, after_queue)
            &&& after.phase matches Phase::CutTails(d) && d.id is None && d.start_ticks == 0
                && d.end_ticks == end_ticks && d.reason == reason && d.done == done
            &&& ask is ReadTails
        },
    }
}

/// What a session does once there are no more messages and nothing is to be
/// published: it takes in what was sent, and rests if there was nothing.
pub open spec fn on_turn<D>(
    before: SessionView<D>,
    queue: QueueView,
    after: SessionView<D>,
    after_queue: QueueView,
    ask: Ask<D>,
) -> bool {
    &&& after_queue == (QueueView { outlets: after_queue.outlets, ..queue })
    &&& after.recorder.windows == before.recorder.windows
    &&& exists|mid: Seq<Outlet>|
        {
            let batches = drained(queue.outlets, mid);
            let ring = pushed_all(before.recorder.ring, batches);
            &&& #[trigger] in_turn(queue.outlets, mid)
            &&& stopped_at_batches(batches.len(), mid, DRAIN_LIMIT)
            &&& if batches.len() == 0 && queue.closed {
                &&& took_in_all(
                    ring,
                    QueueView { outlets: mid, ..queue },
                    after.recorder.ring,
                    after_queue,
                )
                &&& after.closing
                &&& after.next_rest == before.next_rest
                &&& after.phase is Message
                &&& ask is Receive
            } else {
                &&& after_queue.outlets == mid
                &&& after.recorder.ring == ring
                &&& !after.closing
                &&& !after.worked
                &&& if batches.len() > 0 || before.worked {
                    &&& after.next_rest == FIRST_REST
                    &&& after.phase is Message
                    &&& ask is Receive
                } else {
                    &&& after.next_rest == doubled_rest(before.next_rest)
                    &&& after.phase is Rested
                    &&& ask == Ask::<D>::Rest(before.next_rest)
                }
            }
        }
}

/// What a session does when there is no message. Once the queue is closed, it stops.
pub open spec fn on_no_message<D>(
    before: SessionView<D>,
    queue: QueueView,
    after: SessionView<D>,
    after_queue: QueueView,
    ask: Ask<D>,
) -> bool {
    if before.closing {
        &&& after == (SessionView { phase: Phase::Stopped, ..before })
        &&& after_queue == queue
        &&& ask is Stop
    } else if before.turns + 1 == FLOOR_EVERY {
        &&& after == (SessionView { turns: 0, phase: Phase::FloorTails, ..before })
        &&& after_queue == queue
        &&& ask is ReadTails
    } else {
        &&& after.turns == before.turns + 1
        &&& on_turn(before, queue, after, after_queue, ask)
    }
}

/// What a session does with the next part of a dump, or once there is none left.
pub open spec fn on_part<D>(
    before: SessionView<D>,
    dump: Dump<D>,
    after: SessionView<D>,
    dropped: u64,
    ask: Ask<D>,
) -> bool {
    let len = dump.cut().len() as int;
    let start = dump.handed_out();
    &&& after == (SessionView { phase: after.phase, recorder: after.recorder, ..before })
    &&& if start < len {
        &&& after.phase matches Phase::Written(d) && same_dump(d, dump) && d.cut() == dump.cut()
            && d.handed_out() == next_stop(start, len)
        &&& ask matches Ask::Write(events) && events@ == dump.cut().subrange(
            start,
            next_stop(start, len),
        )
    } else {
        &&& after.phase matches Phase::Finished(d) && same_dump(d, dump)
        &&& ask == Ask::<D>::Finish(dropped)
    }
}

impl<D> SessionView<D> {
    /// Whether a session that waits for a dump knows how much of it is written.
    pub open spec fn consistent(self) -> bool {
        &&& self.turns < FLOOR_EVERY
        &&& self.phase is FloorTails ==> !self.closing
        &&& self.phase matches Phase::Opened(d) ==> d.handed_out() == 0
        &&& self.phase matches Phase::Written(d) ==> d.handed_out() <= d.cut().len()
    }
}

impl<D> Session<D> {
    pub closed spec fn wf(&self) -> bool {
        self.recorder.wf() && self@.consistent()
    }

    /// A session that waits for its first message.
    pub fn new(capacity_bytes: usize) -> (s: Self)
        ensures
            s.wf(),
            s@.consistent(),
            s@.phase is Message,
            s@.next_rest == FIRST_REST,
            s@.turns == 0,
            !s@.worked,
            !s@.closing,
            s@.recorder.windows.len() == 0,
            s@.recorder.ring == (RingView {
                batches: Seq::empty(),
                capacity: capacity_bytes,
                floor: None,
                horizon_ticks: 0,
                evicted_events: 0,
            }),
    {
        Session {
            recorder: Recorder::new(capacity_bytes),
            pace: Pace::new(),
            ticker: Ticker::new(),
            worked: false,
            closing: false,
            phase: Phase::Message,
        }
    }

    fn begin(&mut self, inbound: &mut EventQueue, msg: Control<D>) -> (ask: Ask<D>)
        requires
            old(self).wf(),
        ensures
            final(self).wf(),
            on_message(old(self)@, old(inbound)@, msg, final(self)@, final(inbound)@, ask),
    {
        self.worked = true;
        match self.recorder.handle(msg) {
            None => {
                self.phase = Phase::Message;
                Ask::Receive
            },
            Some(dump) => {
                self.recorder.absorb_all(inbound);
                self.phase = Phase::CutTails(dump);
                Ask::ReadTails
            },
        }
    }

    fn take_turn(&mut self, inbound: &mut EventQueue) -> (ask: Ask<D>)
        requires
            old(self).wf(),
            !old(self)@.closing,
        ensures
            final(self).wf(),
            final(self)@.turns == old(self)@.turns,
            on_turn(old(self)@, old(inbound)@, final(self)@, final(inbound)@, ask),
    {
        match self.recorder.turn(inbound) {
            Turn::Closed => {
                self.closing = true;
                self.phase = Phase::Message;
                Ask::Receive
            },
            turn => {
                let worked: bool = self.worked || matches!(turn, Turn::Worked);
                self.worked = false;
                if worked {
                    self.pace.worked();
                    self.phase = Phase::Message;
                    Ask::Receive
                } else {
                    let micros: u64 = self.pace.backoff();
                    self.phase = Phase::Rested;
                    Ask::Rest(micros)
                }
            },
        }
    }

    fn no_message(&mut self, inbound: &mut EventQueue) -> (ask: Ask<D>)
        requires
            old(self).wf(),
        ensures
            final(self).wf(),
            on_no_message(old(self)@, old(inbound)@, final(self)@, final(inbound)@, ask),
    {
        if self.closing {
            self.phase = Phase::Stopped;
            return Ask::Stop;
        }
        if self.ticker.tick() {
            self.phase = Phase::FloorTails;
            return Ask::ReadTails;
        }
        self.phase = Phase::Message;
        self.take_turn(inbound)
    }

    fn next_part(&mut self, dump: Dump<D>, inbound: &EventQueue) -> (ask: Ask<D>)
        requires
            old(self).recorder.wf(),
            old(self)@.turns < FLOOR_EVERY,
            dump.handed_out() <= dump.cut().len(),
        ensures
            final(self).wf(),
            final(self)@.recorder == old(self)@.recorder,
            on_part(old(self)@, dump, final(self)@, inbound@.dropped, ask),
    {
        let mut dump = dump;
        match dump.next_chunk() {
            Some(events) => {
                self.phase = Phase::Written(dump);
                Ask::Write(events)
            },
            None => {
                self.phase = Phase::Finished(dump);
                Ask::Finish(inbound.dropped())
            },
        }
    }

    /// Goes on, once what was asked for has been done. `message` is what was received
    /// where that was asked for; `now` and `tails` are what was read where that was.
    pub fn step(
        &mut self,
        inbound: &mut EventQueue,
        message: Option<Control<D>>,
        now: u64,
        tails: &[EventBatch],
    ) -> (ask: Ask<D>)
        requires
            old(self).wf(),
        ensures
            final(self).wf(),
            match old(self)@.phase {
                Phase::Message => match message {
                    Some(msg) => on_message(
                        old(self)@,
                        old(inbound)@,
                        msg,
                        final(self)@,
                        final(inbound)@,
                        ask,
                    ),
                    None => on_no_message(
                        old(self)@,
                        old(inbound)@,
                        final(self)@,
                        final(inbound)@,
                        ask,
                    ),
                },
                Phase::CutTails(dump) => {
                    &&& took_in_before_tails(
                        old(self)@,
                        old(inbound)@,
                        final(self)@,
                        final(inbound)@,
                    )
                    &&& final(self)@ == (SessionView {
                        recorder: final(self)@.recorder,
                        phase: final(self)@.phase,
                        ..old(self)@
                    })
                    &&& final(self)@.phase matches Phase::Opened(d) && same_dump(d, dump)
                        && d.handed_out() == 0 && d.cut() == assembled(
                        final(self)@.recorder.ring.batches,
                        views(tails@),
                        final(inbound)@.clock,
                        final(self)@.recorder.ring.horizon_ticks,
                        dump.start_ticks,
                        dump.end_ticks,
                    )
                    &&& ask matches Ask::Open(reason) && reason@ == dump.reason@
                },
                Phase::Opened(dump) => {
                    &&& final(inbound)@ == old(inbound)@
                    &&& final(self)@.recorder == old(self)@.recorder
                    &&& on_part(old(self)@, dump, final(self)@, old(inbound)@.dropped, ask)
                },
                Phase::Written(dump) => {
                    &&& final(inbound)@ == (QueueView {
                        outlets: final(inbound)@.outlets,
                        ..old(inbound)@
                    })
                    &&& in_turn(old(inbound)@.outlets, final(inbound)@.outlets)
                    &&& stopped_at_batches(
                        drained(old(inbound)@.outlets, final(inbound)@.outlets).len(),
                        final(inbound)@.outlets,
                        usize::MAX,
                    )
                    &&& final(self)@.recorder == (RecorderView {
                        ring: pushed_all(
                            old(self)@.recorder.ring,
                            drained(old(inbound)@.outlets, final(inbound)@.outlets),
                        ),
                        ..old(self)@.recorder
                    })
                    &&& on_part(old(self)@, dump, final(self)@, old(inbound)@.dropped, ask)
                },
                Phase::Finished(dump) => {
                    &&& final(inbound)@ == old(inbound)@
                    &&& final(self)@ == (SessionView {
                        phase: Phase::SettleTails(dump),
                        ..old(self)@
                    })
                    &&& ask is ReadTails
                },
                Phase::SettleTails(dump) => {
                    let settled = match dump.id {
                        Some(id) => old(self)@.recorder.without(id).refloored(),
                        None => old(self)@.recorder,
                    };
                    &&& final(self)@.recorder.windows == settled.windows
                    &&& final(inbound)@.recycle_floor == earliest_start(
                        earliest_start(now, views(tails@)),
                        final(self)@.recorder.ring.batches,
                    )
                    &&& took_in_all(
                        settled.ring,
                        old(inbound)@,
                        final(self)@.recorder.ring,
                        QueueView { recycle_floor: old(inbound)@.recycle_floor, ..final(inbound)@ },
                    )
                    &&& final(self)@ == (SessionView {
                        recorder: final(self)@.recorder,
                        phase: final(self)@.phase,
                        ..old(self)@
                    })
                    &&& match dump.done {
                        Some(done) => final(self)@.phase is Told && ask == Ask::<D>::Tell(done),
                        None => final(self)@.phase is Message && ask is Receive,
                    }
                },
                Phase::Told | Phase::Rested => {
                    &&& final(inbound)@ == old(inbound)@
                    &&& final(self)@ == (SessionView { phase: Phase::Message, ..old(self)@ })
                    &&& ask is Receive
                },
                Phase::FloorTails => {
                    exists|mid: SessionView<D>, queue: QueueView|
                        {
                            &&& queue.recycle_floor == earliest_start(
                                earliest_start(now, views(tails@)),
                                mid.recorder.ring.batches,
                            )
                            &&& #[trigger] took_in_before_tails(
                                old(self)@,
                                old(inbound)@,
                                mid,
                                QueueView { recycle_floor: old(inbound)@.recycle_floor, ..queue },
                            )
                            &&& mid == (SessionView { recorder: mid.recorder, ..old(self)@ })
                            &&& final(self)@.turns == old(self)@.turns
                            &&& on_turn(mid, queue, final(self)@, final(inbound)@, ask)
                        }
                },
                Phase::Stopped => {
                    &&& final(inbound)@ == old(inbound)@
                    &&& final(self)@ == old(self)@
                    &&& ask is Stop
                },
            },
    {
        let mut phase: Phase<D> = Phase::Stopped;
        core::mem::swap(&mut self.phase, &mut phase);
        match phase {
            Phase::Message => {
                self.phase = Phase::Message;
                match message {
                    Some(msg) => self.begin(inbound, msg),
                    None => self.no_message(inbound),
                }
            },
            Phase::CutTails(dump) => {
                let mut dump = dump;
                self.recorder.cut(inbound, &mut dump, tails);
                let reason = dump.reason.clone();
                self.phase = Phase::Opened(dump);
                Ask::Open(reason)
            },
            Phase::Opened(dump) => self.next_part(dump, inbound),
            Phase::Written(dump) => {
                let _ = self.recorder.absorb(inbound, usize::MAX);
                self.next_part(dump, inbound)
            },
            Phase::Finished(dump) => {
                self.phase = Phase::SettleTails(dump);
                Ask::ReadTails
            },
            Phase::SettleTails(dump) => match self.recorder.settle(inbound, dump, now, tails) {
                Some(done) => {
                    self.phase = Phase::Told;
                    Ask::Tell(done)
                },
                None => {
                    self.phase = Phase::Message;
                    Ask::Receive
                },
            },
            Phase::Told => {
                self.phase = Phase::Message;
                Ask::Receive
            },
            Phase::Rested => {
                self.phase = Phase::Message;
                Ask::Receive
            },
            Phase::FloorTails => {
                self.recorder.update_recycle_floor(inbound, now, tails);
                self.phase = Phase::FloorTails;
                assert(took_in_before_tails(
                    old(self)@,
                    old(inbound)@,
                    self@,
                    QueueView { recycle_floor: old(inbound)@.recycle_floor, ..inbound@ },
                ));
                self.take_turn(inbound)
            },
            Phase::Stopped => Ask::Stop,
        }
    }
}

/// The reading that is published is no earlier than it has to be: it is that of now, or a
/// batch that is held starts at it.
pub proof fn the_floor_is_a_start_that_is_held(reading: u64, batches: Seq<BatchView>)
    ensures
        earliest_start(reading, batches) == reading || exists|i: int|
            0 <= i < batches.len() && (#[trigger] batches[i]).base_ticks == earliest_start(
                reading,
                batches,
            ),
    decreases batches.len(),
{
    if batches.len() > 0 {
        let rest = batches.drop_last();
        let found = earliest_start(reading, batches);
        the_floor_is_a_start_that_is_held(reading, rest);
        if found == batches.last().base_ticks {
            assert(batches[batches.len() - 1].base_ticks == found);
        } else if found != reading {
            let i = choose|i: int| 0 <= i < rest.len() && (#[trigger] rest[i]).base_ticks == found;
            assert(batches[i].base_ticks == found);
        }
    }
}

/// Every chunk of a dump but the last holds 4096 events; the last holds no more, and at
/// least one.
pub proof fn every_chunk_has_its_size(events: Seq<Event>, start: int, i: int)
    requires
        0 <= start <= events.len(),
        0 <= i < chunks_from(events, start).len(),
    ensures
        0 < chunks_from(events, start)[i].len() <= 4096,
        i < chunks_from(events, start).len() - 1 ==> chunks_from(events, start)[i].len() == 4096,
    decreases events.len() - start,
{
    if start < events.len() {
        let stop = next_stop(start, events.len() as int);
        let rest = chunks_from(events, stop);
        let all = chunks_from(events, start);
        if i > 0 {
            every_chunk_has_its_size(events, stop, i - 1);
            assert(all[i] == rest[i - 1]);
        } else {
            assert(all[0] == events.subrange(start, stop));
        }
    }
}

/// What a ring holds after it has taken in some batches is the newest of what it held and
/// of those, in order, and always the newest of all.
pub proof fn the_newest_are_held(ring: RingView, batches: Seq<BatchView>)
    ensures
        ({
            let after = pushed_all(ring, batches);
            let all = ring.batches + batches;
            &&& after.batches.len() <= all.len()
            &&& after.batches == all.skip(all.len() - after.batches.len())
            &&& batches.len() > 0 ==> after.batches.len() > 0 && after.batches.last()
                == batches.last()
            &&& after.capacity == ring.capacity
            &&& after.floor == ring.floor
        }),
    decreases batches.len(),
{
    let all = ring.batches + batches;
    if batches.len() == 0 {
        assert(all.skip(0) =~= ring.batches);
    } else {
        let rest = batches.drop_last();
        the_newest_are_held(ring, rest);
        let before = pushed_all(ring, rest);
        let full = RingView { batches: before.batches.push(batches.last()), ..before };
        the_oldest_go_first(full);
        let n = choose|n: int|
            0 <= n <= full.batches.len() && (full.batches.len() > 0 ==> n < full.batches.len())
                && full.trimmed().batches == #[trigger] full.batches.skip(n);
        let shorter = ring.batches + rest;
        assert(full.batches =~= all.skip(shorter.len() - before.batches.len()));
        assert(full.batches.skip(n) =~= all.skip(shorter.len() - before.batches.len() + n));
    }
}

/// Every event that a ring held or has taken in is held, or counted as let go.
pub proof fn what_is_taken_in_is_held_or_counted(ring: RingView, batches: Seq<BatchView>)
    requires
        ring.evicted_events + total_events(ring.batches) + total_events(batches) <= u64::MAX,
    ensures
        ({
            let after = pushed_all(ring, batches);
            after.evicted_events + total_events(after.batches) == ring.evicted_events
                + total_events(ring.batches) + total_events(batches)
        }),
    decreases batches.len(),
{
    if batches.len() > 0 {
        let rest = batches.drop_last();
        assert(batches =~= rest.push(batches.last()));
        lemma_push_events(rest, batches.last());
        what_is_taken_in_is_held_or_counted(ring, rest);
        let before = pushed_all(ring, rest);
        lemma_push_events(before.batches, batches.last());
        let full = RingView { batches: before.batches.push(batches.last()), ..before };
        events_are_held_or_counted(full);
    }
}

/// A window that is closed is gone, and every other one stays; the history stays as it is
/// until the ring is told.
pub proof fn closing_a_window_leaves_the_others(v: RecorderView, id: u64, w: (u64, u64))
    ensures
        v.without(id).windows.contains(w) <==> v.windows.contains(w) && w.0 != id,
        v.without(id).ring == v.ring,
{
    let kept = v.windows.filter(is_another(id));
    if v.windows.contains(w) && w.0 != id {
        let i = v.windows.index_of(w);
        assert(v.windows[i] == w);
        v.windows.lemma_filter_contains(is_another(id), i);
    }
    if kept.contains(w) {
        v.windows.lemma_filter_contains_rev(is_another(id), w);
    }
}

/// A recorder that is told of its windows holds on to the history of each of them, and to
/// none where none is open.
pub proof fn a_recorder_holds_on_to_its_windows(v: RecorderView, i: int)
    ensures
        v.refloored().windows == v.windows,
        v.windows.len() == 0 ==> v.refloored().ring.floor is None,
        0 <= i < v.windows.len() ==> v.refloored().ring.floor is Some
            && v.refloored().ring.floor->0 <= v.windows[i].1,
        v.refloored().ring.capacity == v.ring.capacity,
        v.refloored().ring.batches.len() <= v.ring.batches.len(),
        v.refloored().ring.batches == v.ring.batches.skip(
            v.ring.batches.len() - v.refloored().ring.batches.len(),
        ),
{
    the_floor_follows_the_oldest_window(v.windows);
    let told = RingView { floor: earliest(v.windows), ..v.ring };
    the_oldest_go_first(told);
    let n = choose|n: int|
        0 <= n <= told.batches.len() && (told.batches.len() > 0 ==> n < told.batches.len())
            && told.trimmed().batches == #[trigger] told.batches.skip(n);
    assert(told.trimmed().batches == told.batches.skip(n));
}

/// A session without a message stops exactly where the queue is closed and all is taken in,
/// and looks at the threads every 1024 turns. It rests only where the turn before brought
/// nothing, for as long as it had made up its mind to, and then longer.
pub proof fn a_session_without_a_message<D>(
    before: SessionView<D>,
    queue: QueueView,
    after: SessionView<D>,
    after_queue: QueueView,
    ask: Ask<D>,
)
    requires
        on_no_message(before, queue, after, after_queue, ask),
        before.turns < 1024,
    ensures
        ask is Stop <==> before.closing,
        ask is ReadTails <==> !before.closing && before.turns == 1023,
        !before.closing ==> after.turns == (before.turns + 1) % 1024,
        ask matches Ask::Rest(micros) ==> {
            &&& micros == before.next_rest
            &&& !before.worked
            &&& after.recorder.ring == before.recorder.ring
            &&& after.next_rest == micros * 2 || (after.next_rest == 200 && micros * 2 > 200)
        },
        !before.closing && before.turns < 1023 && before.worked ==> ask is Receive && (
        after.closing || after.next_rest == 20),
        after.recorder.windows == before.recorder.windows,
        after_queue.closed == queue.closed,
        after_queue.dropped == queue.dropped,
        after.closing && !before.closing ==> queue.closed,
{
}

/// A window is opened, and a dump asked for, as the message says.
pub proof fn a_session_does_what_it_is_told<D>(
    before: SessionView<D>,
    queue: QueueView,
    msg: Control<D>,
    after: SessionView<D>,
    after_queue: QueueView,
    ask: Ask<D>,
)
    requires
        on_message(before, queue, msg, after, after_queue, ask),
    ensures
        after.worked,
        ask is ReadTails <==> msg is Dump || msg is DumpAll,
        ask is Receive <==> msg is Open || msg is Cancel,
        msg matches Control::Open { id, start_ticks } ==> {
            &&& after.recorder.windows == before.recorder.windows.push((id, start_ticks))
            &&& after.recorder.ring.floor is Some && after.recorder.ring.floor->0 <= start_ticks
        },
        msg matches Control::Cancel { id } ==> forall|w: (u64, u64)| #[trigger]
            after.recorder.windows.contains(w) <==> before.recorder.windows.contains(w) && w.0
                != id,
        msg is Dump || msg is DumpAll ==> after.recorder.windows == before.recorder.windows,
{
    match msg {
        Control::Open { id, start_ticks } => {
            let opened = RecorderView {
                windows: before.recorder.windows.push((id, start_ticks)),
                ..before.recorder
            };
            a_recorder_holds_on_to_its_windows(opened, opened.windows.len() - 1);
        },
        Control::Cancel { id } => {
            assert forall|w: (u64, u64)| #[trigger]
                after.recorder.windows.contains(w) <==> before.recorder.windows.contains(w) && w.0
                    != id by {
                closing_a_window_leaves_the_others(before.recorder, id, w);
            }
        },
        _ => {},
    }
}

/// A recorder opens a window for the history from a reading on, closes the one it is told
/// to, and makes a dump of what it is told, between the readings it is told.
pub proof fn a_recorder_does_what_it_is_told<D>(
    r: &mut Recorder,
    msg: Control<D>,
    dump: Option<Dump<D>>,
    w: (u64, u64),
)
    requires
        old(r).wf(),
        call_ensures(Recorder::handle::<D>, (r, msg), dump),
    ensures
        dump is Some <==> msg is Dump || msg is DumpAll,
        msg matches Control::Open { id, start_ticks } ==> {
            &&& final(r)@.windows == old(r)@.windows.push((id, start_ticks))
            &&& final(r)@.ring.floor is Some && final(r)@.ring.floor->0 <= start_ticks
        },
        msg matches Control::Cancel { id } ==> (final(r)@.windows.contains(w)
            <==> old(r)@.windows.contains(w) && w.0 != id),
        msg matches Control::Dump { id, start_ticks, end_ticks, reason, done } ==> {
            &&& dump->0.id == Some(id)
            &&& dump->0.start_ticks == start_ticks
            &&& dump->0.end_ticks == end_ticks
            &&& dump->0.reason == reason
            &&& dump->0.done == done
            &&& final(r)@ == old(r)@
        },
        msg matches Control::DumpAll { end_ticks, reason, done } ==> {
            &&& dump->0.id is None
            &&& dump->0.start_ticks == 0
            &&& dump->0.end_ticks == end_ticks
            &&& dump->0.reason == reason
            &&& dump->0.done == done
            &&& final(r)@ == old(r)@
        },
{
    match msg {
        Control::Open { id, start_ticks } => {
            let opened = RecorderView {
                windows: old(r)@.windows.push((id, start_ticks)),
                ..old(r)@
            };
            a_recorder_holds_on_to_its_windows(opened, opened.windows.len() - 1);
        },
        Control::Cancel { id } => {
            closing_a_window_leaves_the_others(old(r)@, id, w);
        },
        _ => {},
    }
}

/// What a dump is cut to is the stretch it asks for: of all that was sent, of what the
/// threads have open, and by the clock of the queue. The dump asks for the same after that.
pub proof fn a_dump_is_cut_to_its_stretch<D>(
    r: &mut Recorder,
    inbound: &mut EventQueue,
    dump: &mut Dump<D>,
    tails: &[EventBatch],
    k: int,
    i: int,
    reading: u64,
)
    requires
        old(r).wf(),
        call_ensures(Recorder::cut::<D>, (r, inbound, dump, tails), ()),
        0 <= k < final(r)@.ring.batches.len(),
        0 <= i < final(r)@.ring.batches[k].events.len(),
        reading == (final(r)@.ring.batches[k].base_ticks
            + final(r)@.ring.batches[k].events[i].delta_ticks) % 0x1_0000_0000_0000_0000,
        old(dump).start_ticks <= reading <= old(dump).end_ticks,
        all_by(
            final(r)@.ring.batches.take(k),
            final(r)@.ring.batches[k].tid,
            old(dump).end_ticks,
        ),
        forall|j: int|
            0 <= j < i ==> (final(r)@.ring.batches[k].base_ticks + (
            #[trigger] final(r)@.ring.batches[k].events[j]).delta_ticks)
                % 0x1_0000_0000_0000_0000 <= old(dump).end_ticks,
    ensures
        holds_event(
            final(dump).cut(),
            old(inbound)@.clock.ns_at(reading),
            final(r)@.ring.batches[k].tid,
            final(r)@.ring.batches[k].events[i].code_kind,
        ),
        final(dump).handed_out() == 0,
        final(dump).start_ticks == old(dump).start_ticks,
        final(dump).end_ticks == old(dump).end_ticks,
        final(r)@.windows == old(r)@.windows,
        all_dry(final(inbound)@.outlets),
{
    a_reading_of_the_history_is_shown(
        final(r)@.ring.batches,
        views(tails@),
        final(inbound)@.clock,
        final(r)@.ring.horizon_ticks,
        old(dump).start_ticks,
        old(dump).end_ticks,
        k,
        i,
        reading,
    );
}

/// A dump is handed out 4096 events at a time, in order, until there are none left.
pub proof fn a_dump_is_handed_out_in_chunks<D>(dump: &mut Dump<D>, chunk: Option<Vec<Event>>)
    requires
        old(dump).handed_out() <= old(dump).cut().len(),
        call_ensures(Dump::<D>::next_chunk, (dump,), chunk),
    ensures
        chunk is None <==> old(dump).handed_out() == old(dump).cut().len(),
        chunk matches Some(events) ==> {
            &&& 0 < events@.len() <= 4096
            &&& events@.len() < 4096 ==> final(dump).handed_out() == old(dump).cut().len()
            &&& final(dump).handed_out() == old(dump).handed_out() + events@.len()
            &&& events@ == old(dump).cut().subrange(
                old(dump).handed_out(),
                old(dump).handed_out() + events@.len(),
            )
        },
        final(dump).cut() == old(dump).cut(),
{
}

/// The floor that is published is no later than now, than any open batch, and than any that
/// is held, and is one of them.
pub proof fn the_floor_that_is_published_is_the_earliest(
    r: &mut Recorder,
    inbound: &mut EventQueue,
    now: u64,
    tails: &[EventBatch],
    i: int,
)
    requires
        old(r).wf(),
        call_ensures(Recorder::update_recycle_floor, (r, inbound, now, tails), ()),
    ensures
        ({
            let floor = final(inbound)@.recycle_floor;
            let held = final(r)@.ring.batches;
            &&& floor <= now
            &&& 0 <= i < tails@.len() ==> floor <= tails@[i].base_ticks
            &&& 0 <= i < held.len() ==> floor <= held[i].base_ticks
            &&& {
                ||| floor == now
                ||| exists|k: int| 0 <= k < tails@.len() && views(tails@)[k].base_ticks == floor
                ||| exists|k: int| 0 <= k < held.len() && (#[trigger] held[k]).base_ticks == floor
            }
        }),
        final(r)@.windows == old(r)@.windows,
        final(inbound)@.dropped == old(inbound)@.dropped,
        final(inbound)@.closed == old(inbound)@.closed,
{
    let open = views(tails@);
    let held = final(r)@.ring.batches;
    nothing_held_starts_before_the_floor(now, open, held);
    if 0 <= i < tails@.len() {
        assert(open[i].base_ticks == tails@[i].base_ticks);
    }
    the_floor_is_a_start_that_is_held(now, open);
    the_floor_is_a_start_that_is_held(earliest_start(now, open), held);
}

/// A dump that is done closes its own window and no other, and hands back what it was asked
/// with.
pub proof fn a_dump_that_is_done_closes_its_window<D>(
    r: &mut Recorder,
    inbound: &mut EventQueue,
    dump: Dump<D>,
    now: u64,
    tails: &[EventBatch],
    done: Option<D>,
    w: (u64, u64),
)
    requires
        old(r).wf(),
        call_ensures(Recorder::settle::<D>, (r, inbound, dump, now, tails), done),
    ensures
        done == dump.done,
        dump.id matches Some(id) ==> (final(r)@.windows.contains(w) <==> old(r)@.windows.contains(w)
            && w.0 != id),
        dump.id is None ==> final(r)@.windows == old(r)@.windows,
        final(inbound)@.recycle_floor <= now,
{
    if let Some(id) = dump.id {
        closing_a_window_leaves_the_others(old(r)@, id, w);
    }
    nothing_held_starts_before_the_floor(now, views(tails@), final(r)@.ring.batches);
}

/// A turn of a recorder works where something came, is idle where nothing did, and ends
/// only where the queue is closed and nothing is left. It takes in 256 batches at most while
/// there are any.
pub proof fn a_turn_ends_where_the_queue_is_closed(
    r: &mut Recorder,
    inbound: &mut EventQueue,
    turn: Turn,
    ticker: &mut Ticker,
    due: bool,
)
    requires
        old(r).wf(),
        call_ensures(Recorder::turn, (r, inbound), turn),
        old(ticker).count() < 1024,
        call_ensures(Ticker::tick, (ticker,), due),
    ensures
        turn is Closed ==> old(inbound)@.closed && all_dry(final(inbound)@.outlets),
        turn is Idle ==> !old(inbound)@.closed && all_dry(final(inbound)@.outlets)
            && final(r)@.ring == old(r)@.ring,
        turn is Worked ==> 0 < drained(old(inbound)@.outlets, final(inbound)@.outlets).len()
            <= 256 && final(r)@.ring == pushed_all(
            old(r)@.ring,
            drained(old(inbound)@.outlets, final(inbound)@.outlets),
        ),
        final(r)@.windows == old(r)@.windows,
        final(inbound)@.dropped == old(inbound)@.dropped,
        due <==> old(ticker).count() == 1023,
        final(ticker).count() == (old(ticker).count() + 1) % 1024,
{
}

/// A session goes through a dump step by step: it opens the file under the dump's reason
/// once it has the tails, writes the events 4096 at a time, ends the file with the count of
/// lost events, closes the dump's window, and tells the one who asked. It stops only where
/// it has stopped before or the queue has been closed.
pub proof fn a_session_goes_through_a_dump<D>(
    s: &mut Session<D>,
    inbound: &mut EventQueue,
    message: Option<Control<D>>,
    now: u64,
    tails: &[EventBatch],
    ask: Ask<D>,
    w: (u64, u64),
)
    requires
        old(s).wf(),
        call_ensures(Session::<D>::step, (s, inbound, message, now, tails), ask),
    ensures
        old(s)@.phase matches Phase::CutTails(dump) ==> {
            &&& ask matches Ask::Open(reason) && reason@ == dump.reason@
            &&& final(s)@.phase matches Phase::Opened(d) && d.id == dump.id && d.done == dump.done
                && d.handed_out() == 0
            &&& final(s)@.recorder.windows == old(s)@.recorder.windows
            &&& all_dry(final(inbound)@.outlets)
        },
        old(s)@.phase matches Phase::Opened(dump) ==> {
            &&& dump.handed_out() < dump.cut().len() ==> (ask matches Ask::Write(events) && 0
                < events@.len() <= 4096 && events@ == dump.cut().subrange(
                dump.handed_out(),
                dump.handed_out() + events@.len(),
            ))
            &&& dump.handed_out() >= dump.cut().len() ==> ask == Ask::<D>::Finish(
                old(inbound)@.dropped,
            )
        },
        old(s)@.phase matches Phase::Written(dump) ==> {
            &&& dump.handed_out() < dump.cut().len() ==> (ask matches Ask::Write(events) && 0
                < events@.len() <= 4096 && events@ == dump.cut().subrange(
                dump.handed_out(),
                dump.handed_out() + events@.len(),
            ))
            &&& dump.handed_out() >= dump.cut().len() ==> ask == Ask::<D>::Finish(
                old(inbound)@.dropped,
            )
        },
        old(s)@.phase is Finished ==> ask is ReadTails && final(s)@.phase is SettleTails,
        old(s)@.phase matches Phase::SettleTails(dump) ==> {
            &&& dump.done matches Some(done) ==> ask == Ask::<D>::Tell(done)
            &&& dump.done is None ==> ask is Receive
            &&& dump.id matches Some(id) ==> (final(s)@.recorder.windows.contains(w)
                <==> old(s)@.recorder.windows.contains(w) && w.0 != id)
            &&& dump.id is None ==> final(s)@.recorder.windows == old(s)@.recorder.windows
            &&& final(inbound)@.recycle_floor <= now
        },
        old(s)@.phase is Told || old(s)@.phase is Rested ==> ask is Receive && final(s)@.recorder
            == old(s)@.recorder,
        ask is Stop ==> old(s)@.phase is Stopped || (old(s)@.phase is Message && message is None
            && old(s)@.closing),
        old(s)@.phase is Stopped ==> ask is Stop,
        old(s)@.phase is Message && message is Some ==> (ask is ReadTails <==> message->0 is Dump
            || message->0 is DumpAll),
        old(s)@.phase is Message && message is None ==> (ask is Stop <==> old(s)@.closing),
{
    if let Phase::SettleTails(dump) = old(s)@.phase {
        if let Some(id) = dump.id {
            closing_a_window_leaves_the_others(old(s)@.recorder, id, w);
        }
        nothing_held_starts_before_the_floor(
            now,
            views(tails@),
            final(s)@.recorder.ring.batches,
        );
    }
}

/// What a recorder takes in is what comes out of the queue, and the newest of it is held; it
/// leaves none behind unless it has come to its limit. What is wanted stays so.
pub proof fn what_comes_out_is_taken_in(
    r: &mut Recorder,
    inbound: &mut EventQueue,
    limit: usize,
    got: usize,
    all: &mut Recorder,
    emptied: &mut EventQueue,
)
    requires
        old(r).wf(),
        old(all).wf(),
        call_ensures(Recorder::absorb, (r, inbound, limit), got),
        call_ensures(Recorder::absorb_all, (all, emptied), ()),
    ensures
        ({
            let came = drained(old(inbound)@.outlets, final(inbound)@.outlets);
            &&& got == came.len()
            &&& got > 0 ==> final(r)@.ring.batches.len() > 0 && final(r)@.ring.batches.last()
                == came.last()
            &&& got == 0 ==> final(r)@.ring == old(r)@.ring
            &&& got < limit ==> all_dry(final(inbound)@.outlets)
        }),
        final(r)@.windows == old(r)@.windows,
        final(r)@.ring.floor == old(r)@.ring.floor,
        final(r)@.ring.capacity == old(r)@.ring.capacity,
        all_dry(final(emptied)@.outlets),
        final(all)@.windows == old(all)@.windows,
        final(emptied)@.dropped == old(emptied)@.dropped,
        final(emptied)@.recycle_floor == old(emptied)@.recycle_floor,
{
    the_newest_are_held(
        old(r)@.ring,
        drained(old(inbound)@.outlets, final(inbound)@.outlets),
    );
}

} // verus!
