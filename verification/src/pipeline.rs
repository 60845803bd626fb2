//! From the threads' lanes to an exporter.

use crate::clock::{low64, Clock};
use crate::event::Event;
use crate::evqueue::{
    all_dry, came_out, decoded_batch, drained, has_advanced, in_turn, stopped_at_batches,
    BatchView, EventBatch, EventQueue, QueueView,
};
use crate::lane::{inlet, new_lane, outlet, receive, send, Inlet, Outlet};
use crate::lists::reversed;
use crate::recorder::{pushed_all, the_newest_are_held};
use crate::ring::{boxed_views, lemma_push_events, total_events, Ring, RingView};
use rtrb::{Consumer, Producer};
use vstd::prelude::*;

verus! {

/// How many batches can be on their way from the serializer to the writer.
pub const FANIN_BATCHES: usize = 256;

/// How many microseconds a reader rests the first time that it finds nothing.
pub const FIRST_REST: u64 = 20;

/// How many microseconds it rests at most.
pub const LONGEST_REST: u64 = 200;

/// The rest that follows a rest.
pub open spec fn doubled_rest(micros: u64) -> u64 {
    if 2 * micros > LONGEST_REST {
        LONGEST_REST
    } else {
        (2 * micros) as u64
    }
}

/// How long a reader that finds nothing rests.
pub struct Pace {
    rest: u64,
}

impl Pace {
    /// The microseconds that the next rest takes.
    pub closed spec fn next_rest(&self) -> u64 {
        self.rest
    }

    pub fn new() -> (p: Self)
        ensures
            p.next_rest() == FIRST_REST,
    {
        Pace { rest: FIRST_REST }
    }

    /// Something was found: the next rest is a short one again.
    pub fn worked(&mut self)
        ensures
            final(self).next_rest() == FIRST_REST,
    {
        self.rest = FIRST_REST;
    }

    /// Nothing was found: how long to rest now. The rest after that is twice as long,
    /// up to the longest.
    pub fn backoff(&mut self) -> (micros: u64)
        ensures
            micros == old(self).next_rest(),
            final(self).next_rest() == doubled_rest(micros),
    {
        let micros: u64 = self.rest;
        self.rest = if micros > LONGEST_REST / 2 {
            LONGEST_REST
        } else {
            2 * micros
        };
        micros
    }
}

/// Of some batches, those that were let through.
pub open spec fn let_through(batches: Seq<BatchView>, ok: Seq<bool>) -> Seq<BatchView>
    decreases batches.len(),
{
    if batches.len() == 0 {
        Seq::empty()
    } else {
        let rest = let_through(batches.drop_last(), ok);
        if ok[batches.len() - 1] {
            rest.push(batches.last())
        } else {
            rest
        }
    }
}

/// Of some batches, those that were turned away.
pub open spec fn turned_away(batches: Seq<BatchView>, ok: Seq<bool>) -> Seq<BatchView>
    decreases batches.len(),
{
    if batches.len() == 0 {
        Seq::empty()
    } else {
        let rest = turned_away(batches.drop_last(), ok);
        if ok[batches.len() - 1] {
            rest
        } else {
            rest.push(batches.last())
        }
    }
}

/// Whether these are the batches that a lane took of those it was offered: they went
/// in, in order, and the events of the others were counted. None is turned away
/// before as many have gone in as the lane has room for.
pub open spec fn chose(
    before: Inlet,
    after: Inlet,
    batches: Seq<BatchView>,
    dropped: u64,
    after_dropped: u64,
    ok: Seq<bool>,
) -> bool {
    &&& ok.len() == batches.len()
    &&& before.sent + let_through(batches, ok).len() == after.sent
    &&& forall|i: int|
        0 <= i < let_through(batches, ok).len() ==> #[trigger] let_through(batches, ok)[i]
            == after.lane[before.sent + i]
    &&& after_dropped == low64(dropped + total_events(turned_away(batches, ok)))
    &&& forall|i: int|
        0 <= i < batches.len() && !#[trigger] ok[i] ==> before.sent + let_through(
            batches.take(i),
            ok,
        ).len() >= before.capacity
}

/// Whether some batches have been offered to a lane, each of them once, and it took
/// those it had room for.
pub open spec fn offered(
    before: Inlet,
    after: Inlet,
    batches: Seq<BatchView>,
    dropped: u64,
    after_dropped: u64,
) -> bool {
    &&& after.lane == before.lane
    &&& after.capacity == before.capacity
    &&& before.sent < after.sent ==> after.sent <= after.lane.len()
    &&& exists|ok: Seq<bool>| chose(before, after, batches, dropped, after_dropped, ok)
}

/// Sends a batch on, or counts its events where there is no room for it.
pub fn ship(full: &mut Producer<Box<EventBatch>>, batch: Box<EventBatch>, dropped: &mut u64)
    ensures
        inlet(*final(full)).lane == inlet(*old(full)).lane,
        inlet(*final(full)).capacity == inlet(*old(full)).capacity,
        ({
            ||| {
                &&& inlet(*final(full)).sent == inlet(*old(full)).sent + 1
                &&& inlet(*final(full)).sent <= inlet(*final(full)).lane.len()
                &&& inlet(*old(full)).lane[inlet(*old(full)).sent as int] == batch@
                &&& *final(dropped) == *old(dropped)
            }
            ||| {
                &&& inlet(*final(full)).sent == inlet(*old(full)).sent
                &&& inlet(*old(full)).sent >= inlet(*old(full)).capacity
                &&& *final(dropped) == low64(*old(dropped) + batch@.events.len())
            }
        }),
{
    let events: u64 = batch.events.len() as u64;
    match send(full, batch) {
        Ok(()) => {},
        Err(_) => {
            *dropped = dropped.wrapping_add(events);
        },
    }
}

proof fn lemma_choices_extend(batches: Seq<BatchView>, ok: Seq<bool>, more: bool)
    requires
        ok.len() >= batches.len(),
    ensures
        let_through(batches, ok.push(more)) == let_through(batches, ok),
        turned_away(batches, ok.push(more)) == turned_away(batches, ok),
    decreases batches.len(),
{
    if batches.len() > 0 {
        lemma_choices_extend(batches.drop_last(), ok, more);
    }
}

/// Sends some batches on, in order.
fn ship_all(
    full: &mut Producer<Box<EventBatch>>,
    batches: Vec<Box<EventBatch>>,
    dropped: &mut u64,
)
    ensures
        offered(
            inlet(*old(full)),
            inlet(*final(full)),
            boxed_views(batches@),
            *old(dropped),
            *final(dropped),
        ),
{
    let ghost all = boxed_views(batches@);
    let ghost before = inlet(*full);
    let ghost start = *dropped;
    let ghost mut ok: Seq<bool> = Seq::empty();
    let n: usize = batches.len();
    let mut backwards = reversed(batches);
    assert(all.take(0) =~= Seq::empty());
    while backwards.len() > 0
        invariant
            n == all.len(),
            backwards@.len() <= n,
            start == *old(dropped),
            before == inlet(*old(full)),
            ok.len() == n - backwards@.len(),
            ({
                let done = all.take(n - backwards@.len());
                let after = inlet(*full);
                let kept = let_through(done, ok);
                &&& after.lane == before.lane
                &&& after.capacity == before.capacity
                &&& before.sent + kept.len() == after.sent
                &&& before.sent < after.sent ==> after.sent <= after.lane.len()
                &&& forall|i: int|
                    0 <= i < kept.len() ==> #[trigger] kept[i] == after.lane[before.sent + i]
                &&& *dropped == low64(start + total_events(turned_away(done, ok)))
            }),
            forall|i: int|
                0 <= i < ok.len() && !#[trigger] ok[i] ==> before.sent + let_through(
                    all.take(i),
                    ok,
                ).len() >= before.capacity,
            forall|i: int|
                0 <= i < backwards@.len() ==> (#[trigger] backwards@[i])@ == all[n - 1 - i],
        decreases backwards@.len(),
    {
        let ghost k = n - backwards@.len();
        let ghost done = all.take(k);
        let ghost now = inlet(*full);
        assert(all.take(k + 1).drop_last() =~= done);
        assert(backwards@[backwards@.len() - 1]@ == all[k]);
        match backwards.pop() {
            Some(batch) => {
                ship(full, batch, dropped);
                proof {
                    let went = inlet(*full).sent > now.sent;
                    lemma_choices_extend(done, ok, went);
                    lemma_push_events(turned_away(done, ok), all[k]);
                    assert forall|i: int| 0 <= i <= k && !#[trigger] ok.push(went)[i] implies before.sent
                        + let_through(all.take(i), ok.push(went)).len() >= before.capacity by {
                        lemma_choices_extend(all.take(i), ok, went);
                        if i < k {
                            assert(!ok[i]);
                        }
                    }
                    ok = ok.push(went);
                }
            },
            None => {},
        }
    }
    assert(all.take(n as int) =~= all);
    assert(chose(before, inlet(*full), all, start, *dropped, ok));
}

/// What came of one turn of the serializer.
#[derive(Copy, Clone, Debug, PartialEq, Eq, Structural)]
enum Serialized {
    /// Batches were sent on.
    Batches,
    /// There was nothing to send on: rest, and try again.
    Nothing,
    /// There was nothing to send on, and the queue is closed: send on the rest.
    Closed,
}

/// What the serializer asks to be done next.
#[derive(Copy, Clone, Debug, PartialEq, Eq, Structural)]
pub enum Onward {
    /// Go on at once.
    Again,
    /// Rest for some microseconds, and go on.
    Rest(u64),
    /// Stop: the queue is closed, and all that was in it has been sent on.
    Stop,
}

/// Brings the batches of all threads together, for the writer.
pub struct Serializer {
    full: Producer<Box<EventBatch>>,
    dropped: u64,
    pace: Pace,
    /// Whether the queue is closed and only what is left in it is to be sent on.
    ending: bool,
}

/// Where a serializer stands.
pub struct SerializerView {
    /// The lane to the writer.
    pub way: Inlet,
    /// How many events found no room on it.
    pub lost: u64,
    /// How long it rests where it finds nothing.
    pub next_rest: u64,
    /// Whether the queue is closed and only what is left in it is to be sent on.
    pub ending: bool,
}

impl View for Serializer {
    type V = SerializerView;

    closed spec fn view(&self) -> SerializerView {
        SerializerView {
            way: inlet(self.full),
            lost: self.dropped,
            next_rest: self.pace.next_rest(),
            ending: self.ending,
        }
    }
}

/// Whether a serializer has gone on by one step: it has sent on what the threads had
/// sent, a few batches at a time until the queue is closed and all there is after
/// that. It stops once nothing is left in a closed queue.
pub open spec fn sent_on(
    before: SerializerView,
    queue: QueueView,
    after: SerializerView,
    left: QueueView,
    onward: Onward,
) -> bool {
    let batches = drained(queue.outlets, left.outlets);
    &&& left == (QueueView { outlets: left.outlets, ..queue })
    &&& in_turn(queue.outlets, left.outlets)
    &&& stopped_at_batches(
        batches.len(),
        left.outlets,
        if before.ending {
            usize::MAX
        } else {
            FANIN_BATCHES
        },
    )
    &&& offered(before.way, after.way, batches, before.lost, after.lost)
    &&& if batches.len() > 0 {
        &&& onward is Again
        &&& after.ending == before.ending
        &&& after.next_rest == (if before.ending {
            before.next_rest
        } else {
            FIRST_REST
        })
    } else if before.ending {
        &&& onward is Stop
        &&& after.ending
        &&& after.next_rest == before.next_rest
    } else if queue.closed {
        &&& onward is Again
        &&& after.ending
        &&& after.next_rest == before.next_rest
    } else {
        &&& onward == Onward::Rest(before.next_rest)
        &&& !after.ending
        &&& after.next_rest == doubled_rest(before.next_rest)
    }
}

impl Serializer {
    /// Goes on: sends on what the threads have sent, a few batches at a time until
    /// the queue is closed and all there is after that.
    pub fn step(&mut self, inbound: &mut EventQueue) -> (onward: Onward)
        ensures
            sent_on(old(self)@, old(inbound)@, final(self)@, final(inbound)@, onward),
    {
        if self.ending {
            if self.last_turn(inbound) {
                Onward::Again
            } else {
                Onward::Stop
            }
        } else {
            match self.turn(inbound) {
                Serialized::Batches => {
                    self.pace.worked();
                    Onward::Again
                },
                Serialized::Closed => {
                    self.ending = true;
                    Onward::Again
                },
                Serialized::Nothing => Onward::Rest(self.pace.backoff()),
            }
        }
    }

    /// One turn: sends on what the threads have sent, a few batches at most.
    fn turn(&mut self, inbound: &mut EventQueue) -> (r: Serialized)
        ensures
            final(inbound)@ == (QueueView { outlets: final(inbound)@.outlets, ..old(inbound)@ }),
            in_turn(old(inbound)@.outlets, final(inbound)@.outlets),
            final(self)@.next_rest == old(self)@.next_rest,
            final(self)@.ending == old(self)@.ending,
            ({
                let batches = drained(old(inbound)@.outlets, final(inbound)@.outlets);
                &&& stopped_at_batches(batches.len(), final(inbound)@.outlets, FANIN_BATCHES)
                &&& offered(
                    old(self)@.way,
                    final(self)@.way,
                    batches,
                    old(self)@.lost,
                    final(self)@.lost,
                )
                &&& r == (if batches.len() > 0 {
                    Serialized::Batches
                } else if old(inbound)@.closed {
                    Serialized::Closed
                } else {
                    Serialized::Nothing
                })
            }),
    {
        let mut batches: Vec<Box<EventBatch>> = Vec::new();
        assert(boxed_views(batches@) =~= Seq::empty());
        let got: usize = inbound.drain_batches(&mut batches, FANIN_BATCHES);
        assert(boxed_views(batches@) =~= drained(old(inbound)@.outlets, inbound@.outlets));
        ship_all(&mut self.full, batches, &mut self.dropped);
        if got > 0 {
            Serialized::Batches
        } else if inbound.is_closed() {
            Serialized::Closed
        } else {
            Serialized::Nothing
        }
    }

    /// One turn once the queue is closed: sends on all there is. Whether there was
    /// anything, in which case there may be more.
    fn last_turn(&mut self, inbound: &mut EventQueue) -> (more: bool)
        ensures
            final(inbound)@ == (QueueView { outlets: final(inbound)@.outlets, ..old(inbound)@ }),
            in_turn(old(inbound)@.outlets, final(inbound)@.outlets),
            final(self)@.next_rest == old(self)@.next_rest,
            final(self)@.ending == old(self)@.ending,
            ({
                let batches = drained(old(inbound)@.outlets, final(inbound)@.outlets);
                &&& stopped_at_batches(batches.len(), final(inbound)@.outlets, usize::MAX)
                &&& offered(
                    old(self)@.way,
                    final(self)@.way,
                    batches,
                    old(self)@.lost,
                    final(self)@.lost,
                )
                &&& more == (batches.len() > 0)
                &&& !more ==> all_dry(final(inbound)@.outlets)
            }),
    {
        let mut batches: Vec<Box<EventBatch>> = Vec::new();
        assert(boxed_views(batches@) =~= Seq::empty());
        let got: usize = inbound.drain_batches(&mut batches, usize::MAX);
        assert(boxed_views(batches@) =~= drained(old(inbound)@.outlets, inbound@.outlets));
        ship_all(&mut self.full, batches, &mut self.dropped);
        got > 0
    }

    /// How many events found no room on the lane to the writer.
    pub fn dropped(&self) -> (n: u64)
        ensures
            n == self@.lost,
    {
        self.dropped
    }
}

/// What came of an attempt to take in a batch.
#[derive(Copy, Clone, Debug, PartialEq, Eq, Structural)]
enum Intake {
    /// A batch was taken in.
    One,
    /// All that was left has been taken in.
    Last,
    /// There is nothing yet.
    Nothing,
}

/// What the writer asks to be done next.
#[derive(Copy, Clone, Debug, PartialEq, Eq, Structural)]
pub enum Onto {
    /// Write the events of the page.
    Write,
    /// Rest for some microseconds.
    Rest(u64),
    /// Write the end of the trace.
    Finish,
}

/// Takes in what the serializer sends, and decodes it for an exporter.
pub struct Writer {
    full: Consumer<Box<EventBatch>>,
    ring: Ring,
    decoded: Vec<Event>,
    pace: Pace,
    /// Whether all that is to be written has been taken in.
    ending: bool,
}

/// Where a writer stands.
pub struct WriterView {
    /// The lane from the serializer.
    pub way: Outlet,
    /// What has been taken in and is to be written.
    pub held: RingView,
    /// The events that are to be written next.
    pub page: Seq<Event>,
    /// How long it rests where it finds nothing.
    pub next_rest: u64,
    /// Whether all that is to be written has been taken in.
    pub ending: bool,
}

impl View for Writer {
    type V = WriterView;

    closed spec fn view(&self) -> WriterView {
        WriterView {
            way: outlet(self.full),
            held: self.ring@,
            page: self.decoded@,
            next_rest: self.pace.next_rest(),
            ending: self.ending,
        }
    }
}

/// Whether a writer has gone on by one step. What it holds is to be written first, a
/// batch at a time. Where it holds nothing it takes in a batch; or rests where there
/// is none; or takes in all that is left, once the serializer has finished and there
/// was none. It finishes when that has been written too.
pub open spec fn wrote_on(
    before: WriterView,
    clock: Clock,
    serializer_finished: bool,
    after: WriterView,
    onto: Onto,
) -> bool {
    let batches = came_out(before.way, after.way);
    let held = pushed_all(before.held, batches);
    &&& has_advanced(before.way, after.way)
    &&& if before.held.batches.len() > 0 || before.ending {
        &&& after.way == before.way
        &&& after.ending == before.ending
        &&& after.next_rest == before.next_rest
    } else if after.ending {
        &&& serializer_finished
        &&& after.way.dry
        &&& after.next_rest == before.next_rest
    } else if batches.len() > 0 {
        &&& batches.len() == 1
        &&& after.next_rest == FIRST_REST
    } else {
        &&& !serializer_finished
        &&& after.way.dry
        &&& after.next_rest == doubled_rest(before.next_rest)
    }
    &&& match onto {
        Onto::Write => {
            &&& held.batches.len() > 0
            &&& after.page == decoded_batch(clock, held.batches[0])
            &&& after.held == (RingView { batches: held.batches.skip(1), ..held })
        },
        Onto::Rest(micros) => {
            &&& held.batches.len() == 0
            &&& !after.ending
            &&& after.page == before.page
            &&& after.held == held
            &&& micros == before.next_rest
        },
        Onto::Finish => {
            &&& held.batches.len() == 0
            &&& after.ending
            &&& after.page == before.page
            &&& after.held == held
        },
    }
}

impl Writer {
    pub closed spec fn wf(&self) -> bool {
        self.ring.wf()
    }

    /// Goes on: decodes what is to be written, a batch at a time, and takes in more
    /// once it has all been written.
    pub fn step(&mut self, clock: &Clock, serializer_finished: bool) -> (onto: Onto)
        requires
            old(self).wf(),
        ensures
            final(self).wf(),
            wrote_on(old(self)@, *clock, serializer_finished, final(self)@, onto),
    {
        let ghost way = self@.way;
        let ghost held = self@.held;
        assert(came_out(way, way) =~= Seq::empty());
        if self.next_page(clock) {
            return Onto::Write;
        }
        if self.ending {
            return Onto::Finish;
        }
        match self.turn(serializer_finished) {
            Intake::One => {
                self.pace.worked();
                proof {
                    let batches = came_out(way, self@.way);
                    assert(batches.drop_last() =~= Seq::empty());
                    assert(pushed_all(held, batches.drop_last()) == held);
                    crate::ring::the_oldest_go_first(
                        RingView { batches: held.batches.push(batches.last()), ..held },
                    );
                }
                let _ = self.next_page(clock);
                Onto::Write
            },
            Intake::Last => {
                self.ending = true;
                if self.next_page(clock) {
                    Onto::Write
                } else {
                    Onto::Finish
                }
            },
            Intake::Nothing => Onto::Rest(self.pace.backoff()),
        }
    }

    /// Takes in a batch, or all that is left where the serializer has finished.
    fn turn(&mut self, serializer_finished: bool) -> (r: Intake)
        requires
            old(self).wf(),
        ensures
            final(self).wf(),
            final(self)@.page == old(self)@.page,
            final(self)@.next_rest == old(self)@.next_rest,
            final(self)@.ending == old(self)@.ending,
            has_advanced(old(self)@.way, final(self)@.way),
            ({
                let batches = came_out(old(self)@.way, final(self)@.way);
                &&& final(self)@.held == pushed_all(old(self)@.held, batches)
                &&& r is One ==> batches.len() == 1
                &&& r is Nothing ==> batches.len() == 0 && !serializer_finished
                    && final(self)@.way.dry
                &&& r is Last ==> serializer_finished && final(self)@.way.dry
            }),
    {
        let ghost way = self@.way;
        let ghost held = self@.held;
        match receive(&mut self.full) {
            Some(batch) => {
                self.ring.push(batch);
                proof {
                    let batches = came_out(way, self@.way);
                    assert(batches =~= seq![batch@]);
                    assert(batches.drop_last() =~= Seq::empty());
                    assert(pushed_all(held, batches.drop_last()) == held);
                }
                Intake::One
            },
            None => {
                if !serializer_finished {
                    return Intake::Nothing;
                }
                let mut more: bool = true;
                while more
                    invariant
                        self.ring.wf(),
                        self@.page == old(self)@.page,
                        self@.next_rest == old(self)@.next_rest,
                        self@.ending == old(self)@.ending,
                        has_advanced(way, self@.way),
                        self@.held == pushed_all(
                            held,
                            came_out(way, self@.way),
                        ),
                        self@.way.taken <= self@.way.lane.len(),
                        !more ==> self@.way.dry,
                    decreases
                            self@.way.lane.len() - self@.way.taken + if more {
                                1int
                            } else {
                                0int
                            },
                {
                    let ghost before = self@.way;
                    match receive(&mut self.full) {
                        Some(batch) => {
                            self.ring.push(batch);
                            proof {
                                let rest = came_out(way, before);
                                let all = came_out(way, self@.way);
                                assert(all =~= rest.push(batch@));
                                assert(all.drop_last() =~= rest);
                            }
                        },
                        None => {
                            more = false;
                        },
                    }
                }
                Intake::Last
            },
        }
    }

    /// Decodes the oldest batch that is to be written, where there is one.
    fn next_page(&mut self, clock: &Clock) -> (more: bool)
        requires
            old(self).wf(),
        ensures
            final(self).wf(),
            final(self)@.way == old(self)@.way,
            final(self)@.next_rest == old(self)@.next_rest,
            final(self)@.ending == old(self)@.ending,
            more == (old(self)@.held.batches.len() > 0),
            more ==> {
                &&& final(self)@.held == (RingView {
                    batches: old(self)@.held.batches.skip(1),
                    ..old(self)@.held
                })
                &&& final(self)@.page == decoded_batch(*clock, old(self)@.held.batches[0])
            },
            !more ==> final(self)@ == old(self)@,
    {
        match self.ring.pop() {
            Some(batch) => {
                self.decoded.clear();
                batch.decode_into(clock, &mut self.decoded);
                assert(self.decoded@ =~= decoded_batch(*clock, batch@));
                true
            },
            None => false,
        }
    }

    /// The events that are to be written next.
    pub fn events(&self) -> (events: &Vec<Event>)
        ensures
            events@ == self@.page,
    {
        &self.decoded
    }
}

/// A serializer and a writer, with a lane from the one to the other.
pub fn fan_in() -> (r: (Serializer, Writer))
    ensures
        r.1.wf(),
        r.0@.way.lane == r.1@.way.lane,
        r.0@.way.sent == 0,
        r.0@.way.capacity == FANIN_BATCHES,
        r.0@.lost == 0,
        r.0@.next_rest == FIRST_REST,
        !r.0@.ending,
        r.1@.next_rest == FIRST_REST,
        !r.1@.ending,
        r.1@.way.taken == 0,
        r.1@.held == (RingView {
            batches: Seq::empty(),
            capacity: usize::MAX,
            floor: None,
            horizon_ticks: 0,
            evicted_events: 0,
        }),
        r.1@.page.len() == 0,
{
    let (tx, rx) = new_lane(FANIN_BATCHES);
    (
        Serializer { full: tx, dropped: 0, pace: Pace::new(), ending: false },
        Writer {
            full: rx,
            ring: Ring::new(usize::MAX),
            decoded: Vec::new(),
            pace: Pace::new(),
            ending: false,
        },
    )
}

/// All events that were lost on their way to an exporter.
pub fn total_dropped(inbound: &EventQueue, fanin_dropped: u64) -> (n: u64)
    ensures
        n == low64(inbound@.dropped + fanin_dropped),
{
    inbound.dropped().wrapping_add(fanin_dropped)
}

/// A batch that is offered to the writer's lane goes on it or is counted: none is
/// lost silently.
pub proof fn batches_go_on_or_are_counted(batches: Seq<BatchView>, ok: Seq<bool>)
    ensures
        total_events(let_through(batches, ok)) + total_events(turned_away(batches, ok))
            == total_events(batches),
        let_through(batches, ok).len() + turned_away(batches, ok).len() == batches.len(),
    decreases batches.len(),
{
    if batches.len() > 0 {
        let rest = batches.drop_last();
        batches_go_on_or_are_counted(rest, ok);
        lemma_push_events(rest, batches.last());
        lemma_push_events(let_through(rest, ok), batches.last());
        lemma_push_events(turned_away(rest, ok), batches.last());
        assert(batches =~= rest.push(batches.last()));
    }
}

/// The rest of a reader that has found nothing `n` times.
pub open spec fn rest_after(n: nat) -> u64
    decreases n,
{
    if n == 0 {
        FIRST_REST
    } else {
        doubled_rest(rest_after((n - 1) as nat))
    }
}

/// A reader that keeps finding nothing rests longer and longer, but never longer
/// than the longest rest.
pub proof fn rests_grow_to_the_longest(n: nat)
    ensures
        FIRST_REST <= rest_after(n) <= LONGEST_REST,
        rest_after(n) <= rest_after(n + 1),
    decreases n,
{
    if n > 0 {
        rests_grow_to_the_longest((n - 1) as nat);
    }
}

/// A rest is followed by one of twice its length, but of no more than 200 microseconds.
pub proof fn a_rest_is_followed_by_a_longer_one(micros: u64)
    ensures
        micros <= 100 ==> doubled_rest(micros) == 2 * micros,
        micros > 100 ==> doubled_rest(micros) == 200,
        rest_after(0) == 20,
        rest_after(1) == 40,
        rest_after(4) == 200,
{
    reveal_with_fuel(rest_after, 5);
}

/// Each batch that is let through or turned away is one that was offered, and each that was
/// offered is let through exactly where the choice says so.
pub proof fn what_is_let_through_was_offered(batches: Seq<BatchView>, ok: Seq<bool>, i: int)
    requires
        0 <= i < batches.len(),
    ensures
        ok[i] ==> let_through(batches, ok)[let_through(batches.take(i), ok).len() as int]
            == batches[i],
        ok[i] ==> let_through(batches.take(i), ok).len() < let_through(batches, ok).len(),
        !ok[i] ==> turned_away(batches, ok)[turned_away(batches.take(i), ok).len() as int]
            == batches[i],
        !ok[i] ==> turned_away(batches.take(i), ok).len() < turned_away(batches, ok).len(),
    decreases batches.len(),
{
    let rest = batches.drop_last();
    if i < rest.len() {
        what_is_let_through_was_offered(rest, ok, i);
        assert(rest.take(i) =~= batches.take(i));
    } else {
        assert(rest =~= batches.take(i));
    }
}

/// Rests start at 20 microseconds, double, and stay at 200; work starts them over.
pub proof fn a_pace_is_kept(p: &mut Pace, micros: u64, q: &mut Pace, fresh: Pace)
    requires
        call_ensures(Pace::backoff, (p,), micros),
        call_ensures(Pace::worked, (q,), ()),
        call_ensures(Pace::new, (), fresh),
    ensures
        micros == old(p).next_rest(),
        micros <= 100 ==> final(p).next_rest() == 2 * micros,
        micros > 100 ==> final(p).next_rest() == 200,
        final(q).next_rest() == 20,
        fresh.next_rest() == 20,
{
}

/// What is lost on the way to the queue and on the way to the writer is all that is lost.
pub proof fn all_that_is_lost_is_told(inbound: &EventQueue, fanin_dropped: u64, n: u64)
    requires
        call_ensures(total_dropped, (inbound, fanin_dropped), n),
    ensures
        n == (inbound@.dropped + fanin_dropped) % 0x1_0000_0000_0000_0000,
{
}

/// A batch that is sent on goes in as the next of its lane; or the lane is full, and each of
/// its events is counted.
pub proof fn a_batch_is_sent_on_or_counted(
    full: &mut Producer<Box<EventBatch>>,
    batch: Box<EventBatch>,
    dropped: &mut u64,
)
    requires
        call_ensures(ship, (full, batch, dropped), ()),
    ensures
        inlet(*final(full)).sent == inlet(*old(full)).sent + 1 ==> *final(dropped) == *old(dropped)
            && inlet(*final(full)).lane[inlet(*old(full)).sent as int] == batch@,
        inlet(*final(full)).sent != inlet(*old(full)).sent + 1 ==> inlet(*final(full)).sent
            == inlet(*old(full)).sent && inlet(*old(full)).sent >= inlet(*old(full)).capacity
            && *final(dropped) == (*old(dropped) + batch@.events.len())
            % 0x1_0000_0000_0000_0000,
{
}

/// A serializer stops only where the queue was closed and nothing is left in it; it rests
/// only where nothing came and the queue is open. It never changes what the queue says of
/// itself.
pub proof fn a_serializer_stops_when_all_is_sent_on(
    s: &mut Serializer,
    inbound: &mut EventQueue,
    onward: Onward,
)
    requires
        call_ensures(Serializer::step, (s, inbound), onward),
    ensures
        ({
            let came = drained(old(inbound)@.outlets, final(inbound)@.outlets);
            &&& onward is Stop <==> old(s)@.ending && came.len() == 0
            &&& onward is Rest <==> !old(s)@.ending && came.len() == 0 && !old(inbound)@.closed
            &&& onward matches Onward::Rest(micros) ==> micros == old(s)@.next_rest
            &&& final(s)@.ending && !old(s)@.ending ==> old(inbound)@.closed && came.len() == 0
            &&& came.len() > 0 && !old(s)@.ending ==> final(s)@.next_rest == 20
            &&& !old(s)@.ending ==> came.len() <= 256
            &&& came.len() == 0 ==> final(s)@.lost == old(s)@.lost
        }),
        final(inbound)@.dropped == old(inbound)@.dropped,
        final(inbound)@.closed == old(inbound)@.closed,
        final(inbound)@.recycle_floor == old(inbound)@.recycle_floor,
        final(inbound)@.id == old(inbound)@.id,
        final(s)@.way.lane == old(s)@.way.lane,
{
    let came = drained(old(inbound)@.outlets, final(inbound)@.outlets);
    if came.len() == 0 {
        let ok = choose|ok: Seq<bool>|
            chose(old(s)@.way, final(s)@.way, came, old(s)@.lost, final(s)@.lost, ok);
        assert(turned_away(came, ok).len() == 0);
    }
}

/// What a writer is to write next is the oldest batch that it holds, decoded; it finishes
/// only once the serializer has, and when nothing is left.
pub proof fn a_writer_writes_the_oldest(
    w: &mut Writer,
    clock: &Clock,
    serializer_finished: bool,
    onto: Onto,
)
    requires
        old(w).wf(),
        call_ensures(Writer::step, (w, clock, serializer_finished), onto),
    ensures
        old(w)@.held.batches.len() > 0 ==> onto is Write && final(w)@.page.len()
            == old(w)@.held.batches[0].events.len() && final(w)@.held.batches
            == old(w)@.held.batches.skip(1) && final(w)@.way == old(w)@.way,
        onto is Finish ==> final(w)@.ending && (old(w)@.ending || serializer_finished)
            && final(w)@.page == old(w)@.page,
        onto matches Onto::Rest(micros) ==> micros == old(w)@.next_rest && !serializer_finished
            && !old(w)@.ending,
        old(w)@.ending && old(w)@.held.batches.len() == 0 ==> onto is Finish,
{
    let (before, after) = (old(w)@, final(w)@);
    if before.held.batches.len() > 0 || before.ending {
        assert(came_out(before.way, after.way).len() == 0);
    }
    the_newest_are_held(before.held, came_out(before.way, after.way));
}

} // verus!
