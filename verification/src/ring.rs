//! The recent past, kept within a budget of bytes.

use crate::clock::low64;
use crate::evqueue::{batch_bytes, batch_end, BatchView, EventBatch};
use std::collections::VecDeque;
use vstd::prelude::*;

verus! {

/// Batches in the order they arrived, the oldest of which make way for new ones.
pub struct Ring {
    batches: VecDeque<Box<EventBatch>>,
    bytes: u128,
    capacity: usize,
    floor: Option<u64>,
    horizon_ticks: u64,
    evicted_events: u64,
}

/// What a ring holds, and what it has let go.
pub struct RingView {
    /// Oldest first.
    pub batches: Seq<BatchView>,
    pub capacity: usize,
    /// History from this reading on is wanted.
    pub floor: Option<u64>,
    /// The end of the newest batch that has been let go.
    pub horizon_ticks: u64,
    pub evicted_events: u64,
}

/// The memory that a run of batches takes.
pub open spec fn total_bytes(batches: Seq<BatchView>) -> nat
    decreases batches.len(),
{
    if batches.len() == 0 {
        0
    } else {
        batch_bytes(batches[0]) as nat + total_bytes(batches.skip(1))
    }
}

/// The number of events in a run of batches.
pub open spec fn total_events(batches: Seq<BatchView>) -> nat
    decreases batches.len(),
{
    if batches.len() == 0 {
        0
    } else {
        batches[0].events.len() + total_events(batches.skip(1))
    }
}

/// Twice a capacity, up to what a count of bytes can say.
pub open spec fn hard_cap(capacity: usize) -> usize {
    if 2 * capacity > usize::MAX {
        usize::MAX
    } else {
        (2 * capacity) as usize
    }
}

/// Whether a ring may hold these batches: they fit, or only one is left, or the
/// oldest reaches into wanted history and the hard cap still holds.
pub open spec fn settled(batches: Seq<BatchView>, capacity: usize, floor: Option<u64>) -> bool {
    ||| total_bytes(batches) <= capacity
    ||| batches.len() <= 1
    ||| {
        &&& floor is Some
        &&& batch_end(batches[0]) >= floor->0
        &&& total_bytes(batches) <= hard_cap(capacity)
    }
}

/// How many of the oldest batches have to go before a ring may hold the rest.
pub open spec fn surplus(batches: Seq<BatchView>, capacity: usize, floor: Option<u64>) -> nat
    decreases batches.len(),
{
    if settled(batches, capacity, floor) {
        0
    } else {
        1 + surplus(batches.skip(1), capacity, floor)
    }
}

impl RingView {
    /// The ring without its oldest batches that have to go.
    pub open spec fn trimmed(self) -> RingView {
        let n = surplus(self.batches, self.capacity, self.floor) as int;
        RingView {
            batches: self.batches.skip(n),
            horizon_ticks: if n == 0 {
                self.horizon_ticks
            } else {
                batch_end(self.batches[n - 1])
            },
            evicted_events: low64(self.evicted_events + total_events(self.batches.take(n))),
            ..self
        }
    }
}

/// The contents of boxed batches.
pub open spec fn boxed_views(batches: Seq<Box<EventBatch>>) -> Seq<BatchView> {
    Seq::new(batches.len(), |i: int| batches[i]@)
}

/// The contents of borrowed batches.
pub open spec fn batch_views(batches: Seq<&EventBatch>) -> Seq<BatchView> {
    Seq::new(batches.len(), |i: int| batches[i]@)
}

proof fn lemma_surplus_leaves_one(batches: Seq<BatchView>, capacity: usize, floor: Option<u64>)
    ensures
        surplus(batches, capacity, floor) <= batches.len(),
        batches.len() > 0 ==> surplus(batches, capacity, floor) < batches.len(),
        settled(
            batches.skip(surplus(batches, capacity, floor) as int),
            capacity,
            floor,
        ),
    decreases batches.len(),
{
    if settled(batches, capacity, floor) {
        assert(batches.skip(0) =~= batches);
    } else {
        lemma_surplus_leaves_one(batches.skip(1), capacity, floor);
        let n = surplus(batches.skip(1), capacity, floor) as int;
        assert(batches.skip(1).skip(n) =~= batches.skip(n + 1));
    }
}

pub proof fn lemma_push_bytes(batches: Seq<BatchView>, b: BatchView)
    ensures
        total_bytes(batches.push(b)) == total_bytes(batches) + batch_bytes(b),
    decreases batches.len(),
{
    if batches.len() == 0 {
        reveal_with_fuel(total_bytes, 2);
    } else {
        assert(batches.push(b).skip(1) =~= batches.skip(1).push(b));
        lemma_push_bytes(batches.skip(1), b);
    }
}

proof fn lemma_bytes_bound(batches: Seq<BatchView>)
    ensures
        total_bytes(batches) <= batches.len() * usize::MAX,
    decreases batches.len(),
{
    if batches.len() > 0 {
        lemma_bytes_bound(batches.skip(1));
        let n = batches.len();
        assert(n * usize::MAX == usize::MAX + (n - 1) * usize::MAX) by (nonlinear_arith);
    }
}

impl View for Ring {
    type V = RingView;

    closed spec fn view(&self) -> RingView {
        RingView {
            batches: boxed_views(self.batches@),
            capacity: self.capacity,
            floor: self.floor,
            horizon_ticks: self.horizon_ticks,
            evicted_events: self.evicted_events,
        }
    }
}

impl Ring {
    /// Whether the count of bytes is that of the batches held.
    pub closed spec fn wf(&self) -> bool {
        self.bytes == total_bytes(boxed_views(self.batches@))
    }

    pub fn new(capacity: usize) -> (ring: Self)
        ensures
            ring.wf(),
            ring@ == (RingView {
                batches: Seq::empty(),
                capacity,
                floor: None,
                horizon_ticks: 0,
                evicted_events: 0,
            }),
    {
        let ring = Ring {
            batches: VecDeque::new(),
            bytes: 0,
            capacity,
            floor: None,
            horizon_ticks: 0,
            evicted_events: 0,
        };
        assert(boxed_views(ring.batches@) =~= Seq::empty());
        ring
    }

    /// Takes in a batch, and lets go of the oldest ones that no longer fit.
    pub fn push(&mut self, batch: Box<EventBatch>)
        requires
            old(self).wf(),
        ensures
            final(self).wf(),
            final(self)@ == (RingView { batches: old(self)@.batches.push(batch@), ..old(self)@ })
                .trimmed(),
    {
        let ghost before = boxed_views(self.batches@);
        proof {
            lemma_push_bytes(before, batch@);
            lemma_bytes_bound(before);
            assert(before.len() == self.batches.len());
            let n = before.len() as int;
            assert(n * usize::MAX + usize::MAX <= u128::MAX) by (nonlinear_arith)
                requires
                    n <= usize::MAX,
                    usize::MAX <= 0xffff_ffff_ffff_ffff,
            ;
        }
        self.bytes = self.bytes + batch.bytes() as u128;
        self.batches.push_back(batch);
        assert(boxed_views(self.batches@) =~= before.push(batch@));
        self.evict_over_capacity();
    }

    /// Hands back the oldest batch. A batch handed back was not let go.
    pub fn pop(&mut self) -> (batch: Option<Box<EventBatch>>)
        requires
            old(self).wf(),
        ensures
            final(self).wf(),
            match batch {
                Some(b) => {
                    &&& old(self)@.batches.len() > 0
                    &&& b@ == old(self)@.batches[0]
                    &&& final(self)@ == (RingView {
                        batches: old(self)@.batches.skip(1),
                        ..old(self)@
                    })
                },
                None => old(self)@.batches.len() == 0 && final(self)@ == old(self)@,
            },
    {
        let ghost before = boxed_views(self.batches@);
        match self.batches.pop_front() {
            None => None,
            Some(batch) => {
                assert(boxed_views(self.batches@) =~= before.skip(1));
                self.bytes = self.bytes - batch.bytes() as u128;
                Some(batch)
            },
        }
    }

    /// Declares from which reading on history is wanted.
    pub fn set_floor(&mut self, floor: Option<u64>)
        requires
            old(self).wf(),
        ensures
            final(self).wf(),
            final(self)@ == (RingView { floor, ..old(self)@ }).trimmed(),
    {
        self.floor = floor;
        self.evict_over_capacity();
    }

    fn evict_over_capacity(&mut self)
        requires
            old(self).wf(),
        ensures
            final(self).wf(),
            final(self)@ == old(self)@.trimmed(),
    {
        let ghost start = self@;
        let ghost mut gone: int = 0;
        let hard: usize = match self.capacity.checked_mul(2) {
            Some(n) => n,
            None => usize::MAX,
        };
        assert(start.batches.skip(0) =~= start.batches);
        assert(start.batches.take(0) =~= Seq::empty());
        while self.bytes > self.capacity as u128 && self.batches.len() > 1
            invariant
                self.wf(),
                start == old(self)@,
                hard == hard_cap(self.capacity),
                0 <= gone <= start.batches.len(),
                self@.batches == start.batches.skip(gone),
                self@.capacity == start.capacity,
                self@.floor == start.floor,
                surplus(start.batches, start.capacity, start.floor) == gone + surplus(
                    self@.batches,
                    start.capacity,
                    start.floor,
                ),
                self@.horizon_ticks == if gone == 0 {
                    start.horizon_ticks
                } else {
                    batch_end(start.batches[gone - 1])
                },
                self@.evicted_events == low64(
                    start.evicted_events + total_events(start.batches.take(gone)),
                ),
            decreases self.batches.len(),
        {
            let ghost before = self@;
            assert(before.batches.len() == self.batches.len());
            assert(before.batches[0] == self.batches@[0]@);
            let oldest_end: u64 = self.batches[0].end_ticks();
            let protected: bool = match self.floor {
                Some(floor) => oldest_end >= floor,
                None => false,
            };
            if protected && self.bytes <= hard as u128 {
                assert(settled(before.batches, start.capacity, start.floor));
                return;
            }
            assert(!settled(before.batches, start.capacity, start.floor));
            match self.pop() {
                None => {
                    assert(false);
                },
                Some(evicted) => {
                    self.horizon_ticks = evicted.end_ticks();
                    self.evicted_events =
                        self.evicted_events.wrapping_add(evicted.events.len() as u64);
                },
            }
            proof {
                let taken = start.batches.take(gone);
                assert(start.batches.skip(gone).skip(1) =~= start.batches.skip(gone + 1));
                assert(start.batches.take(gone + 1) =~= taken.push(start.batches[gone]));
                lemma_push_events(taken, start.batches[gone]);
                gone = gone + 1;
            }
        }
        assert(settled(self@.batches, start.capacity, start.floor));
    }

    /// The batches held, oldest first.
    pub fn iter(&self) -> (batches: Vec<&EventBatch>)
        ensures
            batch_views(batches@) == self@.batches,
    {
        let mut out: Vec<&EventBatch> = Vec::new();
        let n: usize = self.batches.len();
        for i in 0..n
            invariant
                n == self.batches@.len(),
                out@.len() == i,
                forall|j: int| 0 <= j < i ==> (#[trigger] out@[j])@ == self@.batches[j],
        {
            let batch: &EventBatch = &self.batches[i];
            assert(batch@ == self@.batches[i as int]);
            out.push(batch);
        }
        assert(batch_views(out@) =~= self@.batches);
        out
    }

    /// The memory that the batches held take.
    pub fn bytes(&self) -> (n: usize)
        requires
            self.wf(),
        ensures
            n == (if total_bytes(self@.batches) > usize::MAX {
                usize::MAX as nat
            } else {
                total_bytes(self@.batches)
            }),
    {
        if self.bytes > usize::MAX as u128 {
            usize::MAX
        } else {
            self.bytes as usize
        }
    }

    pub fn len(&self) -> (n: usize)
        ensures
            n == self@.batches.len(),
    {
        self.batches.len()
    }

    pub fn is_empty(&self) -> (r: bool)
        ensures
            r == (self@.batches.len() == 0),
    {
        self.batches.len() == 0
    }

    /// The end of the newest batch that has been let go, or zero.
    pub fn horizon_ticks(&self) -> (ticks: u64)
        ensures
            ticks == self@.horizon_ticks,
    {
        self.horizon_ticks
    }

    /// How many events have been let go.
    pub fn evicted_events(&self) -> (n: u64)
        ensures
            n == self@.evicted_events,
    {
        self.evicted_events
    }
}

pub proof fn lemma_push_events(batches: Seq<BatchView>, b: BatchView)
    ensures
        total_events(batches.push(b)) == total_events(batches) + b.events.len(),
    decreases batches.len(),
{
    if batches.len() == 0 {
        reveal_with_fuel(total_events, 2);
    } else {
        assert(batches.push(b).skip(1) =~= batches.skip(1).push(b));
        lemma_push_events(batches.skip(1), b);
    }
}

pub proof fn lemma_events_split(batches: Seq<BatchView>, n: int)
    requires
        0 <= n <= batches.len(),
    ensures
        total_events(batches) == total_events(batches.take(n)) + total_events(batches.skip(n)),
    decreases n,
{
    if n == 0 {
        assert(batches.take(0) =~= Seq::<BatchView>::empty());
        assert(batches.skip(0) =~= batches);
    } else {
        lemma_events_split(batches.skip(1), n - 1);
        assert(batches.take(n).skip(1) =~= batches.skip(1).take(n - 1));
        assert(batches.skip(1).skip(n - 1) =~= batches.skip(n));
        assert(batches.take(n)[0] == batches[0]);
    }
}

/// Letting go takes the oldest batches and no others: what is left is the newest
/// of what was there, in the order it arrived, and never nothing.
pub proof fn the_oldest_go_first(ring: RingView)
    ensures
        exists|n: int|
            0 <= n <= ring.batches.len() && (ring.batches.len() > 0 ==> n < ring.batches.len())
                && ring.trimmed().batches == #[trigger] ring.batches.skip(n),
        ring.batches.len() > 0 ==> ring.trimmed().batches.last() == ring.batches.last(),
{
    lemma_surplus_leaves_one(ring.batches, ring.capacity, ring.floor);
    let n = surplus(ring.batches, ring.capacity, ring.floor) as int;
    assert(ring.trimmed().batches == ring.batches.skip(n));
}

/// After letting go the ring is within its capacity, or holds a single batch, or
/// holds wanted history within twice its capacity.
pub proof fn a_trimmed_ring_is_within_bounds(ring: RingView)
    ensures
        settled(ring.trimmed().batches, ring.capacity, ring.floor),
        ring.trimmed().batches.len() > 1 ==> total_bytes(ring.trimmed().batches) <= hard_cap(
            ring.capacity,
        ),
        ring.floor is None && ring.trimmed().batches.len() > 1 ==> total_bytes(
            ring.trimmed().batches,
        ) <= ring.capacity,
{
    lemma_surplus_leaves_one(ring.batches, ring.capacity, ring.floor);
}

/// A ring that fits loses nothing.
pub proof fn a_ring_that_fits_keeps_everything(ring: RingView)
    requires
        total_bytes(ring.batches) <= ring.capacity,
    ensures
        ring.trimmed() == ring,
{
    assert(ring.batches.skip(0) =~= ring.batches);
    assert(ring.batches.take(0) =~= Seq::<BatchView>::empty());
}

proof fn lemma_wanted_stays(batches: Seq<BatchView>, capacity: usize, floor: u64, i: int)
    requires
        0 <= i < batches.len(),
        batch_end(batches[i]) >= floor,
        total_bytes(batches) <= hard_cap(capacity),
    ensures
        surplus(batches, capacity, Some(floor)) <= i,
        surplus(batches, capacity, Some(floor)) > 0 ==> batch_end(
            batches[surplus(batches, capacity, Some(floor)) - 1],
        ) < floor,
    decreases batches.len(),
{
    if !settled(batches, capacity, Some(floor)) {
        let rest = batches.skip(1);
        assert(i > 0);
        assert(rest[i - 1] == batches[i]);
        lemma_wanted_stays(rest, capacity, floor, i - 1);
        let n = surplus(rest, capacity, Some(floor)) as int;
        if n > 0 {
            assert(rest[n - 1] == batches[n]);
        }
    }
}

/// History that is wanted is kept, even beyond the capacity, as long as twice the
/// capacity suffices for all there is; and the horizon stays before it.
pub proof fn wanted_history_is_kept(ring: RingView, i: int)
    requires
        ring.floor is Some,
        0 <= i < ring.batches.len(),
        batch_end(ring.batches[i]) >= ring.floor->0,
        total_bytes(ring.batches) <= hard_cap(ring.capacity),
    ensures
        ring.trimmed().batches.contains(ring.batches[i]),
        ring.trimmed().horizon_ticks == ring.horizon_ticks || ring.trimmed().horizon_ticks
            < ring.floor->0,
{
    lemma_wanted_stays(ring.batches, ring.capacity, ring.floor->0, i);
    let n = surplus(ring.batches, ring.capacity, ring.floor) as int;
    assert(ring.batches.skip(n)[i - n] == ring.batches[i]);
}

/// Every event that goes in is held or counted as let go.
pub proof fn events_are_held_or_counted(ring: RingView)
    requires
        ring.evicted_events + total_events(ring.batches) <= u64::MAX,
    ensures
        ring.trimmed().evicted_events + total_events(ring.trimmed().batches)
            == ring.evicted_events + total_events(ring.batches),
{
    lemma_surplus_leaves_one(ring.batches, ring.capacity, ring.floor);
    lemma_events_split(ring.batches, surplus(ring.batches, ring.capacity, ring.floor) as int);
}

/// Batches weigh forty bytes each and eight for each event, where a count of bytes can
/// say so of each.
pub proof fn batches_weigh_what_their_events_do(batches: Seq<BatchView>)
    requires
        forall|i: int|
            0 <= i < batches.len() ==> 40 + 8 * (#[trigger] batches[i]).events.len() <= usize::MAX,
    ensures
        total_bytes(batches) == 40 * batches.len() + 8 * total_events(batches),
    decreases batches.len(),
{
    if batches.len() > 0 {
        let rest = batches.skip(1);
        assert forall|i: int| 0 <= i < rest.len() implies 40 + 8 * (
        #[trigger] rest[i]).events.len() <= usize::MAX by {
            assert(rest[i] == batches[i + 1]);
        }
        batches_weigh_what_their_events_do(rest);
        assert(40 + 8 * batches[0].events.len() <= usize::MAX);
    }
}

proof fn lemma_surplus_did_not_fit(
    batches: Seq<BatchView>,
    capacity: usize,
    floor: Option<u64>,
    i: int,
)
    requires
        0 <= i < surplus(batches, capacity, floor),
    ensures
        batches.len() > i + 1,
        !settled(batches.skip(i), capacity, floor),
    decreases batches.len(),
{
    lemma_surplus_leaves_one(batches, capacity, floor);
    if i == 0 {
        assert(batches.skip(0) =~= batches);
    } else {
        lemma_surplus_did_not_fit(batches.skip(1), capacity, floor, i - 1);
        assert(batches.skip(1).skip(i - 1) =~= batches.skip(i));
    }
}

/// No batch is let go without need: with it the ring was over its capacity, and where
/// the batch reached into wanted history, over twice its capacity. The horizon is then
/// the end of the last batch that went, and stays where it was if none did.
pub proof fn what_is_let_go_did_not_fit(ring: RingView, i: int)
    ensures
        ({
            let gone = ring.batches.len() - ring.trimmed().batches.len();
            &&& 0 <= i < gone ==> total_bytes(ring.batches.skip(i)) > ring.capacity
            &&& 0 <= i < gone ==> (ring.floor matches Some(floor) ==> batch_end(ring.batches[i])
                < floor || total_bytes(ring.batches.skip(i)) > 2 * ring.capacity || total_bytes(
                ring.batches.skip(i),
            ) > usize::MAX)
            &&& gone > 0 ==> ring.trimmed().horizon_ticks == batch_end(ring.batches[gone - 1])
            &&& gone == 0 ==> ring.trimmed().horizon_ticks == ring.horizon_ticks
            &&& gone == 0 ==> ring.trimmed().evicted_events == ring.evicted_events
            &&& ring.trimmed().capacity == ring.capacity
            &&& ring.trimmed().floor == ring.floor
        }),
{
    let n = surplus(ring.batches, ring.capacity, ring.floor) as int;
    lemma_surplus_leaves_one(ring.batches, ring.capacity, ring.floor);
    assert(ring.batches.take(0) =~= Seq::<BatchView>::empty());
    if 0 <= i < n {
        lemma_surplus_did_not_fit(ring.batches, ring.capacity, ring.floor, i);
        assert(ring.batches.skip(i)[0] == ring.batches[i]);
    }
}

/// A ring that lets go stops as soon as it may: it is over its capacity only with a single
/// batch, or for history that is wanted, and then it is not over twice its capacity.
pub proof fn a_ring_is_over_its_capacity_only_for_wanted_history(ring: RingView)
    requires
        ring.trimmed().batches.len() > 1,
        total_bytes(ring.trimmed().batches) > ring.capacity,
    ensures
        total_bytes(ring.trimmed().batches) <= 2 * ring.capacity,
        ring.floor matches Some(floor) && batch_end(ring.trimmed().batches[0]) >= floor,
{
    lemma_surplus_leaves_one(ring.batches, ring.capacity, ring.floor);
}

/// The end of a batch is the reading of its last event, and its start where it has none.
pub proof fn a_batch_ends_with_its_last_event(b: BatchView)
    ensures
        b.events.len() == 0 ==> batch_end(b) == b.base_ticks,
        b.events.len() > 0 ==> batch_end(b) == (b.base_ticks
            + b.events[b.events.len() - 1].delta_ticks) % 0x1_0000_0000_0000_0000,
{
}

/// A batch that a ring takes in is held, as the newest. Nothing goes while all fits.
pub proof fn a_batch_that_is_taken_in_is_held(ring: &mut Ring, batch: Box<EventBatch>)
    requires
        old(ring).wf(),
        call_ensures(Ring::push, (ring, batch), ()),
    ensures
        final(ring)@.batches.len() > 0,
        final(ring)@.batches.last() == batch@,
        final(ring)@.capacity == old(ring)@.capacity,
        final(ring)@.floor == old(ring)@.floor,
        total_bytes(old(ring)@.batches.push(batch@)) <= old(ring)@.capacity ==> {
            &&& final(ring)@.batches == old(ring)@.batches.push(batch@)
            &&& final(ring)@.horizon_ticks == old(ring)@.horizon_ticks
            &&& final(ring)@.evicted_events == old(ring)@.evicted_events
        },
{
    let full = RingView { batches: old(ring)@.batches.push(batch@), ..old(ring)@ };
    the_oldest_go_first(full);
    let n = choose|n: int|
        0 <= n <= full.batches.len() && (full.batches.len() > 0 ==> n < full.batches.len())
            && full.trimmed().batches == #[trigger] full.batches.skip(n);
    assert(full.trimmed().batches == full.batches.skip(n));
    if total_bytes(full.batches) <= full.capacity {
        a_ring_that_fits_keeps_everything(full);
    }
}

/// A batch that is handed back is the oldest; it is not counted as let go, and the horizon
/// stays.
pub proof fn a_batch_that_is_handed_back_is_the_oldest(
    ring: &mut Ring,
    batch: Option<Box<EventBatch>>,
)
    requires
        old(ring).wf(),
        call_ensures(Ring::pop, (ring,), batch),
    ensures
        batch is Some <==> old(ring)@.batches.len() > 0,
        batch matches Some(b) ==> b@ == old(ring)@.batches[0] && final(ring)@.batches
            == old(ring)@.batches.skip(1),
        batch is None ==> final(ring)@.batches == old(ring)@.batches,
        final(ring)@.horizon_ticks == old(ring)@.horizon_ticks,
        final(ring)@.evicted_events == old(ring)@.evicted_events,
        final(ring)@.floor == old(ring)@.floor,
        final(ring)@.capacity == old(ring)@.capacity,
{
}

/// A ring that is told from where on history is wanted goes by that from then on, and keeps
/// its newest.
pub proof fn a_ring_goes_by_its_floor(ring: &mut Ring, floor: Option<u64>)
    requires
        old(ring).wf(),
        call_ensures(Ring::set_floor, (ring, floor), ()),
    ensures
        final(ring)@.floor == floor,
        final(ring)@.capacity == old(ring)@.capacity,
        old(ring)@.batches.len() > 0 ==> final(ring)@.batches.len() > 0
            && final(ring)@.batches.last() == old(ring)@.batches.last(),
        total_bytes(old(ring)@.batches) <= old(ring)@.capacity ==> final(ring)@.batches
            == old(ring)@.batches,
{
    let told = RingView { floor, ..old(ring)@ };
    the_oldest_go_first(told);
    let n = choose|n: int|
        0 <= n <= told.batches.len() && (told.batches.len() > 0 ==> n < told.batches.len())
            && told.trimmed().batches == #[trigger] told.batches.skip(n);
    assert(told.trimmed().batches == told.batches.skip(n));
    if total_bytes(told.batches) <= told.capacity {
        a_ring_that_fits_keeps_everything(told);
    }
}

} // verus!
