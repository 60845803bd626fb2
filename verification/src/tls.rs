//! What each traced thread keeps to itself.

use crate::clock::low64;
use crate::event::PackedEvent;
use crate::evqueue::{recorded, BatchView, EventBatch, BATCH_N};
use crate::lane::{inlet, send, Inlet};
use crate::lists::retain;
use rtrb::Producer;
use vstd::prelude::*;

verus! {

/// The key that stands for no code object.
pub const NOT_CACHED: usize = usize::MAX;

/// How often a reader tries again where the thread it reads is changing batches.
pub const TAIL_RETRIES: usize = 8;

/// What the recording of an event reads and writes.
#[derive(Copy, Clone, Debug)]
pub struct Hot {
    /// How many slots of the open batch are written.
    pub cursor: usize,
    /// How many slots the open batch has.
    pub end: usize,
    pub base_ticks: u64,
    pub queue_id: u64,
    /// Goes up by one when the thread starts to change batches, and by one when it
    /// is done.
    pub epoch: u64,
    pub code_gen: u64,
    pub clock_direct: bool,
    pub last_code_key: usize,
    pub last_code_id: u32,
    pub tid: u32,
    pub ensured: bool,
    pub name_retries: u32,
}

impl Hot {
    /// What a thread starts with: no batch, and nothing resolved.
    pub fn empty() -> (hot: Self)
        ensures
            hot == (Hot {
                cursor: 0,
                end: 0,
                base_ticks: 0,
                queue_id: 0,
                epoch: 0,
                code_gen: 0,
                clock_direct: false,
                last_code_key: NOT_CACHED,
                last_code_id: u32::MAX,
                tid: u32::MAX,
                ensured: false,
                name_retries: 0,
            }),
    {
        Hot {
            cursor: 0,
            end: 0,
            base_ticks: 0,
            queue_id: 0,
            epoch: 0,
            code_gen: 0,
            clock_direct: false,
            last_code_key: NOT_CACHED,
            last_code_id: u32::MAX,
            tid: u32::MAX,
            ensured: false,
            name_retries: 0,
        }
    }
}

/// What the recording of an event seldom needs.
pub struct Cold {
    /// The way to a queue, and that queue's id.
    pub producer: Option<(u64, Producer<Box<EventBatch>>)>,
    pub batch: Option<Box<EventBatch>>,
}

/// Whether the two halves of a thread's state belong together.
pub open spec fn fits(hot: Hot, cold: Cold) -> bool {
    &&& cold.producer is Some ==> cold.batch is Some && way_of(cold).sent <= way_of(
        cold,
    ).lane.len()
    &&& match cold.batch {
        None => hot.cursor == 0 && hot.end == 0,
        Some(b) => {
            &&& hot.end == BATCH_N
            &&& hot.cursor <= BATCH_N
            &&& hot.cursor <= b.events@.len()
            &&& hot.base_ticks == b.base_ticks
        },
    }
}

/// The queue that a connected thread is connected to.
pub open spec fn queue_of(cold: Cold) -> u64 {
    (cold.producer->0).0
}

/// The lane from a connected thread to its queue.
pub open spec fn way_of(cold: Cold) -> Inlet {
    inlet((cold.producer->0).1)
}

/// The batch that a thread is filling, as far as it has come.
pub open spec fn open_batch(hot: Hot, cold: Cold) -> BatchView {
    BatchView {
        base_ticks: cold.batch->0.base_ticks,
        tid: cold.batch->0.tid,
        events: cold.batch->0.events@.take(hot.cursor as int),
    }
}

/// What recording reads once it is pointed at the start of a batch, or at none.
pub open spec fn armed(hot: Hot, batch: Option<Box<EventBatch>>) -> Hot {
    let epoch = low64(hot.epoch + 2);
    match batch {
        None => Hot { epoch, cursor: 0, end: 0, ..hot },
        Some(b) => Hot {
            epoch,
            base_ticks: b.base_ticks,
            tid: b.tid,
            cursor: 0,
            end: BATCH_N,
            ..hot
        },
    }
}

/// Whether a thread has sent off its open batch, and lost so many events with it.
/// A thread that is connected to no queue, or has written nothing, starts its batch
/// over.
pub open spec fn flushed(hot: Hot, cold: Cold, after_hot: Hot, after: Cold, lost: u64) -> bool {
    &&& fits(after_hot, after)
    &&& cold.batch is None ==> {
        &&& lost == 0
        &&& after_hot == hot
        &&& after.producer == cold.producer
        &&& after.batch is None
    }
    &&& cold.batch is Some ==> {
        &&& after.batch is Some
        &&& after_hot == armed(hot, after.batch)
        &&& after.batch->0.base_ticks == cold.batch->0.base_ticks
        &&& after.batch->0.tid == cold.batch->0.tid
    }
    &&& cold.batch is Some && (cold.producer is None || hot.cursor == 0) ==> {
        &&& lost == 0
        &&& after.producer == cold.producer
        &&& after.batch->0@ == open_batch(hot, cold)
    }
    &&& cold.producer is Some && hot.cursor > 0 ==> {
        let full = open_batch(hot, cold);
        &&& after.producer is Some
        &&& queue_of(after) == queue_of(cold)
        &&& after.batch->0.events@.len() == 0
        &&& way_of(after).lane == way_of(cold).lane
        &&& way_of(after).capacity == way_of(cold).capacity
        &&& {
            ||| lost == 0 && way_of(after).sent == way_of(cold).sent + 1 && way_of(
                cold,
            ).lane[way_of(cold).sent as int] == full
            ||| lost == full.events.len() && way_of(after).sent == way_of(cold).sent && way_of(
                cold,
            ).sent >= way_of(cold).capacity
        }
    }
    &&& cold.producer is Some && lost == 0 ==> recorded(after_hot, after) == recorded(hot, cold)
}

impl Cold {
    /// What a thread starts with.
    pub fn empty() -> (cold: Self)
        ensures
            cold == (Cold { producer: None, batch: None }),
    {
        Cold { producer: None, batch: None }
    }

    /// Writes the next slot of the open batch.
    pub(crate) fn write(&mut self, hot: &mut Hot, event: PackedEvent)
        requires
            fits(*old(hot), *old(self)),
            old(hot).cursor < old(hot).end,
        ensures
            fits(*final(hot), *final(self)),
            *final(hot) == (Hot { cursor: (old(hot).cursor + 1) as usize, ..*old(hot) }),
            final(self).producer == old(self).producer,
            final(self).batch is Some,
            open_batch(*final(hot), *final(self)) == (BatchView {
                events: open_batch(*old(hot), *old(self)).events.push(event),
                ..open_batch(*old(hot), *old(self))
            }),
    {
        let ghost before = open_batch(*hot, *self).events;
        match self.batch.take() {
            None => {
                assert(false);
            },
            Some(mut batch) => {
                if hot.cursor < batch.events.len() {
                    batch.events.set(hot.cursor, event);
                } else {
                    batch.events.push(event);
                }
                hot.cursor = hot.cursor + 1;
                assert(batch.events@.take(hot.cursor as int) =~= before.push(event));
                self.batch = Some(batch);
            },
        }
    }

    /// Makes the open batch hold what has been written to it and no more.
    pub fn commit(&mut self, hot: &Hot)
        requires
            fits(*hot, *old(self)),
        ensures
            fits(*hot, *final(self)),
            final(self).producer == old(self).producer,
            old(self).batch is None ==> final(self).batch is None,
            old(self).batch is Some ==> {
                &&& final(self).batch is Some
                &&& final(self).batch->0@ == open_batch(*hot, *old(self))
            },
    {
        match self.batch.take() {
            None => {},
            Some(mut batch) => {
                batch.events.truncate(hot.cursor);
                assert(batch.events@ =~= old(self).batch->0.events@.take(hot.cursor as int));
                self.batch = Some(batch);
            },
        }
    }

    /// Points recording at the start of the batch held, or at none.
    pub fn arm(&self, hot: &mut Hot)
        ensures
            *final(hot) == armed(*old(hot), self.batch),
            (self.producer is Some ==> self.batch is Some && way_of(*self).sent <= way_of(
                *self,
            ).lane.len()) ==> fits(*final(hot), *self),
    {
        let epoch: u64 = hot.epoch;
        hot.epoch = epoch.wrapping_add(1);
        match &self.batch {
            None => {
                hot.cursor = 0;
                hot.end = 0;
            },
            Some(batch) => {
                hot.base_ticks = batch.base_ticks;
                hot.tid = batch.tid;
                hot.cursor = 0;
                hot.end = BATCH_N;
            },
        }
        hot.epoch = epoch.wrapping_add(2);
    }

    /// Sends off what the open batch holds, and goes on with an empty one. Hands
    /// back how many events were lost to a full lane. A thread that is not
    /// connected to a queue starts its batch over.
    #[must_use]
    pub fn flush_partial(&mut self, hot: &mut Hot) -> (lost: u64)
        requires
            fits(*old(hot), *old(self)),
        ensures
            flushed(*old(hot), *old(self), *final(hot), *final(self), lost),
    {
        self.commit(hot);
        let batch = match self.batch.take() {
            None => {
                return 0;
            },
            Some(batch) => batch,
        };
        match self.producer.take() {
            None => {
                self.batch = Some(batch);
                self.arm(hot);
                0
            },
            Some((id, mut end)) => {
                if batch.events.len() == 0 {
                    self.producer = Some((id, end));
                    self.batch = Some(batch);
                    self.arm(hot);
                    assert(recorded(*hot, *self) =~= recorded(*old(hot), *old(self)));
                    return 0;
                }
                self.batch = Some(
                    Box::new(EventBatch::with_capacity(BATCH_N, batch.base_ticks, batch.tid)),
                );
                self.arm(hot);
                let sent = send(&mut end, batch);
                self.producer = Some((id, end));
                proof {
                    let before = way_of(*old(self));
                    let after = way_of(*self);
                    if after.sent > before.sent {
                        let later = after.lane.take(after.sent as int);
                        assert(later.drop_last() =~= before.lane.take(before.sent as int));
                        assert(later.last() == open_batch(*old(hot), *old(self)));
                        assert(recorded(*hot, *self) =~= recorded(*old(hot), *old(self)));
                    }
                }
                match sent {
                    Ok(()) => 0,
                    Err(lost) => lost.events.len() as u64,
                }
            },
        }
    }
}

/// What recording reads on a thread that has recorded nothing: no batch, no queue,
/// and nothing resolved.
pub open spec fn untouched() -> Hot {
    Hot {
        cursor: 0,
        end: 0,
        base_ticks: 0,
        queue_id: 0,
        epoch: 0,
        code_gen: 0,
        clock_direct: false,
        last_code_key: NOT_CACHED,
        last_code_id: u32::MAX,
        tid: u32::MAX,
        ensured: false,
        name_retries: 0,
    }
}

/// The state of one thread.
pub struct ThreadState {
    pub hot: Hot,
    pub cold: Cold,
}

/// What the state of a thread shows of its open batch.
pub open spec fn tail_of(state: ThreadState, queue_id: u64) -> Option<BatchView> {
    if state.hot.epoch % 2 == 0 && state.hot.queue_id == queue_id && state.hot.end > 0
        && state.hot.cursor > 0 {
        Some(
            BatchView {
                base_ticks: state.hot.base_ticks,
                tid: state.hot.tid,
                events: open_batch(state.hot, state.cold).events,
            },
        )
    } else {
        None
    }
}

/// What a look at a thread's state says a reader is to do.
#[derive(Copy, Clone, Debug, PartialEq, Eq, Structural)]
pub enum Look {
    /// Look again: the thread is changing batches, or has only just done so.
    Again,
    /// There is nothing to read.
    Nothing,
    /// Copy that many slots, and see whether the epoch has stayed.
    Copy(usize),
}

/// What a reader is to do about a thread in the state it has seen.
pub open spec fn looked(hot: Hot, queue_id: u64) -> Look {
    if hot.epoch % 2 == 1 {
        Look::Again
    } else if hot.queue_id != queue_id || hot.end == 0 {
        Look::Nothing
    } else if hot.end < BATCH_N || hot.cursor <= hot.end - BATCH_N || hot.cursor - (hot.end
        - BATCH_N) > BATCH_N {
        Look::Again
    } else {
        Look::Copy((hot.cursor - (hot.end - BATCH_N)) as usize)
    }
}

impl Hot {
    /// What a reader is to do about a thread in this state.
    pub fn look(&self, queue_id: u64) -> (r: Look)
        ensures
            r == looked(*self, queue_id),
    {
        if self.epoch % 2 == 1 {
            return Look::Again;
        }
        if self.queue_id != queue_id || self.end == 0 {
            return Look::Nothing;
        }
        if self.end < BATCH_N || self.cursor <= self.end - BATCH_N {
            return Look::Again;
        }
        let len: usize = self.cursor - (self.end - BATCH_N);
        if len > BATCH_N {
            return Look::Again;
        }
        Look::Copy(len)
    }

    /// The batch that a reader has copied from a thread in this state, where the
    /// epoch is still the same after the copy. Otherwise the thread has changed
    /// batches meanwhile, and the copy may hold slots of both.
    pub fn settle(&self, events: Vec<PackedEvent>, epoch_after: u64) -> (batch: Option<EventBatch>)
        ensures
            match batch {
                Some(b) => epoch_after == self.epoch && b@ == (BatchView {
                    base_ticks: self.base_ticks,
                    tid: self.tid,
                    events: events@,
                }),
                None => epoch_after != self.epoch,
            },
    {
        if epoch_after != self.epoch {
            return None;
        }
        Some(EventBatch { base_ticks: self.base_ticks, tid: self.tid, events })
    }
}

/// A thread's state once it has changed to each of some batches in turn.
pub open spec fn armed_with(hot: Hot, batches: Seq<Option<Box<EventBatch>>>) -> Hot
    decreases batches.len(),
{
    if batches.len() == 0 {
        hot
    } else {
        armed(armed_with(hot, batches.drop_last()), batches.last())
    }
}

proof fn lemma_epoch_goes_up(hot: Hot, batches: Seq<Option<Box<EventBatch>>>)
    ensures
        armed_with(hot, batches).epoch == low64(hot.epoch + 2 * batches.len()),
    decreases batches.len(),
{
    if batches.len() > 0 {
        lemma_epoch_goes_up(hot, batches.drop_last());
    }
}

/// A reader sees that a thread has changed batches under it: the epoch is another
/// one after any number of changes that can be counted, and while a change goes on.
pub proof fn a_change_of_batches_shows(hot: Hot, batches: Seq<Option<Box<EventBatch>>>)
    requires
        hot.epoch % 2 == 0,
        batches.len() < 0x8000_0000_0000_0000,
    ensures
        batches.len() > 0 ==> armed_with(hot, batches).epoch != hot.epoch,
        low64(armed_with(hot, batches).epoch + 1) != hot.epoch,
{
    lemma_epoch_goes_up(hot, batches);
}

impl ThreadState {
    /// What a thread starts with.
    pub fn empty() -> (state: Self)
        ensures
            state == (ThreadState {
                hot: untouched(),
                cold: Cold { producer: None, batch: None },
            }),
            fits(state.hot, state.cold),
    {
        ThreadState { hot: Hot::empty(), cold: Cold::empty() }
    }

    /// A copy of what the open batch holds for a queue, where it holds anything.
    pub fn read_tail(&self, queue_id: u64) -> (tail: Option<EventBatch>)
        requires
            fits(self.hot, self.cold),
        ensures
            match tail {
                Some(t) => tail_of(*self, queue_id) == Some(t@),
                None => tail_of(*self, queue_id) is None,
            },
    {
        for tries in 0..TAIL_RETRIES
            invariant
                fits(self.hot, self.cold),
                tries > 0 ==> looked(self.hot, queue_id) is Again,
        {
            let seen = self.hot;
            match seen.look(queue_id) {
                Look::Again => {},
                Look::Nothing => {
                    return None;
                },
                Look::Copy(len) => {
                    let mut events: Vec<PackedEvent> = Vec::with_capacity(len);
                    match &self.cold.batch {
                        None => {},
                        Some(batch) => {
                            for i in 0..len
                                invariant
                                    len <= batch.events@.len(),
                                    events@ =~= batch.events@.take(i as int),
                            {
                                events.push(batch.events[i]);
                            }
                        },
                    }
                    match seen.settle(events, self.hot.epoch) {
                        None => {},
                        Some(batch) => {
                            return Some(batch);
                        },
                    }
                },
            }
        }
        None
    }
}

/// The sum of some counts.
pub open spec fn sum_of(counts: Seq<u64>) -> int
    decreases counts.len(),
{
    if counts.len() == 0 {
        0
    } else {
        sum_of(counts.drop_last()) + counts.last()
    }
}

/// Whether each of some threads has sent off its open batch, and lost so many events
/// with it.
pub open spec fn each_flushed(
    before: Seq<ThreadState>,
    after: Seq<ThreadState>,
    lost: Seq<u64>,
) -> bool {
    &&& before.len() == after.len() == lost.len()
    &&& forall|i: int|
        0 <= i < after.len() ==> flushed(
            before[i].hot,
            before[i].cold,
            (#[trigger] after[i]).hot,
            after[i].cold,
            lost[i],
        )
}

/// Sends off the open batches of some threads. Hands back how many events were lost
/// to full lanes.
pub fn flush_every_thread(states: &mut Vec<ThreadState>) -> (lost: u64)
    requires
        forall|i: int|
            0 <= i < old(states)@.len() ==> fits(
                (#[trigger] old(states)@[i]).hot,
                old(states)@[i].cold,
            ),
    ensures
        exists|each: Seq<u64>| #[trigger]
            each_flushed(old(states)@, final(states)@, each) && lost == low64(sum_of(each)),
{
    let ghost before = states@;
    let ghost mut each: Seq<u64> = Seq::empty();
    let mut done: Vec<ThreadState> = Vec::new();
    let mut rest: Vec<ThreadState> = Vec::new();
    core::mem::swap(states, &mut rest);
    let mut lost: u64 = 0;
    while rest.len() > 0
        invariant
            each_flushed(before.take(done@.len() as int), done@, each),
            done@.len() + rest@.len() == before.len(),
            rest@ == before.skip(done@.len() as int),
            lost == low64(sum_of(each)),
            forall|i: int|
                0 <= i < before.len() ==> fits((#[trigger] before[i]).hot, before[i].cold),
        decreases rest.len(),
    {
        let ghost n = done@.len() as int;
        let mut state = rest.remove(0);
        assert(state == before[n]);
        let own: u64 = state.cold.flush_partial(&mut state.hot);
        lost = lost.wrapping_add(own);
        proof {
            assert(each.push(own).drop_last() =~= each);
            assert(before.take(n + 1).drop_last() =~= before.take(n));
            each = each.push(own);
            assert(rest@ =~= before.skip(n + 1));
        }
        done.push(state);
        assert(each_flushed(before.take(n + 1), done@, each)) by {
            assert forall|i: int| 0 <= i < done@.len() implies flushed(
                before.take(n + 1)[i].hot,
                before.take(n + 1)[i].cold,
                (#[trigger] done@[i]).hot,
                done@[i].cold,
                each[i],
            ) by {
                if i < n {
                    assert(before.take(n)[i] == before[i]);
                }
            }
        }
    }
    assert(before.take(done@.len() as int) =~= before);
    *states = done;
    assert(each_flushed(before, states@, each));
    lost
}

/// The tails that some threads show to a queue.
pub open spec fn tails_of(states: Seq<&ThreadState>, queue_id: u64) -> Seq<BatchView>
    decreases states.len(),
{
    if states.len() == 0 {
        Seq::empty()
    } else {
        let rest = tails_of(states.drop_last(), queue_id);
        match tail_of(*states.last(), queue_id) {
            Some(t) => rest.push(t),
            None => rest,
        }
    }
}

/// Copies of what the open batches of some threads hold for a queue.
pub fn read_tails(states: &[&ThreadState], queue_id: u64) -> (tails: Vec<EventBatch>)
    requires
        forall|i: int|
            0 <= i < states@.len() ==> fits((#[trigger] states@[i]).hot, states@[i].cold),
    ensures
        crate::snapshot::views(tails@) == tails_of(states@, queue_id),
{
    let mut tails: Vec<EventBatch> = Vec::new();
    let n: usize = states.len();
    assert(crate::snapshot::views(tails@) =~= tails_of(states@.take(0), queue_id));
    for i in 0..n
        invariant
            n == states@.len(),
            forall|j: int|
                0 <= j < states@.len() ==> fits((#[trigger] states@[j]).hot, states@[j].cold),
            crate::snapshot::views(tails@) == tails_of(states@.take(i as int), queue_id),
    {
        let ghost before = tails@;
        assert(states@.take(i + 1).drop_last() =~= states@.take(i as int));
        assert(states@.take(i + 1).last() == states@[i as int]);
        let state = states[i];
        if let Some(tail) = state.read_tail(queue_id) {
            tails.push(tail);
            assert(crate::snapshot::views(tails@) =~= crate::snapshot::views(before).push(tail@));
        }
    }
    assert(states@.take(n as int) =~= states@);
    tails
}

/// The threads that record, each under a key of its own.
pub struct Recorders<T> {
    entries: Vec<(usize, T)>,
}

impl<T> View for Recorders<T> {
    type V = Seq<(usize, T)>;

    closed spec fn view(&self) -> Seq<(usize, T)> {
        self.entries@
    }
}

/// Whether no two entries have one key.
pub open spec fn keys_differ<T>(entries: Seq<(usize, T)>) -> bool {
    forall|i: int, j: int|
        0 <= i < j < entries.len() ==> (#[trigger] entries[i]).0 != (#[trigger] entries[j]).0
}

/// Whether an entry has a key.
pub open spec fn has_key<T>(key: usize) -> spec_fn((usize, T)) -> bool {
    |e: (usize, T)| e.0 == key
}

/// Whether an entry has another key.
pub open spec fn has_other_key<T>(key: usize) -> spec_fn((usize, T)) -> bool {
    |e: (usize, T)| e.0 != key
}

impl<T> Recorders<T> {
    pub fn new() -> (r: Self)
        ensures
            r@ == Seq::<(usize, T)>::empty(),
            keys_differ(r@),
    {
        Recorders { entries: Vec::new() }
    }

    pub fn len(&self) -> (n: usize)
        ensures
            n == self@.len(),
    {
        self.entries.len()
    }

    /// The thread at a place.
    pub fn at(&self, i: usize) -> (entry: &T)
        requires
            i < self@.len(),
        ensures
            *entry == self@[i as int].1,
    {
        &self.entries[i].1
    }

    /// Takes out the thread under a key.
    pub fn forget(&mut self, key: usize)
        ensures
            final(self)@ == old(self)@.filter(has_other_key(key)),
    {
        let keep = |entry: &(usize, T)| -> (kept: bool)
            ensures
                kept == (entry.0 != key),
        { entry.0 != key };
        retain(&mut self.entries, keep, Ghost(has_other_key(key)));
    }
}

/// Adds a thread, unless there is one under its key.
pub fn register_current<T>(recorders: &mut Recorders<T>, key: usize, thread: T)
    requires
        keys_differ(old(recorders)@),
    ensures
        keys_differ(final(recorders)@),
        final(recorders)@ == (if exists|i: int|
            0 <= i < old(recorders)@.len() && (#[trigger] old(recorders)@[i]).0 == key {
            old(recorders)@
        } else {
            old(recorders)@.push((key, thread))
        }),
{
    let n: usize = recorders.entries.len();
    for i in 0..n
        invariant
            n == recorders.entries@.len(),
            recorders.entries@ == old(recorders).entries@,
            keys_differ(recorders.entries@),
            forall|j: int| 0 <= j < i ==> (#[trigger] recorders.entries@[j]).0 != key,
    {
        if recorders.entries[i].0 == key {
            assert(old(recorders)@[i as int].0 == key);
            return;
        }
    }
    recorders.entries.push((key, thread));
}

/// Takes out every thread but the one under a key, as a new process does with those
/// it was not forked with.
pub fn forget_other_threads<T>(recorders: &mut Recorders<T>, key: usize)
    ensures
        final(recorders)@ == old(recorders)@.filter(has_key(key)),
{
    let keep = |entry: &(usize, T)| -> (kept: bool)
        ensures
            kept == (entry.0 == key),
    { entry.0 == key };
    retain(&mut recorders.entries, keep, Ghost(has_key(key)));
}

/// A thread shows its open batch exactly where it is not changing batches, records for the
/// queue that asks, and has written something; and it shows all that it has written, and
/// nothing more.
pub proof fn a_tail_is_what_a_thread_has_written(state: ThreadState, queue_id: u64, i: int)
    requires
        fits(state.hot, state.cold),
    ensures
        tail_of(state, queue_id) is Some <==> state.hot.epoch % 2 == 0 && state.hot.queue_id
            == queue_id && state.hot.cursor > 0,
        tail_of(state, queue_id) matches Some(b) ==> {
            &&& b.base_ticks == state.cold.batch->0.base_ticks
            &&& b.tid == state.hot.tid
            &&& b.events.len() == state.hot.cursor
            &&& 0 <= i < state.hot.cursor ==> b.events[i] == state.cold.batch->0.events@[i]
        },
        state.hot.epoch % 2 == 0 && state.hot.queue_id == queue_id && state.hot.cursor > 0
            ==> looked(state.hot, queue_id) == Look::Copy(state.hot.cursor),
        state.hot.epoch % 2 == 1 ==> looked(state.hot, queue_id) is Again,
        state.hot.queue_id != queue_id ==> !(looked(state.hot, queue_id) is Copy),
        state.hot.cursor == 0 ==> !(looked(state.hot, queue_id) is Copy),
{
}

/// The tails that are read are those that threads show: each that is shown, and no other.
pub proof fn every_tail_is_read(states: Seq<&ThreadState>, queue_id: u64, b: BatchView)
    ensures
        tails_of(states, queue_id).len() <= states.len(),
        tails_of(states, queue_id).contains(b) <==> exists|i: int|
            0 <= i < states.len() && tail_of(*#[trigger] states[i], queue_id) == Some(b),
    decreases states.len(),
{
    if states.len() > 0 {
        let rest = states.drop_last();
        let before = tails_of(rest, queue_id);
        let all = tails_of(states, queue_id);
        every_tail_is_read(rest, queue_id, b);
        let n = states.len() - 1;
        if all.contains(b) {
            let k = all.index_of(b);
            if k < before.len() {
                assert(before[k] == b);
                let i = choose|i: int|
                    0 <= i < rest.len() && tail_of(*#[trigger] rest[i], queue_id) == Some(b);
                assert(states[i] == rest[i]);
            } else {
                assert(tail_of(*states[n], queue_id) == Some(b));
            }
        }
        if exists|i: int|
            0 <= i < states.len() && tail_of(*#[trigger] states[i], queue_id) == Some(b) {
            let i = choose|i: int|
                0 <= i < states.len() && tail_of(*#[trigger] states[i], queue_id) == Some(b);
            if i < n {
                assert(rest[i] == states[i]);
                let k = before.index_of(b);
                assert(before.contains(b));
                assert(all[k] == b);
            } else {
                assert(all[all.len() - 1] == b);
            }
        }
    }
}

/// A thread that sends off what it has written loses none of it, or all where its lane is
/// full, and then the count is that of what it had written. It has then written nothing, and
/// a reader sees that it has changed batches.
pub proof fn what_is_sent_off_goes_on_or_is_counted(
    hot: Hot,
    cold: Cold,
    after_hot: Hot,
    after: Cold,
    lost: u64,
)
    requires
        fits(hot, cold),
        flushed(hot, cold, after_hot, after, lost),
    ensures
        after_hot.cursor == 0,
        cold.batch is Some ==> after_hot.epoch == (hot.epoch + 2) % 0x1_0000_0000_0000_0000,
        lost == 0 || lost == hot.cursor,
        lost > 0 ==> cold.producer is Some && way_of(cold).sent >= way_of(cold).capacity,
        cold.producer is Some && hot.cursor > 0 && lost == 0 ==> way_of(after).sent == way_of(
            cold,
        ).sent + 1,
        cold.producer is Some && hot.cursor > 0 && lost == 0 ==> way_of(after).lane[way_of(
            cold,
        ).sent as int].events == cold.batch->0.events@.take(hot.cursor as int),
        cold.producer is Some && hot.cursor > 0 && lost == 0 ==> way_of(after).lane[way_of(
            cold,
        ).sent as int].base_ticks == hot.base_ticks,
        after_hot.queue_id == hot.queue_id,
{
}

/// A thread that is taken out is gone, and every other stays; where all but one are, that
/// one stays, and no other.
pub proof fn threads_are_told_apart_by_their_keys<T>(
    entries: Seq<(usize, T)>,
    key: usize,
    e: (usize, T),
)
    ensures
        entries.filter(has_other_key(key)).contains(e) <==> entries.contains(e) && e.0 != key,
        entries.filter(has_key(key)).contains(e) <==> entries.contains(e) && e.0 == key,
{
    lemma_filtered(entries, has_other_key(key), e);
    lemma_filtered(entries, has_key(key), e);
}

proof fn lemma_filtered<T>(entries: Seq<(usize, T)>, keep: spec_fn((usize, T)) -> bool, e: (usize, T))
    ensures
        entries.filter(keep).contains(e) <==> entries.contains(e) && keep(e),
{
    let kept = entries.filter(keep);
    if entries.contains(e) && keep(e) {
        let i = entries.index_of(e);
        assert(entries[i] == e);
        entries.lemma_filter_contains(keep, i);
    }
    if kept.contains(e) {
        entries.lemma_filter_contains_rev(keep, e);
    }
}

/// A copy of an open batch is good exactly where the thread has not changed batches
/// meanwhile; it is then of the thread, and starts where the batch does.
pub proof fn a_copy_is_good_while_the_epoch_stays(
    hot: Hot,
    events: Vec<PackedEvent>,
    epoch_after: u64,
    batch: Option<EventBatch>,
    queue_id: u64,
    look: Look,
)
    requires
        call_ensures(Hot::settle, (&hot, events, epoch_after), batch),
        call_ensures(Hot::look, (&hot, queue_id), look),
    ensures
        batch is Some <==> epoch_after == hot.epoch,
        batch matches Some(b) ==> b.base_ticks == hot.base_ticks && b.tid == hot.tid && b.events@
            == events@,
        look matches Look::Copy(n) ==> hot.epoch % 2 == 0 && hot.queue_id == queue_id && 0 < n
            <= 1024 && n == hot.cursor - (hot.end - 1024),
        look is Nothing <==> hot.epoch % 2 == 0 && (hot.queue_id != queue_id || hot.end == 0),
{
}

/// The tail of a thread is read exactly where the thread has written something for the queue
/// and is not changing batches, and it is all that the thread has written.
pub proof fn the_tail_of_a_thread_is_read(
    state: ThreadState,
    queue_id: u64,
    tail: Option<EventBatch>,
)
    requires
        fits(state.hot, state.cold),
        call_ensures(ThreadState::read_tail, (&state, queue_id), tail),
    ensures
        tail is Some <==> state.hot.epoch % 2 == 0 && state.hot.queue_id == queue_id
            && state.hot.cursor > 0,
        tail matches Some(b) ==> b.base_ticks == state.hot.base_ticks && b.tid == state.hot.tid
            && b.events@ == state.cold.batch->0.events@.take(state.hot.cursor as int),
{
}

/// A thread that sends off its open batch sends all of it, or counts all of it where its
/// lane is full, and has written nothing then.
pub proof fn a_thread_sends_off_all_it_has_written(hot: &mut Hot, cold: &mut Cold, lost: u64)
    requires
        fits(*old(hot), *old(cold)),
        call_ensures(Cold::flush_partial, (cold, hot), lost),
    ensures
        fits(*final(hot), *final(cold)),
        final(hot).cursor == 0,
        lost == 0 || lost == old(hot).cursor,
        lost > 0 ==> old(cold).producer is Some && way_of(*old(cold)).sent >= way_of(
            *old(cold),
        ).capacity && way_of(*final(cold)).sent == way_of(*old(cold)).sent,
        old(cold).producer is Some && old(hot).cursor > 0 && lost == 0 ==> way_of(
            *final(cold),
        ).sent == way_of(*old(cold)).sent + 1 && way_of(*final(cold)).lane[way_of(
            *old(cold),
        ).sent as int] == (BatchView {
            base_ticks: old(hot).base_ticks,
            tid: old(cold).batch->0.tid,
            events: old(cold).batch->0.events@.take(old(hot).cursor as int),
        }),
        final(hot).queue_id == old(hot).queue_id,
        final(hot).last_code_key == old(hot).last_code_key,
        final(hot).ensured == old(hot).ensured,
{
    what_is_sent_off_goes_on_or_is_counted(*old(hot), *old(cold), *final(hot), *final(cold), lost);
}

/// A thread is added under its key where none is, and stays until it is taken out; no other
/// comes or goes with it.
pub proof fn a_thread_is_there_until_it_is_taken_out<T>(
    added: &mut Recorders<T>,
    key: usize,
    thread: T,
    taken: &mut Recorders<T>,
    others: &mut Recorders<T>,
    e: (usize, T),
)
    requires
        keys_differ(old(added)@),
        call_ensures(register_current::<T>, (added, key, thread), ()),
        call_ensures(Recorders::<T>::forget, (taken, key), ()),
        call_ensures(forget_other_threads::<T>, (others, key), ()),
    ensures
        (forall|i: int| 0 <= i < old(added)@.len() ==> (#[trigger] old(added)@[i]).0 != key)
            ==> final(added)@ == old(added)@.push((key, thread)),
        (exists|i: int| 0 <= i < old(added)@.len() && (#[trigger] old(added)@[i]).0 == key)
            ==> final(added)@ == old(added)@,
        final(taken)@.contains(e) <==> old(taken)@.contains(e) && e.0 != key,
        final(others)@.contains(e) <==> old(others)@.contains(e) && e.0 == key,
{
    threads_are_told_apart_by_their_keys(old(taken)@, key, e);
    threads_are_told_apart_by_their_keys(old(others)@, key, e);
}

/// A thread that has recorded nothing remembers no code object, has no number, no batch and
/// no queue.
pub proof fn a_thread_starts_with_nothing(hot: Hot, queue_id: u64, state: ThreadState)
    requires
        call_ensures(Hot::empty, (), hot),
        call_ensures(ThreadState::empty, (), state),
    ensures
        hot.last_code_key == usize::MAX,
        hot.tid == u32::MAX,
        hot.cursor == 0,
        hot.end == 0,
        hot.queue_id == 0,
        hot.epoch == 0,
        !hot.ensured,
        state.hot == hot,
        state.cold.batch is None,
        state.cold.producer is None,
        tail_of(state, queue_id) is None,
{
}

/// Each of some threads that send off what they have written has written nothing then, and
/// what they lost is the sum of what each did.
pub proof fn all_threads_send_off_what_they_have_written(
    states: &mut Vec<ThreadState>,
    lost: u64,
    i: int,
)
    requires
        forall|k: int|
            0 <= k < old(states)@.len() ==> fits(
                (#[trigger] old(states)@[k]).hot,
                old(states)@[k].cold,
            ),
        call_ensures(flush_every_thread, (states,), lost),
        0 <= i < old(states)@.len(),
    ensures
        final(states)@.len() == old(states)@.len(),
        final(states)@[i].hot.cursor == 0,
        final(states)@[i].hot.queue_id == old(states)@[i].hot.queue_id,
        old(states)@.len() == 1 ==> lost == 0 || lost == old(states)@[0].hot.cursor,
        exists|each: Seq<u64>| #[trigger]
            each_flushed(old(states)@, final(states)@, each) && lost == sum_of(each)
                % 0x1_0000_0000_0000_0000,
{
    let each = choose|each: Seq<u64>| #[trigger]
        each_flushed(old(states)@, final(states)@, each) && lost == low64(sum_of(each));
    let (before, after) = (old(states)@[i], final(states)@[i]);
    what_is_sent_off_goes_on_or_is_counted(
        before.hot,
        before.cold,
        after.hot,
        after.cold,
        each[i],
    );
    if old(states)@.len() == 1 {
        reveal_with_fuel(sum_of, 2);
        assert(each.drop_last() =~= Seq::empty());
        assert(sum_of(each) == each[0]);
    }
}

/// A thread that is pointed at a batch starts at its front, with room for 1024 events and
/// with the batch's own start; a reader sees that it has changed.
pub proof fn a_thread_is_pointed_at_its_batch(cold: Cold, hot: &mut Hot)
    requires
        call_ensures(Cold::arm, (&cold, hot), ()),
    ensures
        final(hot).cursor == 0,
        final(hot).epoch == (old(hot).epoch + 2) % 0x1_0000_0000_0000_0000,
        cold.batch is None ==> final(hot).end == 0,
        cold.batch matches Some(b) ==> final(hot).end == 1024 && final(hot).base_ticks
            == b.base_ticks && final(hot).tid == b.tid,
        final(hot).queue_id == old(hot).queue_id,
        final(hot).last_code_key == old(hot).last_code_key,
        final(hot).code_gen == old(hot).code_gen,
{
}

/// The tails that are read are those that the threads show.
pub proof fn the_tails_of_all_threads_are_read(
    states: &[&ThreadState],
    queue_id: u64,
    tails: Vec<EventBatch>,
    i: int,
)
    requires
        forall|k: int|
            0 <= k < states@.len() ==> fits((#[trigger] states@[k]).hot, states@[k].cold),
        call_ensures(read_tails, (states, queue_id), tails),
        0 <= i < states@.len(),
        states@[i].hot.epoch % 2 == 0,
        states@[i].hot.queue_id == queue_id,
        states@[i].hot.cursor > 0,
    ensures
        crate::snapshot::views(tails@).contains(
            BatchView {
                base_ticks: states@[i].hot.base_ticks,
                tid: states@[i].hot.tid,
                events: states@[i].cold.batch->0.events@.take(states@[i].hot.cursor as int),
            },
        ),
        tails@.len() <= states@.len(),
{
    let b = BatchView {
        base_ticks: states@[i].hot.base_ticks,
        tid: states@[i].hot.tid,
        events: states@[i].cold.batch->0.events@.take(states@[i].hot.cursor as int),
    };
    assert(tail_of(*states@[i], queue_id) == Some(b));
    every_tail_is_read(states@, queue_id, b);
    assert(crate::snapshot::views(tails@).len() == tails@.len());
}

} // verus!
