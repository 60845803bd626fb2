use trace0::clock::Clock;
use trace0::event::{Event, EventKind};
use trace0::evqueue::{
    Drained, EventBatch, EventQueue, Ids, BATCHES_CAPACITY, BATCH_N, DELTA_OVERFLOW, DRAIN_EVENTS,
};
use trace0::tls::{Cold, Hot, ThreadState};

fn test_clock() -> Clock {
    Clock::mock().0
}

fn push_and_drain(clock: Clock, pushes: Vec<(u64, u32, u32, EventKind)>) -> Vec<Event> {
    let mut q = EventQueue::new(1, clock);
    let mut t = ThreadState::empty();
    for (ticks, tid, code, kind) in pushes {
        q.push_with_ctx(&mut t.hot, &mut t.cold, 1, ticks, tid, code, kind);
    }
    assert_eq!(t.cold.flush_partial(&mut t.hot), 0);
    let mut out = Vec::new();
    q.drain_nonblocking(&mut out, usize::MAX);
    out
}

#[test]
fn a_second_queue_on_the_same_thread_records_its_own_events() {
    let mut ids = Ids::new();
    let mut t = ThreadState::empty();
    let mut first = EventQueue::new(ids.take(), test_clock());
    let run = first.id();
    first.push_with_ctx(&mut t.hot, &mut t.cold, run, 10, 1, 7, EventKind::Begin);
    assert_eq!(t.cold.flush_partial(&mut t.hot), 0);
    let mut discard = Vec::new();
    first.drain_nonblocking(&mut discard, usize::MAX);
    first.close();

    let mut second = EventQueue::new(ids.take(), test_clock());
    let run = second.id();
    second.push_with_ctx(&mut t.hot, &mut t.cold, run, 20, 1, 7, EventKind::End);
    assert_eq!(t.cold.flush_partial(&mut t.hot), 0);
    let mut out = Vec::new();
    second.drain_nonblocking(&mut out, usize::MAX);
    assert_eq!(out.len(), 1, "the second queue saw none of its own events");
    assert_eq!(out[0].kind(), EventKind::End);
}

#[test]
fn a_new_queue_never_reuses_a_dropped_queues_id() {
    let mut ids = Ids::new();
    let first = EventQueue::new(ids.take(), test_clock());
    let id = first.id();
    drop(first);
    assert_ne!(EventQueue::new(ids.take(), test_clock()).id(), id);
}

#[test]
fn no_queue_takes_the_id_a_fresh_thread_starts_with() {
    let mut ids = Ids::new();
    assert_eq!(Hot::empty().queue_id, 0);
    for _ in 0..8 {
        assert_ne!(EventQueue::new(ids.take(), test_clock()).id(), 0);
    }
}

#[test]
fn a_wrong_run_id_costs_the_fast_path_but_not_the_trace() {
    let mut q = EventQueue::new(1, test_clock());
    let mut t = ThreadState::empty();
    let wrong = q.id().wrapping_add(1);
    for i in 0..4u64 {
        q.push_with_ctx(&mut t.hot, &mut t.cold, wrong, i * 1_000, 1, 3, EventKind::Begin);
    }
    assert_eq!(t.cold.flush_partial(&mut t.hot), 0);
    let mut out = Vec::new();
    q.drain_nonblocking(&mut out, usize::MAX);
    assert_eq!(out.len(), 4);
    assert_eq!(out[3].ts_ns, 3_000);
    assert_eq!(out[3].code_id(), 3);
}

#[test]
fn the_last_batch_is_counted_when_the_ring_has_no_room() {
    let n = BATCH_N * (BATCHES_CAPACITY + 1);
    let mut q = EventQueue::new(1, test_clock());
    let mut t = ThreadState::empty();
    for i in 0..n {
        q.push_with_ctx(&mut t.hot, &mut t.cold, 1, i as u64, 1, 0, EventKind::Begin);
    }
    q.record_dropped(t.cold.flush_partial(&mut t.hot));
    let mut out = Vec::new();
    q.drain_nonblocking(&mut out, usize::MAX);
    let kept = out.len() as u64;
    assert_eq!(kept, (BATCH_N * BATCHES_CAPACITY) as u64);
    assert_eq!(
        kept + q.dropped(),
        n as u64,
        "the flushed batch vanished without being counted"
    );
}

#[test]
fn a_full_set_of_batches_is_buffered_without_dropping() {
    let n = BATCH_N * BATCHES_CAPACITY;
    let out = push_and_drain(
        test_clock(),
        (0..n).map(|i| (i as u64, 1, 0, EventKind::Begin)).collect(),
    );
    assert_eq!(out.len(), n);
}

#[test]
fn drained_timestamps_preserve_the_gaps_between_events() {
    let out = push_and_drain(
        test_clock(),
        vec![
            (0, 7, 0, EventKind::Begin),
            (1_000, 7, 0, EventKind::End),
            (10_000, 7, 0, EventKind::Begin),
        ],
    );
    assert_eq!(out.len(), 3);
    assert_eq!(out[0].ts_ns, 0);
    assert_eq!(out[1].ts_ns, 1_000);
    assert_eq!(out[2].ts_ns, 10_000);
}

#[test]
fn a_synthetic_second_measures_as_a_second() {
    let out = push_and_drain(
        test_clock(),
        vec![
            (0, 1, 0, EventKind::Begin),
            (1_000_000_000, 1, 0, EventKind::End),
        ],
    );
    assert_eq!(out[1].ts_ns - out[0].ts_ns, 1_000_000_000);
}

#[test]
fn the_clock_anchor_shifts_timestamps_to_trace_relative() {
    let (clock, _m) = Clock::mock_starting_at(9_000_000_000);
    let out = push_and_drain(clock, vec![(9_000_001_000, 1, 0, EventKind::Begin)]);
    assert_eq!(out[0].ts_ns, 1_000);
}

#[test]
fn timestamps_are_relative_to_the_first_event_not_the_batch() {
    let out = push_and_drain(
        test_clock(),
        vec![(0, 1, 0, EventKind::Begin), (1_000, 1, 0, EventKind::End)],
    );
    assert_eq!(out[1].ts_ns, 1_000);
}

#[test]
fn events_survive_a_full_batch_boundary() {
    let pushes: Vec<(u64, u32, u32, EventKind)> = (0..BATCH_N + 5)
        .map(|i| (i as u64 * 1_000, 3, 0, EventKind::Begin))
        .collect();
    let out = push_and_drain(test_clock(), pushes);
    assert_eq!(out.len(), BATCH_N + 5);
    assert_eq!(out[BATCH_N + 4].ts_ns, (BATCH_N as u64 + 4) * 1_000);
}

#[test]
fn a_tick_gap_wider_than_u32_still_lands_at_the_right_time() {
    let big = DELTA_OVERFLOW + 1_000;
    let out = push_and_drain(
        test_clock(),
        vec![(0, 1, 0, EventKind::Begin), (big, 1, 0, EventKind::End)],
    );
    assert_eq!(out.len(), 2);
    assert_eq!(out[0].ts_ns, 0);
    assert_eq!(out[1].ts_ns, big);
}

#[test]
fn code_id_and_kind_come_back_out_of_the_queue() {
    let out = push_and_drain(
        test_clock(),
        vec![(0, 5, 11, EventKind::Begin), (24, 5, 22, EventKind::Yield)],
    );
    assert_eq!((out[0].code_id(), out[0].kind()), (11, EventKind::Begin));
    assert_eq!((out[1].code_id(), out[1].kind()), (22, EventKind::Yield));
    assert_eq!(out[0].tid, 5);
}

#[test]
fn nothing_is_dropped_below_the_ring_capacity() {
    let out = push_and_drain(
        test_clock(),
        (0..BATCH_N * 4)
            .map(|i| (i as u64, 1, 0, EventKind::Begin))
            .collect(),
    );
    assert_eq!(out.len(), BATCH_N * 4);
}

#[test]
fn the_ids_count_up_from_one() {
    let mut ids = Ids::new();
    assert_eq!([ids.take(), ids.take(), ids.take()], [1, 2, 3]);
}

#[test]
fn a_clock_that_goes_back_starts_a_new_batch() {
    let out = push_and_drain(
        test_clock(),
        vec![(5_000, 1, 0, EventKind::Begin), (100, 1, 0, EventKind::End)],
    );
    let times: Vec<u64> = out.iter().map(|e| e.ts_ns).collect();
    assert_eq!(times, [5_000, 100]);
}

#[test]
fn the_batches_come_out_as_they_went_in() {
    let mut q = EventQueue::new(1, test_clock());
    let mut t = ThreadState::empty();
    for i in 0..(2 * BATCH_N + 1) as u64 {
        q.push_with_ctx(&mut t.hot, &mut t.cold, 1, i, 9, 0, EventKind::Begin);
    }
    assert_eq!(t.cold.flush_partial(&mut t.hot), 0);
    let mut out: Vec<Box<EventBatch>> = Vec::new();
    assert_eq!(q.drain_batches(&mut out, usize::MAX), 3);
    let shape: Vec<(u64, usize)> = out.iter().map(|b| (b.base_ticks, b.events.len())).collect();
    assert_eq!(
        shape,
        [(0, BATCH_N), (BATCH_N as u64, BATCH_N), (2 * BATCH_N as u64, 1)]
    );
    assert_eq!(q.drain_batches(&mut out, usize::MAX), 0);
}

#[test]
fn a_limit_stops_the_draining_after_the_batch_that_reaches_it() {
    let mut q = EventQueue::new(1, test_clock());
    let mut t = ThreadState::empty();
    for i in 0..(3 * BATCH_N) as u64 {
        q.push_with_ctx(&mut t.hot, &mut t.cold, 1, i, 9, 0, EventKind::Begin);
    }
    assert_eq!(t.cold.flush_partial(&mut t.hot), 0);
    let mut batches: Vec<Box<EventBatch>> = Vec::new();
    assert_eq!(q.drain_batches(&mut batches, 1), 1);
    let mut out = Vec::new();
    assert_eq!(q.drain_nonblocking(&mut out, 1), BATCH_N);
    assert_eq!(q.drain_nonblocking(&mut out, usize::MAX), BATCH_N);
    assert_eq!(out.len(), 2 * BATCH_N);
}

#[test]
fn a_blocking_read_waits_reads_and_ends() {
    let mut q = EventQueue::new(1, test_clock());
    let mut t = ThreadState::empty();
    let mut out = Vec::new();
    assert_eq!(q.drain_blocking(&mut out), Drained::Wait);
    for i in 0..(2 * DRAIN_EVENTS) as u64 {
        q.push_with_ctx(&mut t.hot, &mut t.cold, 1, i, 9, 0, EventKind::Begin);
    }
    assert_eq!(t.cold.flush_partial(&mut t.hot), 0);
    assert_eq!(q.drain_blocking(&mut out), Drained::Events);
    assert_eq!(out.len(), DRAIN_EVENTS);
    q.close();
    assert!(q.is_closed());
    assert_eq!(q.drain_blocking(&mut out), Drained::Events);
    assert_eq!(out.len(), 2 * DRAIN_EVENTS);
    assert_eq!(q.drain_blocking(&mut out), Drained::Events, "something was left to handle");
    out.clear();
    assert_eq!(q.drain_blocking(&mut out), Drained::End);
}

#[test]
fn a_thread_without_a_queue_keeps_nothing_back() {
    let mut hot = Hot::empty();
    let mut cold = Cold::empty();
    assert_eq!(cold.flush_partial(&mut hot), 0);
    assert!(cold.batch.is_none());
}

#[test]
fn the_floor_is_what_was_published_last() {
    let mut q = EventQueue::new(1, test_clock());
    let first = q.recycle_floor();
    q.set_recycle_floor(99);
    assert_eq!((first, q.recycle_floor()), (0, 99));
}

#[test]
fn a_batch_decodes_against_the_clock() {
    let (clock, _m) = Clock::mock_starting_at(100);
    let mut batch = EventBatch::with_capacity(2, 150, 4);
    batch.events.push(trace0::event::PackedEvent {
        delta_ticks: 7,
        code_kind: trace0::event::pack_code_kind(3, EventKind::Throw),
    });
    let mut out = vec![Event::new(1, 1, 1, EventKind::Begin)];
    batch.decode_into(&clock, &mut out);
    assert_eq!(out.len(), 2);
    assert_eq!((out[1].ts_ns, out[1].tid, out[1].code_id()), (57, 4, 3));
}
