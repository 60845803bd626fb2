use trace0::clock::Clock;
use trace0::event::EventKind;
use trace0::evqueue::{push_straight_in, EventBatch, EventQueue, BATCHES_CAPACITY, BATCH_N};
use trace0::tls::{
    flush_every_thread, forget_other_threads, read_tails, register_current, Cold, Hot, Look,
    Recorders, ThreadState, NOT_CACHED,
};

fn armed(hot: &mut Hot) -> Cold {
    let cold = Cold {
        producer: None,
        batch: Some(Box::new(EventBatch::with_capacity(BATCH_N, 0, 1))),
    };
    cold.arm(hot);
    cold
}

fn walk(hot: &mut Hot, cold: &mut Cold, n: usize) {
    for i in 0..n {
        let run = hot.queue_id;
        assert!(push_straight_in(hot, cold, run, i as u64, 0));
    }
}

#[test]
fn an_untouched_thread_holds_no_recording_state() {
    let h = Hot::empty();
    assert_eq!(h.cursor, 0);
    assert!(
        h.cursor >= h.end,
        "the empty cursor must fail the push guard"
    );
    assert_eq!(h.last_code_key, NOT_CACHED);
    assert_eq!(h.tid, u32::MAX);
    assert_eq!(h.queue_id, 0);
}

#[test]
fn flush_partial_leaves_a_writable_cursor() {
    let mut hot = Hot::empty();
    let mut cold = armed(&mut hot);
    walk(&mut hot, &mut cold, 3);
    assert_eq!(
        cold.flush_partial(&mut hot),
        0,
        "a thread with no producer has nowhere to lose events"
    );
    assert!(cold.batch.is_some());
    assert!(
        hot.cursor < hot.end,
        "a straggler event would write through a dead cursor"
    );
}

#[test]
fn commit_publishes_the_events_the_cursor_walked_past() {
    let mut hot = Hot::empty();
    let mut cold = armed(&mut hot);
    walk(&mut hot, &mut cold, 3);
    cold.commit(&hot);
    let deltas: Vec<u32> = cold.batch.as_ref().unwrap().events.iter().map(|e| e.delta_ticks).collect();
    assert_eq!(deltas, [0, 1, 2]);
}

#[test]
fn a_full_batch_commits_every_slot() {
    let mut hot = Hot::empty();
    let mut cold = armed(&mut hot);
    walk(&mut hot, &mut cold, BATCH_N);
    assert_eq!(hot.cursor, hot.end);
    cold.commit(&hot);
    assert_eq!(cold.batch.as_ref().unwrap().events.len(), BATCH_N);
}

#[test]
fn a_full_batch_takes_no_event_straight_in() {
    let mut hot = Hot::empty();
    let mut cold = armed(&mut hot);
    walk(&mut hot, &mut cold, BATCH_N);
    assert!(!push_straight_in(&mut hot, &mut cold, 0, 9, 0));
    assert_eq!(hot.cursor, BATCH_N);
}

#[test]
fn arming_moves_the_epoch_on_by_two() {
    let mut hot = Hot::empty();
    let cold = armed(&mut hot);
    assert_eq!(hot.epoch, 2);
    cold.arm(&mut hot);
    assert_eq!(hot.epoch, 4);
    Cold::empty().arm(&mut hot);
    assert_eq!((hot.epoch, hot.cursor, hot.end), (6, 0, 0));
}

#[test]
fn a_tail_shows_what_is_written_and_stays_where_it_is() {
    let mut queue = EventQueue::new(5, Clock::mock().0);
    let mut state = ThreadState::empty();
    assert!(state.read_tail(5).is_none());
    queue.push_with_ctx(&mut state.hot, &mut state.cold, 5, 100, 3, 7, EventKind::Begin);
    queue.push_with_ctx(&mut state.hot, &mut state.cold, 5, 104, 3, 7, EventKind::End);
    for _ in 0..2 {
        let tail = state.read_tail(5).unwrap();
        assert_eq!((tail.base_ticks, tail.tid), (100, 3));
        let deltas: Vec<u32> = tail.events.iter().map(|e| e.delta_ticks).collect();
        assert_eq!(deltas, [0, 4]);
    }
    assert!(state.read_tail(6).is_none(), "another queue sees nothing");
}

#[test]
fn the_tails_come_in_the_order_of_the_threads() {
    let mut queue = EventQueue::new(1, Clock::mock().0);
    let mut states = [ThreadState::empty(), ThreadState::empty(), ThreadState::empty()];
    for i in [0usize, 2] {
        let s = &mut states[i];
        queue.push_with_ctx(&mut s.hot, &mut s.cold, 1, 10, i as u32, 7, EventKind::Begin);
    }
    let seen: Vec<&ThreadState> = states.iter().collect();
    let tids: Vec<u32> = read_tails(&seen, 1).iter().map(|t| t.tid).collect();
    assert_eq!(tids, [0, 2]);
}

#[test]
fn a_reader_looks_again_while_a_thread_changes_batches() {
    let mut hot = Hot::empty();
    assert_eq!(hot.look(0), Look::Nothing);
    let mut cold = armed(&mut hot);
    assert_eq!(hot.look(0), Look::Again);
    walk(&mut hot, &mut cold, 3);
    assert_eq!(hot.look(0), Look::Copy(3));
    assert_eq!(hot.look(1), Look::Nothing);
    hot.epoch += 1;
    assert_eq!(hot.look(0), Look::Again);
}

#[test]
fn a_copy_made_while_a_thread_changed_batches_is_refused() {
    let mut hot = Hot::empty();
    let mut cold = armed(&mut hot);
    walk(&mut hot, &mut cold, 3);
    let seen = hot;
    let copy = cold.batch.as_ref().unwrap().events.clone();
    let whole = seen.settle(copy.clone(), hot.epoch).unwrap();
    assert_eq!((whole.base_ticks, whole.tid), (seen.base_ticks, seen.tid));
    assert_eq!(whole.events.len(), copy.len());
    assert!(seen.settle(copy.clone(), hot.epoch + 1).is_none(), "in the middle of a change");
    for _ in 0..3 {
        cold.arm(&mut hot);
        assert!(seen.settle(copy.clone(), hot.epoch).is_none());
    }
}

#[test]
fn a_process_that_forks_keeps_only_the_thread_that_forked() {
    let mut recorders: Recorders<&str> = Recorders::new();
    register_current(&mut recorders, 10, "main");
    register_current(&mut recorders, 20, "worker");
    register_current(&mut recorders, 30, "helper");
    assert_eq!(recorders.len(), 3);
    recorders.forget(30);
    assert_eq!(recorders.len(), 2);
    forget_other_threads(&mut recorders, 20);
    assert_eq!(recorders.len(), 1);
    assert_eq!(*recorders.at(0), "worker");
}

#[test]
fn every_thread_is_flushed_and_what_is_lost_is_added_up() {
    let mut queue = EventQueue::new(1, Clock::mock().0);
    let mut states = vec![ThreadState::empty(), ThreadState::empty(), ThreadState::empty()];
    for s in states.iter_mut().take(2) {
        for i in 0..3u64 {
            queue.push_with_ctx(&mut s.hot, &mut s.cold, 1, i, 5, 7, EventKind::Begin);
        }
    }
    assert_eq!(flush_every_thread(&mut states), 0);
    assert_eq!(states.len(), 3);
    assert!(states.iter().all(|s| s.read_tail(1).is_none()));
    let mut out = Vec::new();
    assert_eq!(queue.drain_nonblocking(&mut out, usize::MAX), 6);

    let mut full = ThreadState::empty();
    for i in 0..(BATCH_N * BATCHES_CAPACITY + 7) as u64 {
        queue.push_with_ctx(&mut full.hot, &mut full.cold, 1, i, 5, 7, EventKind::Begin);
    }
    let mut states = vec![ThreadState::empty(), full];
    assert_eq!(flush_every_thread(&mut states), 7);
}
