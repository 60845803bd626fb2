use trace0::clock::Clock;
use trace0::event::{Event, EventKind};
use trace0::evqueue::{EventQueue, BATCHES_CAPACITY, BATCH_N};
use trace0::pipeline::{fan_in, total_dropped, Onto, Onward, Pace, Serializer, Writer};
use trace0::tls::ThreadState;

struct Recording {
    events: Vec<Event>,
    dropped: Option<u64>,
}

fn queue() -> EventQueue {
    EventQueue::new(1, Clock::mock().0)
}

fn produce(queue: &mut EventQueue, t: &mut ThreadState, from: u32, to: u32) {
    let run = queue.id();
    for i in from..to {
        queue.push_with_ctx(&mut t.hot, &mut t.cold, run, i as u64, 7, i % 16, EventKind::Begin);
    }
    let lost = t.cold.flush_partial(&mut t.hot);
    queue.record_dropped(lost);
}

fn take_in(queue: &EventQueue, writer: &mut Writer, finished: bool, seen: &mut Recording) {
    loop {
        match writer.step(queue.clock(), finished) {
            Onto::Write => seen.events.extend_from_slice(writer.events()),
            Onto::Rest(_) => return,
            Onto::Finish => {
                seen.dropped = Some(0);
                return;
            }
        }
    }
}

fn drain_all(queue: &mut EventQueue, serializer: &mut Serializer, writer: &mut Writer, seen: &mut Recording) {
    loop {
        let onward = serializer.step(queue);
        take_in(queue, writer, onward == Onward::Stop, seen);
        if onward == Onward::Stop {
            break;
        }
    }
    if seen.dropped.is_some() {
        seen.dropped = Some(total_dropped(queue, serializer.dropped()));
    }
}

fn recording() -> Recording {
    Recording {
        events: Vec::new(),
        dropped: None,
    }
}

#[test]
fn every_event_survives_the_fanin() {
    let mut queue = queue();
    produce(&mut queue, &mut ThreadState::empty(), 0, 5000);
    queue.close();
    let (mut s, mut w) = fan_in();
    let mut seen = recording();
    drain_all(&mut queue, &mut s, &mut w, &mut seen);
    assert_eq!(seen.events.len(), 5000);
    assert_eq!(seen.dropped, Some(0));
}

#[test]
fn events_pushed_while_the_exporter_runs_are_not_lost() {
    let mut queue = queue();
    let mut t = ThreadState::empty();
    let (mut s, mut w) = fan_in();
    let mut seen = recording();
    for part in 0..20 {
        produce(&mut queue, &mut t, part * 1_000, (part + 1) * 1_000);
        assert_ne!(s.step(&mut queue), Onward::Stop);
        take_in(&queue, &mut w, false, &mut seen);
    }
    queue.close();
    drain_all(&mut queue, &mut s, &mut w, &mut seen);
    assert_eq!(seen.events.len() as u64 + queue.dropped(), 20_000);
    assert_eq!(seen.dropped, Some(queue.dropped()));
}

#[test]
fn the_exporter_is_told_how_many_events_were_dropped() {
    let mut queue = queue();
    let n = ((BATCHES_CAPACITY + 8) * BATCH_N) as u32;
    produce(&mut queue, &mut ThreadState::empty(), 0, n);
    queue.close();
    let (mut s, mut w) = fan_in();
    let mut seen = recording();
    drain_all(&mut queue, &mut s, &mut w, &mut seen);
    assert!(
        queue.dropped() > 0,
        "a queue this small should have overflowed"
    );
    assert_eq!(seen.dropped, Some(queue.dropped()));
    assert_eq!(seen.events.len() as u64 + queue.dropped(), n as u64);
    assert_eq!(queue.dropped(), (8 * BATCH_N) as u64);
}

#[test]
fn the_exporter_writes_before_the_queue_closes() {
    let mut queue = queue();
    produce(&mut queue, &mut ThreadState::empty(), 0, 4096);
    let (mut s, mut w) = fan_in();
    let mut seen = recording();
    assert_eq!(s.step(&mut queue), Onward::Again);
    take_in(&queue, &mut w, false, &mut seen);
    assert!(!seen.events.is_empty(), "nothing was written before close");
    assert!(seen.dropped.is_none(), "finish ran before close");

    queue.close();
    drain_all(&mut queue, &mut s, &mut w, &mut seen);
    assert_eq!(seen.events.len(), 4096);
}

#[test]
fn a_writer_that_never_comes_costs_events_that_are_counted() {
    let mut queue = queue();
    let mut t = ThreadState::empty();
    let (mut s, mut w) = fan_in();
    let mut sent = 0u32;
    for _ in 0..10 {
        let to = sent + (BATCHES_CAPACITY * BATCH_N) as u32;
        produce(&mut queue, &mut t, sent, to);
        sent = to;
        while s.step(&mut queue) == Onward::Again {}
    }
    assert!(s.dropped() > 0);
    queue.close();
    let mut seen = recording();
    drain_all(&mut queue, &mut s, &mut w, &mut seen);
    assert_eq!(seen.events.len() as u64 + s.dropped() + queue.dropped(), sent as u64);
    assert_eq!(seen.dropped, Some(s.dropped() + queue.dropped()));
}

#[test]
fn rests_double_up_to_the_longest_and_start_over() {
    let mut pace = Pace::new();
    let rests: Vec<u64> = (0..6).map(|_| pace.backoff()).collect();
    assert_eq!(rests, [20, 40, 80, 160, 200, 200]);
    pace.worked();
    assert_eq!(pace.backoff(), 20);
}

#[test]
fn each_thread_keeps_its_order_and_nothing_is_written_twice() {
    let mut queue = queue();
    let mut threads: Vec<ThreadState> = (0..3).map(|_| ThreadState::empty()).collect();
    let (mut s, mut w) = fan_in();
    let mut seen = recording();
    let mut finished = 0;
    for round in 0..7u64 {
        for (k, t) in threads.iter_mut().enumerate() {
            for i in 0..700u64 {
                let ticks = round * 700 + i;
                queue.push_with_ctx(&mut t.hot, &mut t.cold, 1, ticks, k as u32, 3, EventKind::Begin);
            }
        }
        while s.step(&mut queue) == Onward::Again {}
        take_in(&queue, &mut w, false, &mut seen);
    }
    for t in threads.iter_mut() {
        let lost = t.cold.flush_partial(&mut t.hot);
        queue.record_dropped(lost);
    }
    queue.close();
    while s.step(&mut queue) != Onward::Stop {}
    while finished < 3 {
        match w.step(queue.clock(), true) {
            Onto::Write => {
                assert_eq!(finished, 0, "a page after the end");
                seen.events.extend_from_slice(w.events());
            }
            Onto::Rest(_) => {}
            Onto::Finish => finished += 1,
        }
    }
    assert_eq!(total_dropped(&queue, s.dropped()), 0);
    for k in 0..3u32 {
        let times: Vec<u64> = seen.events.iter().filter(|e| e.tid == k).map(|e| e.ts_ns).collect();
        assert_eq!(times.len(), 7 * 700);
        assert!(times.windows(2).all(|p| p[0] < p[1]), "in order, and each once");
    }
}
