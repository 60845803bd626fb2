use std::collections::VecDeque;
use std::sync::Arc;
use trace0::clock::{Clock, Mock};
use trace0::event::{Event, EventKind};
use trace0::evqueue::{EventBatch, EventQueue, BATCH_N};
use trace0::recorder::{Ask, Control, Session, Ticker, FLOOR_EVERY, WRITE_CHUNK};
use trace0::tls::{read_tails, ThreadState};

struct Bench {
    queue: EventQueue,
    session: Session<u32>,
    messages: VecDeque<Control<u32>>,
    threads: Vec<ThreadState>,
    open: Option<(String, Vec<Event>)>,
    dumps: Vec<(String, Vec<Event>)>,
    told: Vec<u32>,
    written_when_told: Vec<usize>,
    syncs: u32,
    rested: bool,
    mock: Arc<Mock>,
}

fn start(capacity_bytes: usize) -> Bench {
    let (clock, mock) = Clock::mock();
    Bench {
        queue: EventQueue::new(1, clock),
        session: Session::new(capacity_bytes),
        messages: VecDeque::new(),
        threads: Vec::new(),
        open: None,
        dumps: Vec::new(),
        told: Vec::new(),
        written_when_told: Vec::new(),
        syncs: 0,
        rested: false,
        mock,
    }
}

impl Bench {
    /// Runs the session until it rests or stops.
    fn run(&mut self) -> bool {
        let mut message = if self.rested { None } else { self.messages.pop_front() };
        self.rested = false;
        let mut now = 0;
        let mut tails: Vec<EventBatch> = Vec::new();
        loop {
            let ask = self.session.step(&mut self.queue, message.take(), now, &tails);
            match ask {
                Ask::Receive => message = self.messages.pop_front(),
                Ask::ReadTails => {
                    now = self.queue.clock().raw();
                    let threads: Vec<&ThreadState> = self.threads.iter().collect();
                    tails = read_tails(&threads, self.queue.id());
                }
                Ask::Open(reason) => self.open = Some((reason, Vec::new())),
                Ask::Write(events) => self.open.as_mut().unwrap().1.extend_from_slice(&events),
                Ask::Finish(_) => self.dumps.push(self.open.take().unwrap()),
                Ask::Tell(who) => {
                    self.told.push(who);
                    self.written_when_told.push(self.dumps.len());
                }
                Ask::Rest(_) => {
                    self.rested = true;
                    return false;
                }
                Ask::Stop => return true,
            }
        }
    }

    fn produce(&mut self, tid: u32, events: Vec<(u64, EventKind)>) {
        let mut t = ThreadState::empty();
        for (ticks, kind) in events {
            self.queue.push_with_ctx(&mut t.hot, &mut t.cold, 1, ticks, tid, 7, kind);
        }
        let lost = t.cold.flush_partial(&mut t.hot);
        self.queue.record_dropped(lost);
    }

    fn hold(&mut self, tid: u32, events: Vec<(u64, EventKind)>) {
        let mut t = ThreadState::empty();
        for (ticks, kind) in events {
            self.queue.push_with_ctx(&mut t.hot, &mut t.cold, 1, ticks, tid, 7, kind);
        }
        self.threads.push(t);
    }

    fn release(&mut self) {
        for mut t in self.threads.drain(..) {
            let lost = t.cold.flush_partial(&mut t.hot);
            self.queue.record_dropped(lost);
        }
    }

    fn send(&mut self, msg: Control<u32>) {
        self.messages.push_back(msg);
    }

    fn sync(&mut self) {
        self.syncs += 1;
        let syncs = self.syncs;
        self.send(Control::DumpAll {
            end_ticks: 0,
            reason: format!("sync-{syncs}"),
            done: Some(syncs),
        });
        assert!(!self.run());
        assert_eq!(self.told.last(), Some(&syncs));
    }

    fn finish(mut self) -> Vec<(String, Vec<Event>)> {
        self.queue.close();
        assert!(self.run());
        self.dumps
            .into_iter()
            .filter(|(reason, _)| !reason.starts_with("sync-"))
            .collect()
    }
}

fn full_batch() -> usize {
    std::mem::size_of::<EventBatch>() + BATCH_N * 8
}

fn begins(ticks: std::ops::RangeInclusive<u64>) -> Vec<(u64, EventKind)> {
    ticks.map(|t| (t, EventKind::Begin)).collect()
}

fn timestamps(events: &[Event]) -> Vec<u64> {
    events.iter().map(|e| e.ts_ns).collect()
}

fn open(id: u64, start_ticks: u64) -> Control<u32> {
    Control::Open { id, start_ticks }
}

fn dump(id: u64, start_ticks: u64, end_ticks: u64, reason: &str) -> Control<u32> {
    Control::Dump {
        id,
        start_ticks,
        end_ticks,
        reason: reason.to_string(),
        done: None,
    }
}

fn dump_all(end_ticks: u64, reason: &str) -> Control<u32> {
    Control::DumpAll {
        end_ticks,
        reason: reason.to_string(),
        done: None,
    }
}

#[test]
fn a_dump_captures_the_slice_between_its_window_marks() {
    let mut s = start(usize::MAX);
    s.produce(
        1,
        vec![
            (1, EventKind::Begin),
            (2, EventKind::End),
            (11, EventKind::Begin),
            (12, EventKind::End),
            (21, EventKind::Begin),
            (22, EventKind::End),
            (31, EventKind::Begin),
            (32, EventKind::End),
        ],
    );
    s.send(dump(1, 10, 25, "slice"));
    let dumps = s.finish();
    assert_eq!(dumps.len(), 1);
    assert_eq!(dumps[0].0, "slice");
    assert_eq!(timestamps(&dumps[0].1), [11, 12, 21, 22]);
}

#[test]
fn a_dump_reads_events_still_in_a_live_thread_tail() {
    let mut s = start(usize::MAX);
    s.hold(3, vec![(1, EventKind::Begin), (2, EventKind::End)]);
    s.send(dump(1, 1, 10, "tail"));
    assert!(!s.run());
    assert!(s.dumps.iter().any(|(reason, _)| reason == "tail"));
    s.release();
    let dumps = s.finish();
    assert_eq!(dumps.len(), 1);
    assert_eq!(timestamps(&dumps[0].1), [1, 2]);
    assert!(dumps[0].1.iter().all(|e| e.tid == 3));
}

#[test]
fn an_open_window_protects_history_beyond_capacity() {
    let mut s = start(2 * full_batch());
    s.send(open(1, 1));
    s.sync();
    s.produce(1, begins(1..=4 * BATCH_N as u64));
    s.send(dump(1, 1, u64::MAX, "kept"));
    let dumps = s.finish();
    assert_eq!(dumps.len(), 1);
    assert_eq!(dumps[0].1.len(), 4 * BATCH_N);
    assert_eq!(dumps[0].1[0].ts_ns, 1);
}

#[test]
fn without_a_window_the_ring_keeps_only_its_capacity() {
    let mut s = start(2 * full_batch());
    s.produce(1, begins(1..=4 * BATCH_N as u64));
    s.send(dump_all(u64::MAX, "rest"));
    let dumps = s.finish();
    assert_eq!(dumps.len(), 1);
    assert_eq!(dumps[0].1.len(), 2 * BATCH_N);
    assert_eq!(dumps[0].1[0].ts_ns, 2 * BATCH_N as u64 + 1);
}

#[test]
fn a_canceled_window_releases_its_history() {
    let mut s = start(2 * full_batch());
    s.send(open(1, 1));
    s.sync();
    s.produce(1, begins(1..=4 * BATCH_N as u64));
    s.sync();
    s.send(Control::Cancel { id: 1 });
    s.send(dump_all(u64::MAX, "after-cancel"));
    let dumps = s.finish();
    assert_eq!(dumps.len(), 1);
    assert_eq!(dumps[0].1.len(), 2 * BATCH_N);
    assert_eq!(dumps[0].1[0].ts_ns, 2 * BATCH_N as u64 + 1);
}

#[test]
fn the_floor_follows_the_oldest_open_window() {
    let mut s = start(2 * full_batch());
    s.send(open(1, 1));
    s.send(open(2, 3_000));
    s.sync();
    s.produce(1, begins(1..=4 * BATCH_N as u64));
    s.sync();
    s.send(Control::Cancel { id: 1 });
    s.sync();
    s.produce(1, begins(4 * BATCH_N as u64 + 1..=6 * BATCH_N as u64));
    s.send(dump(2, 3_000, u64::MAX, "second"));
    let dumps = s.finish();
    assert_eq!(dumps.len(), 1);
    assert_eq!(dumps[0].1.len(), 4 * BATCH_N);
    assert_eq!(dumps[0].1[0].ts_ns, 2 * BATCH_N as u64 + 1);
}

#[test]
fn the_recorder_writes_nothing_unless_asked() {
    let mut s = start(usize::MAX);
    s.produce(1, begins(1..=64));
    let dumps = s.finish();
    assert!(dumps.is_empty());
}

#[test]
fn a_dump_larger_than_one_write_chunk_keeps_every_event() {
    let mut s = start(usize::MAX);
    s.produce(1, begins(1..=2 * WRITE_CHUNK as u64));
    s.send(dump_all(u64::MAX, "big"));
    let dumps = s.finish();
    assert_eq!(dumps.len(), 1);
    assert_eq!(dumps[0].1.len(), 2 * WRITE_CHUNK);
    assert_eq!(
        timestamps(&dumps[0].1),
        Vec::from_iter(1..=2 * WRITE_CHUNK as u64)
    );
}

#[test]
fn a_dump_publishes_the_recycle_floor() {
    let mut s = start(2 * full_batch());
    s.produce(1, begins(1..=4 * BATCH_N as u64));
    s.mock.increment(1_000_000u64);
    s.sync();
    assert_eq!(s.queue.recycle_floor(), 2 * BATCH_N as u64 + 1);
    s.finish();
}

#[test]
fn a_live_tail_holds_the_recycle_floor_down() {
    let mut s = start(usize::MAX);
    s.hold(3, vec![(5, EventKind::Begin), (6, EventKind::End)]);
    s.mock.increment(1_000_000u64);
    s.sync();
    assert_eq!(s.queue.recycle_floor(), 5);
    s.release();
    s.finish();
}

#[test]
fn an_idle_recorder_floors_at_the_present() {
    let mut s = start(usize::MAX);
    s.mock.increment(777u64);
    s.sync();
    assert_eq!(s.queue.recycle_floor(), 777);
    s.finish();
}

#[test]
fn a_dump_acknowledges_only_after_it_is_written() {
    let mut s = start(usize::MAX);
    s.produce(1, vec![(1, EventKind::Begin), (2, EventKind::End)]);
    s.send(Control::DumpAll {
        end_ticks: 10,
        reason: "acked".to_string(),
        done: Some(41),
    });
    assert!(!s.run());
    assert_eq!(s.told, [41]);
    assert_eq!(s.written_when_told, [1]);
    assert!(s.dumps.iter().any(|(reason, _)| reason == "acked"));
    s.finish();
}

#[test]
fn a_dump_sent_with_close_still_lands() {
    let mut s = start(usize::MAX);
    s.produce(1, vec![(1, EventKind::Begin), (2, EventKind::End)]);
    s.send(dump_all(10, "exit"));
    let dumps = s.finish();
    assert_eq!(dumps.len(), 1);
    assert_eq!(dumps[0].0, "exit");
    assert_eq!(timestamps(&dumps[0].1), [1, 2]);
}

#[test]
fn the_floor_is_published_once_in_a_while() {
    let mut s = start(usize::MAX);
    s.mock.increment(50u64);
    for _ in 1..FLOOR_EVERY {
        assert!(!s.run());
    }
    assert_eq!(s.queue.recycle_floor(), 0);
    assert!(!s.run());
    assert_eq!(s.queue.recycle_floor(), 50);
    s.finish();
}

#[test]
fn a_ticker_is_due_at_every_round_number() {
    let mut t = Ticker::new();
    let due: Vec<u32> = (1..=2 * FLOOR_EVERY).filter(|_| t.tick()).collect();
    assert_eq!(due, [FLOOR_EVERY, 2 * FLOOR_EVERY]);
}

#[test]
fn a_session_that_stopped_asks_for_nothing_more() {
    let mut s = start(usize::MAX);
    s.queue.close();
    assert!(s.run());
    assert!(s.run());
}
