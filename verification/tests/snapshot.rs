use trace0::clock::Clock;
use trace0::event::{pack_code_kind, Event, EventKind, PackedEvent};
use trace0::evqueue::EventBatch;
use trace0::snapshot::{assemble, replay, sort_rows, Row};

fn batch(tid: u32, base_ticks: u64, events: &[(u32, u32, EventKind)]) -> EventBatch {
    EventBatch {
        base_ticks,
        tid,
        events: events
            .iter()
            .map(|(delta, code, kind)| PackedEvent {
                delta_ticks: *delta,
                code_kind: pack_code_kind(*code, *kind),
            })
            .collect(),
    }
}

fn shape(events: &[Event]) -> Vec<(u64, u32, u32, EventKind)> {
    events
        .iter()
        .map(|e| (e.ts_ns, e.tid, e.code_id(), e.kind()))
        .collect()
}

fn clock() -> Clock {
    Clock::mock().0
}

fn cut(history: &[EventBatch], tails: &[EventBatch], horizon: u64, start: u64, end: u64) -> Vec<Event> {
    let history: Vec<&EventBatch> = history.iter().collect();
    assemble(&history, tails, &clock(), horizon, start, end)
}

#[test]
fn a_middle_slice_carries_only_its_own_events() {
    let history = [batch(
        1,
        0,
        &[
            (0, 10, EventKind::Begin),
            (5, 10, EventKind::End),
            (100, 20, EventKind::Begin),
            (150, 20, EventKind::End),
            (300, 30, EventKind::Begin),
            (310, 30, EventKind::End),
        ],
    )];
    let out = cut(&history, &[], 0, 90, 200);
    assert_eq!(
        shape(&out),
        vec![(100, 1, 20, EventKind::Begin), (150, 1, 20, EventKind::End),]
    );
}

#[test]
fn a_function_open_before_the_slice_appears_as_an_open_span() {
    let history = [batch(
        1,
        0,
        &[
            (10, 10, EventKind::Begin),
            (120, 20, EventKind::Begin),
            (130, 20, EventKind::End),
        ],
    )];
    let out = cut(&history, &[], 0, 100, 200);
    assert_eq!(
        shape(&out),
        vec![
            (10, 1, 10, EventKind::Begin),
            (120, 1, 20, EventKind::Begin),
            (130, 1, 20, EventKind::End),
        ]
    );
}

#[test]
fn an_idle_thread_still_shows_its_open_frames() {
    let history = [batch(1, 0, &[(10, 10, EventKind::Begin)])];
    let out = cut(&history, &[], 0, 100, 200);
    assert_eq!(shape(&out), vec![(10, 1, 10, EventKind::Begin)]);
}

#[test]
fn a_close_without_an_open_synthesizes_the_open_at_the_horizon() {
    let history = [batch(
        1,
        0,
        &[(50, 10, EventKind::End), (60, 20, EventKind::Begin)],
    )];
    let out = cut(&history, &[], 30, 40, 100);
    assert_eq!(
        shape(&out),
        vec![
            (30, 1, 10, EventKind::Begin),
            (50, 1, 10, EventKind::End),
            (60, 1, 20, EventKind::Begin),
        ]
    );
}

#[test]
fn a_batch_present_in_both_ring_and_tails_is_counted_once() {
    let history = [batch(
        1,
        100,
        &[
            (0, 7, EventKind::Begin),
            (1, 7, EventKind::End),
            (2, 7, EventKind::Begin),
            (3, 7, EventKind::End),
        ],
    )];
    let tails = [
        batch(1, 100, &[(0, 7, EventKind::Begin), (1, 7, EventKind::End)]),
        batch(2, 100, &[(5, 9, EventKind::Begin)]),
    ];
    let out = cut(&history, &tails, 0, 0, 1000);
    assert_eq!(
        shape(&out),
        vec![
            (100, 1, 7, EventKind::Begin),
            (101, 1, 7, EventKind::End),
            (102, 1, 7, EventKind::Begin),
            (103, 1, 7, EventKind::End),
            (105, 2, 9, EventKind::Begin),
        ]
    );
}

#[test]
fn threads_do_not_leak_frames_into_each_other() {
    let history = [
        batch(1, 0, &[(10, 1, EventKind::Begin)]),
        batch(2, 0, &[(50, 2, EventKind::End)]),
    ];
    let out = cut(&history, &[], 5, 40, 100);
    assert_eq!(
        shape(&out),
        vec![
            (5, 2, 2, EventKind::Begin),
            (10, 1, 1, EventKind::Begin),
            (50, 2, 2, EventKind::End),
        ]
    );
}

#[test]
fn a_yield_closes_the_frame_and_a_resume_reopens_it() {
    let history = [batch(
        1,
        0,
        &[
            (10, 10, EventKind::Begin),
            (20, 10, EventKind::Yield),
            (120, 10, EventKind::Resume),
            (130, 10, EventKind::End),
        ],
    )];
    let out = cut(&history, &[], 0, 100, 200);
    assert_eq!(
        shape(&out),
        vec![
            (120, 1, 10, EventKind::Resume),
            (130, 1, 10, EventKind::End),
        ]
    );
}

#[test]
fn rows_of_one_reading_stay_in_the_order_they_had() {
    let rows: Vec<Row> = vec![(5, 1, 0), (3, 2, 1), (5, 2, 2), (1, 1, 3), (3, 1, 4), (5, 1, 5)];
    let mut expected = rows.clone();
    expected.sort_by_key(|r| r.0);
    assert_eq!(sort_rows(rows), expected);
    assert_eq!(sort_rows(Vec::new()), Vec::new());
}

#[test]
fn many_rows_sort_like_the_stable_sort() {
    let mut seed = 7u64;
    let rows: Vec<Row> = (0..1000)
        .map(|i| {
            seed = seed.wrapping_mul(6364136223846793005).wrapping_add(1442695040888963407);
            ((seed >> 33) % 50, i, 0)
        })
        .collect();
    let mut expected = rows.clone();
    expected.sort_by_key(|r| r.0);
    assert_eq!(sort_rows(rows), expected);
}

#[test]
fn what_comes_after_the_end_is_left_out() {
    let begin = pack_code_kind(1, EventKind::Begin);
    let end = pack_code_kind(1, EventKind::End);
    let stream = vec![(10, begin), (20, end), (30, begin)];
    let mut out = Vec::new();
    replay(9, &stream, 0, 5, 25, &mut out);
    assert_eq!(out, vec![(10, 9, begin), (20, 9, end)]);
}

#[test]
fn nothing_inside_leaves_what_was_open_before() {
    let begin = pack_code_kind(1, EventKind::Begin);
    let stream = vec![(10, begin), (300, begin)];
    let mut out = Vec::new();
    replay(9, &stream, 0, 100, 200, &mut out);
    assert_eq!(out, vec![(10, 9, begin)]);
}

#[test]
fn a_thread_never_closes_more_than_it_opened() {
    let kinds = [EventKind::End, EventKind::Begin, EventKind::Unwind, EventKind::Yield];
    let events: Vec<(u32, u32, EventKind)> =
        (0..40u32).map(|i| (i, i % 3, kinds[(i * 7 % 4) as usize])).collect();
    for start in [0u64, 110, 125] {
        let out = cut(&[batch(1, 100, &events)], &[], 100, start, 1000);
        let mut depth = 0i32;
        for e in &out {
            depth += if e.kind().opens_slice() { 1 } else { -1 };
            assert!(depth >= 0, "closed more than was open");
        }
    }
}

#[test]
fn a_stretch_comes_in_the_order_of_its_times() {
    let history = [
        batch(1, 10, &[(0, 1, EventKind::Begin), (20, 1, EventKind::End)]),
        batch(2, 5, &[(1, 2, EventKind::Begin), (19, 2, EventKind::End)]),
        batch(1, 40, &[(0, 1, EventKind::Begin)]),
    ];
    let out = cut(&history, &[], 0, 0, 100);
    let times: Vec<u64> = out.iter().map(|e| e.ts_ns).collect();
    assert_eq!(times, [6, 10, 24, 30, 40]);
}

#[test]
fn a_thread_shows_the_same_with_and_without_the_others() {
    let history = || {
        vec![
            batch(1, 0, &[(0, 10, EventKind::Begin), (40, 11, EventKind::Begin)]),
            batch(2, 5, &[(0, 20, EventKind::End), (35, 21, EventKind::Begin)]),
            batch(1, 60, &[(0, 11, EventKind::End), (20, 10, EventKind::End)]),
        ]
    };
    let tails = || {
        vec![
            batch(2, 5, &[(0, 20, EventKind::End)]),
            batch(2, 90, &[(0, 21, EventKind::End)]),
            batch(3, 40, &[(0, 30, EventKind::Begin)]),
        ]
    };
    let whole = shape(&cut(&history(), &tails(), 0, 30, 95));
    for tid in [1u32, 2, 3, 4] {
        let own: Vec<EventBatch> = history().into_iter().filter(|b| b.tid == tid).collect();
        let own_tails: Vec<EventBatch> = tails().into_iter().filter(|b| b.tid == tid).collect();
        let alone = shape(&cut(&own, &own_tails, 0, 30, 95));
        let part: Vec<_> = whole.iter().filter(|e| e.1 == tid).cloned().collect();
        assert_eq!(part, alone);
    }
    assert!(whole.iter().any(|e| e.1 == 3));
}
