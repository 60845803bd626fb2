use trace0::event::PackedEvent;
use trace0::evqueue::EventBatch;
use trace0::ring::Ring;

fn batch(base_ticks: u64, tid: u32, events: usize) -> Box<EventBatch> {
    let mut b = Box::new(EventBatch::with_capacity(events, base_ticks, tid));
    for i in 0..events {
        b.events.push(PackedEvent {
            delta_ticks: i as u32,
            code_kind: 0,
        });
    }
    b
}

fn one() -> usize {
    batch(0, 1, 4).bytes()
}

#[test]
fn an_empty_batch_ends_where_it_begins() {
    assert_eq!(batch(50, 1, 0).end_ticks(), 50);
    assert_eq!(batch(50, 1, 3).end_ticks(), 52);
}

#[test]
fn bytes_track_pushes_and_pops() {
    let mut ring = Ring::new(usize::MAX);
    assert_eq!(ring.bytes(), 0);
    ring.push(batch(0, 1, 4));
    ring.push(batch(100, 1, 4));
    assert_eq!(ring.bytes(), 2 * one());
    assert_eq!(ring.len(), 2);
    ring.pop().unwrap();
    assert_eq!(ring.bytes(), one());
    ring.pop().unwrap();
    assert_eq!(ring.bytes(), 0);
    assert!(ring.is_empty());
}

#[test]
fn iteration_walks_oldest_to_newest_without_consuming() {
    let mut ring = Ring::new(usize::MAX);
    ring.push(batch(0, 1, 4));
    ring.push(batch(100, 2, 4));
    let tids: Vec<u32> = ring.iter().into_iter().map(|b| b.tid).collect();
    assert_eq!(tids, [1, 2]);
    assert_eq!(ring.len(), 2);
}

#[test]
fn pop_returns_batches_in_arrival_order() {
    let mut ring = Ring::new(usize::MAX);
    ring.push(batch(0, 1, 4));
    ring.push(batch(100, 2, 4));
    ring.push(batch(200, 3, 4));
    assert_eq!(ring.pop().unwrap().tid, 1);
    assert_eq!(ring.pop().unwrap().tid, 2);
    assert_eq!(ring.pop().unwrap().tid, 3);
    assert!(ring.pop().is_none());
}

#[test]
fn eviction_removes_the_oldest_batch_first() {
    let mut ring = Ring::new(2 * one());
    ring.push(batch(0, 1, 4));
    ring.push(batch(100, 2, 4));
    ring.push(batch(200, 3, 4));
    assert_eq!(ring.len(), 2);
    assert_eq!(ring.evicted_events(), 4);
    assert_eq!(ring.pop().unwrap().tid, 2);
    assert_eq!(ring.pop().unwrap().tid, 3);
}

#[test]
fn the_horizon_is_the_end_of_the_newest_evicted_batch() {
    let mut ring = Ring::new(2 * one());
    ring.push(batch(0, 1, 4));
    assert_eq!(ring.horizon_ticks(), 0);
    ring.push(batch(100, 2, 4));
    ring.push(batch(200, 3, 4));
    assert_eq!(ring.horizon_ticks(), 3);
    ring.push(batch(300, 4, 4));
    assert_eq!(ring.horizon_ticks(), 103);
}

#[test]
fn popping_does_not_move_the_horizon() {
    let mut ring = Ring::new(usize::MAX);
    ring.push(batch(0, 1, 4));
    ring.pop().unwrap();
    assert_eq!(ring.horizon_ticks(), 0);
    assert_eq!(ring.evicted_events(), 0);
}

#[test]
fn a_floor_protects_history_from_eviction() {
    let mut ring = Ring::new(2 * one());
    ring.set_floor(Some(0));
    ring.push(batch(0, 1, 4));
    ring.push(batch(100, 2, 4));
    ring.push(batch(200, 3, 4));
    assert_eq!(ring.len(), 3);
    assert!(ring.bytes() > 2 * one());
    assert_eq!(ring.horizon_ticks(), 0);
}

#[test]
fn batches_that_end_before_the_floor_still_evict() {
    let mut ring = Ring::new(2 * one());
    ring.set_floor(Some(150));
    ring.push(batch(0, 1, 4));
    ring.push(batch(100, 2, 4));
    ring.push(batch(200, 3, 4));
    assert_eq!(ring.len(), 2);
    assert_eq!(ring.horizon_ticks(), 3);
}

#[test]
fn clearing_the_floor_evicts_the_backlog() {
    let mut ring = Ring::new(2 * one());
    ring.set_floor(Some(0));
    for i in 0..4u64 {
        ring.push(batch(i * 100, i as u32 + 1, 4));
    }
    assert_eq!(ring.len(), 4);
    ring.set_floor(None);
    assert_eq!(ring.len(), 2);
    assert!(ring.bytes() <= 2 * one());
    assert_eq!(ring.pop().unwrap().tid, 3);
}

#[test]
fn the_hard_cap_overrides_the_floor() {
    let mut ring = Ring::new(2 * one());
    ring.set_floor(Some(0));
    for i in 0..5u64 {
        ring.push(batch(i * 100, i as u32 + 1, 4));
    }
    assert_eq!(ring.len(), 4);
    assert!(ring.bytes() <= 4 * one());
    assert_eq!(ring.horizon_ticks(), 3);
}

#[test]
fn the_newest_batch_survives_a_capacity_smaller_than_itself() {
    let mut ring = Ring::new(1);
    ring.push(batch(0, 1, 4));
    ring.push(batch(100, 2, 4));
    assert_eq!(ring.len(), 1);
    assert_eq!(ring.pop().unwrap().tid, 2);
}

#[test]
fn a_batch_weighs_its_header_and_its_events() {
    assert_eq!(batch(0, 1, 0).bytes(), std::mem::size_of::<EventBatch>());
    assert_eq!(one(), std::mem::size_of::<EventBatch>() + 4 * std::mem::size_of::<PackedEvent>());
}

#[test]
fn events_are_held_or_counted_as_let_go() {
    let mut ring = Ring::new(3 * one());
    for i in 0..20u64 {
        ring.push(batch(i * 10, 1, (i % 5) as usize));
        let held: usize = ring.iter().into_iter().map(|b| b.events.len()).sum();
        let pushed: u64 = (0..=i).map(|j| j % 5).sum();
        assert_eq!(held as u64 + ring.evicted_events(), pushed);
    }
}

#[test]
fn a_ring_with_room_for_everything_lets_nothing_go() {
    let mut ring = Ring::new(usize::MAX);
    for i in 0..100u64 {
        ring.push(batch(i, 1, 4));
    }
    assert_eq!(ring.len(), 100);
    assert_eq!(ring.evicted_events(), 0);
}
