use std::time::{Duration, Instant};
use trace0::clock::Clock;

fn let_pass(millis: u64) {
    let start = Instant::now();
    while start.elapsed() < Duration::from_millis(millis) {}
}

fn direct(num: u64, den: u64, anchor: u64) -> Clock {
    Clock::starting_now(Some((num, den)), anchor)
}

#[test]
fn a_counter_that_states_its_own_rate_is_not_calibrated() {
    assert!(direct(1_000_000_000, 24_000_000, 5).is_direct());
    assert!(!Clock::starting_now(None, 0).is_direct());
}

#[test]
fn a_calibrated_clock_reads_on_from_its_anchor() {
    let c = Clock::starting_now(None, 0);
    let first = c.raw();
    let second = c.raw();
    assert!(c.start_ticks() <= first);
    assert!(first <= second);
}

#[test]
fn a_mock_clock_only_advances_when_told() {
    let (c, m) = Clock::mock();
    let first = c.raw();
    let_pass(20);
    assert_eq!(c.raw(), first, "the mock advanced on its own");
    m.increment(5u64);
    assert_eq!(c.raw(), first + 5);
}

#[test]
fn anchor_reads_as_zero() {
    let (c, _m) = Clock::mock();
    assert_eq!(c.ns_since_start(c.start_ticks()), 0);
}

#[test]
fn elapsed_ticks_convert_to_nanoseconds() {
    let (c, m) = Clock::mock();
    m.increment(1_500u64);
    assert_eq!(c.ns_since_start(c.raw()), 1_500);
}

#[test]
fn ticks_before_the_anchor_saturate_instead_of_wrapping() {
    let (c, _m) = Clock::mock_starting_at(10_000);
    assert_eq!(c.start_ticks(), 10_000);
    assert_eq!(c.ns_since_start(9_000), 0);
    assert_eq!(c.ns_since_start(0), 0);
}

#[test]
fn conversion_is_monotonic_across_a_wide_range() {
    let (c, _m) = Clock::mock();
    let mut last = 0;
    for ticks in [1u64, 1_000, 1 << 20, 1 << 32, 4_000_000_000_000_000] {
        let ns = c.ns_since_start(ticks);
        assert!(ns >= last, "went backwards at {ticks}");
        last = ns;
    }
}

#[test]
fn zero_nanoseconds_map_back_to_the_anchor() {
    let (c, _m) = Clock::mock_starting_at(10_000);
    assert_eq!(c.ticks_from_ns(0), 10_000);
}

#[test]
fn ticks_from_ns_inverts_ns_since_start() {
    let (c, _m) = Clock::mock_starting_at(7);
    for ns in [1u64, 1_000, 250_000_000, 1 << 40] {
        let ticks = c.ticks_from_ns(ns);
        assert_eq!(c.ns_since_start(ticks), ns);
    }
}

#[test]
fn a_direct_clock_inverts_within_one_tick() {
    let c = direct(1_000_000_000, 24_000_000, 77);
    for ns in [1u64, 1_000, 250_000_000, 1 << 40] {
        let round = c.ns_since_start(c.ticks_from_ns(ns));
        assert!(ns.abs_diff(round) <= 1_000, "{ns}ns came back as {round}ns");
    }
}

#[test]
fn a_direct_clock_scales_by_its_rate() {
    let c = direct(125, 3, 100);
    assert_eq!(c.start_ticks(), 100);
    assert_eq!(c.ns_since_start(100), 0);
    assert_eq!(c.ns_since_start(103), 125);
    assert_eq!(c.ns_since_start(101), 41);
    assert_eq!(c.ticks_from_ns(125), 103);
    assert_eq!(c.ticks_from_ns(124), 102);
}

#[test]
fn a_direct_clock_keeps_the_low_bits_of_a_time_too_long_to_say() {
    let c = direct(1_000_000_000, 1, 0);
    let ticks = 1u64 << 40;
    let exact = (ticks as u128) * 1_000_000_000;
    assert_eq!(c.ns_since_start(ticks), exact as u64);
}

#[test]
fn a_time_past_the_last_reading_maps_to_the_last_reading() {
    let (c, _m) = Clock::mock_starting_at(u64::MAX - 10);
    assert_eq!(c.ticks_from_ns(10), u64::MAX);
    assert_eq!(c.ticks_from_ns(11), u64::MAX);
    let d = direct(1, 1, u64::MAX - 10);
    assert_eq!(d.ticks_from_ns(1_000), u64::MAX);
}

#[test]
fn a_mock_time_beyond_half_the_range_is_not_found() {
    let (c, _m) = Clock::mock();
    assert_eq!(c.ticks_from_ns(1 << 63), 1 << 63);
    assert_eq!(c.ticks_from_ns((1 << 63) + 1), u64::MAX);
}

#[test]
fn the_host_clock_advances_in_step_with_wall_time() {
    let c = Clock::starting_now(None, 0);
    let before = Instant::now();
    let_pass(50);
    let measured = c.ns_since_start(c.raw());
    let actual = before.elapsed().as_nanos() as u64;
    assert!(
        measured > actual / 2 && measured < actual * 2,
        "measured {measured}ns against {actual}ns of wall time"
    );
}

#[test]
fn a_copied_clock_makes_the_same_of_a_reading() {
    let (c, m) = Clock::mock_starting_at(50);
    let copy = c.clone();
    m.increment(25u64);
    assert_eq!((copy.start_ticks(), copy.raw()), (50, 75));
    assert_eq!(copy.ns_since_start(80), c.ns_since_start(80));
    let d = direct(125, 3, 9);
    assert_eq!(d.clone().ns_since_start(1_000), d.ns_since_start(1_000));
}

#[test]
fn a_clock_is_anchored_at_the_reading_it_is_given() {
    let (meter, handle) = quanta::Clock::mock();
    handle.increment(90u64);
    let c = Clock::anchored(meter, 70);
    assert!(!c.is_direct());
    assert_eq!(c.start_ticks(), 70);
    assert_eq!(c.raw(), 90);
    assert_eq!(c.ns_since_start(c.raw()), 20);
}

#[test]
fn a_handle_moves_its_own_clock_and_no_other() {
    let (first, handle) = Clock::mock_starting_at(10);
    let (second, _other) = Clock::mock_starting_at(10);
    handle.increment(5u64);
    assert_eq!(first.raw(), 15);
    assert_eq!(second.raw(), 10);
}

#[test]
fn a_calibrated_clock_starts_at_zero() {
    let c = Clock::starting_now(None, 77);
    let soon = c.ns_since_start(c.raw());
    assert_eq!(c.ns_since_start(c.start_ticks()), 0);
    assert!(soon < 1_000_000_000, "{soon}ns since it was made");
    let_pass(2);
    assert!(c.raw() > c.start_ticks());
}
