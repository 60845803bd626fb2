use trace0::clock::Clock;
use trace0::event::{
    pack_code_kind, unpack_code_id, unpack_kind, Event, EventKind, PackedEvent, CODE_ID_MASK,
    CODE_ID_MAX,
};

const KINDS: [EventKind; 6] = [
    EventKind::Begin,
    EventKind::End,
    EventKind::Yield,
    EventKind::Resume,
    EventKind::Unwind,
    EventKind::Throw,
];

#[test]
fn code_id_and_kind_survive_a_round_trip() {
    for kind in KINDS {
        let ev = Event::new(0, 0, 12_345, kind);
        assert_eq!(ev.code_id(), 12_345);
        assert_eq!(ev.kind(), kind);
    }
}

#[test]
fn the_largest_code_id_does_not_collide_with_the_kind_bits() {
    let ev = Event::new(0, 0, CODE_ID_MAX, EventKind::Throw);
    assert_eq!(ev.code_id(), CODE_ID_MAX);
    assert_eq!(ev.kind(), EventKind::Throw);
}

#[test]
fn unpacking_measures_from_the_clock_anchor() {
    let (clock, _m) = Clock::mock_starting_at(1_000);
    let p = PackedEvent {
        delta_ticks: 24,
        code_kind: pack_code_kind(7, EventKind::Begin),
    };
    let ev = Event::from_packed(&clock, 1_000, 42, p);
    assert_eq!(ev.ts_ns, 24);
    assert_eq!(ev.tid, 42);
    assert_eq!(ev.code_id(), 7);
    assert_eq!(ev.kind(), EventKind::Begin);
}

#[test]
fn batch_base_offsets_accumulate_onto_the_anchor() {
    let (clock, _m) = Clock::mock();
    let p = PackedEvent {
        delta_ticks: 24,
        code_kind: pack_code_kind(0, EventKind::End),
    };
    let ev = Event::from_packed(&clock, 240, 1, p);
    assert_eq!(ev.ts_ns, 264);
}

#[test]
fn packed_event_bits_round_trip() {
    let p = PackedEvent {
        delta_ticks: 0xDEAD_BEEF,
        code_kind: pack_code_kind(0x00AB_CDEF, EventKind::Yield),
    };
    assert_eq!(PackedEvent::from_bits(p.to_bits()), p);
    assert_eq!(p.code_id(), 0x00AB_CDEF);
    assert_eq!(p.kind(), EventKind::Yield);
}

#[test]
fn slice_polarity_matches_the_kind() {
    assert!(EventKind::Begin.opens_slice());
    assert!(EventKind::Resume.opens_slice());
    assert!(EventKind::Throw.opens_slice());
    assert!(!EventKind::End.opens_slice());
    assert!(!EventKind::Yield.opens_slice());
    assert!(!EventKind::Unwind.opens_slice());
}

#[test]
fn a_kind_is_packed_as_its_own_byte() {
    for (i, kind) in KINDS.iter().enumerate() {
        assert_eq!(kind.to_u8() as usize, i + 1);
        assert_eq!(EventKind::from_u8(kind.to_u8()), *kind);
    }
    for byte in [0u8, 7, 255] {
        assert_eq!(EventKind::from_u8(byte), EventKind::Begin);
    }
}

#[test]
fn every_kind_has_a_word() {
    let words: Vec<&str> = KINDS.iter().map(|k| k.as_str()).collect();
    assert_eq!(words, ["start", "return", "yield", "resume", "unwind", "throw"]);
}

#[test]
fn a_code_id_that_is_too_long_loses_its_high_bits() {
    let word = pack_code_kind(0xFF00_0007, EventKind::End);
    assert_eq!(word, 0x0200_0007);
    assert_eq!(unpack_code_id(word), 0xFF00_0007 & CODE_ID_MASK);
    assert_eq!(unpack_kind(word), EventKind::End);
}

#[test]
fn the_bits_of_an_event_hold_its_distance_below_its_code() {
    let p = PackedEvent {
        delta_ticks: 5,
        code_kind: 0x0100_0003,
    };
    assert_eq!(p.to_bits(), 0x0100_0003_0000_0005);
}

#[test]
fn a_batch_can_start_close_to_the_end_of_the_readings() {
    let (clock, _m) = Clock::mock();
    let p = PackedEvent {
        delta_ticks: 8,
        code_kind: pack_code_kind(0, EventKind::End),
    };
    assert_eq!(Event::from_packed(&clock, u64::MAX - 3, 1, p).ts_ns, 4);
}
