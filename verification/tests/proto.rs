use std::collections::HashMap;
use trace0::event::{Event, EventKind};
use trace0::proto::{
    dropped_message, slot_of_process, ProtoExporter, CATEGORY_IID, INCREMENTAL_STATE_CLEARED, INSTANT,
    NEEDS_INCREMENTAL_STATE, SLICE_BEGIN, SLICE_END,
};
use trace0::sink::{CodeInfo, CodeTable, Exporter, ThreadTable};

#[derive(Clone, Debug)]
enum Field {
    Number(u64),
    Bytes(Vec<u8>),
}

fn get_varint(b: &[u8]) -> (u64, usize) {
    let (mut v, mut shift, mut n) = (0u64, 0, 0);
    loop {
        let byte = b[n];
        v |= ((byte & 0x7f) as u64) << shift;
        n += 1;
        if byte & 0x80 == 0 {
            return (v, n);
        }
        shift += 7;
    }
}

fn fields(raw: &[u8]) -> Vec<(u64, Field)> {
    let mut out = Vec::new();
    let mut i = 0;
    while i < raw.len() {
        let (key, used) = get_varint(&raw[i..]);
        i += used;
        let (v, used) = get_varint(&raw[i..]);
        i += used;
        match key & 7 {
            0 => out.push((key >> 3, Field::Number(v))),
            2 => {
                out.push((key >> 3, Field::Bytes(raw[i..i + v as usize].to_vec())));
                i += v as usize;
            }
            other => panic!("unexpected wire type {other}"),
        }
    }
    out
}

struct Message(Vec<(u64, Field)>);

impl Message {
    fn number(&self, tag: u64) -> Option<u64> {
        self.0.iter().rev().find_map(|(t, f)| match f {
            Field::Number(v) if *t == tag => Some(*v),
            _ => None,
        })
    }

    fn numbers(&self, tag: u64) -> Vec<u64> {
        let mut out = Vec::new();
        for (t, f) in &self.0 {
            if *t != tag {
                continue;
            }
            match f {
                Field::Number(v) => out.push(*v),
                Field::Bytes(b) => {
                    let mut i = 0;
                    while i < b.len() {
                        let (v, used) = get_varint(&b[i..]);
                        out.push(v);
                        i += used;
                    }
                }
            }
        }
        out
    }

    fn texts(&self, tag: u64) -> Vec<String> {
        self.messages(tag)
            .iter()
            .map(|b| String::from_utf8(b.clone()).unwrap())
            .collect()
    }

    fn text(&self, tag: u64) -> Option<String> {
        self.texts(tag).pop()
    }

    fn messages(&self, tag: u64) -> Vec<Vec<u8>> {
        self.0
            .iter()
            .filter_map(|(t, f)| match f {
                Field::Bytes(b) if *t == tag => Some(b.clone()),
                _ => None,
            })
            .collect()
    }

    fn message(&self, tag: u64) -> Option<Message> {
        self.messages(tag).pop().map(|b| Message(fields(&b)))
    }
}

/// Split a raw stream back into packets by walking the field-1 framing.
fn packets(raw: &[u8]) -> Vec<Message> {
    let mut out = Vec::new();
    let mut i = 0;
    while i < raw.len() {
        assert_eq!(raw[i], 0x0a, "unexpected framing byte at {i}");
        i += 1;
        let (len, used) = get_varint(&raw[i..]);
        i += used;
        out.push(Message(fields(&raw[i..i + len as usize])));
        i += len as usize;
    }
    out
}

fn export(events: &[Event], codes: &CodeTable, threads: &ThreadTable, dropped: u64) -> Vec<u8> {
    let mut ex = ProtoExporter::new(1).with_pid(4242);
    ex.write_batch(events, codes, threads);
    ex.finish(codes, threads, dropped);
    ex.take_output()
}

fn fib_table() -> CodeTable {
    let mut t = CodeTable::new();
    t.push(CodeInfo {
        qualname: "fib".into(),
        filename: "demo.py".into(),
        firstlineno: 12,
    });
    t
}

fn track_events(pkts: &[Message]) -> Vec<Message> {
    pkts.iter().filter_map(|p| p.message(11)).collect()
}

fn kind_of(te: &Message) -> Option<u64> {
    te.number(9)
}

fn name_iid(te: &Message) -> Option<u64> {
    te.number(10)
}

fn track_uuid(te: &Message) -> Option<u64> {
    te.number(11)
}

fn interned(pkts: &[Message]) -> Vec<(u64, String)> {
    pkts.iter()
        .filter_map(|p| p.message(12))
        .flat_map(|d| d.messages(2))
        .map(|b| {
            let m = Message(fields(&b));
            (m.number(1).unwrap(), m.text(2).unwrap())
        })
        .collect()
}

fn interned_names(pkts: &[Message]) -> HashMap<u64, String> {
    interned(pkts).into_iter().collect()
}

fn event_name(pkts: &[Message], te: &Message) -> String {
    interned_names(pkts)
        .get(&name_iid(te).unwrap())
        .unwrap_or_else(|| panic!("name_iid {:?} was never interned", name_iid(te)))
        .clone()
}

fn descriptors(pkts: &[Message]) -> Vec<Message> {
    pkts.iter().filter_map(|p| p.message(60)).collect()
}

#[test]
fn a_repeated_name_is_written_once_however_many_events_use_it() {
    let events: Vec<Event> = (0..500)
        .map(|i| Event::new(i * 10, 7, 0, EventKind::Begin))
        .collect();
    let raw = export(&events, &fib_table(), &ThreadTable::new(), 0);
    let pkts = packets(&raw);

    let interned = interned(&pkts);
    assert_eq!(interned.len(), 1, "one code object, one interned name");
    assert_eq!(interned[0].1, "fib");

    // The name must not appear in the byte stream once per event.
    let occurrences = raw.windows(3).filter(|w| *w == b"fib").count();
    assert_eq!(occurrences, 1, "name repeated in the encoded stream");

    let evs = track_events(&pkts);
    assert_eq!(evs.len(), 500);
    for te in evs {
        assert_eq!(name_iid(&te), Some(interned[0].0));
        assert!(te.text(23).is_none(), "name should travel as an id only");
        assert_eq!(te.numbers(3), vec![CATEGORY_IID]);
    }
}

#[test]
fn distinct_code_objects_get_distinct_ids() {
    let mut codes = CodeTable::new();
    codes.push_named("alpha");
    codes.push_named("beta");
    let raw = export(
        &[
            Event::new(0, 1, 0, EventKind::Begin),
            Event::new(1, 1, 1, EventKind::Begin),
            Event::new(2, 1, 0, EventKind::End),
        ],
        &codes,
        &ThreadTable::new(),
        0,
    );
    let pkts = packets(&raw);
    let names = interned_names(&pkts);
    assert_eq!(names.len(), 2);
    let resolved: Vec<String> = track_events(&pkts)
        .iter()
        .filter(|te| kind_of(te) == Some(SLICE_BEGIN))
        .map(|te| names[&name_iid(te).unwrap()].clone())
        .collect();
    assert_eq!(resolved, vec!["alpha", "beta"]);
}

#[test]
fn slice_ends_carry_no_name_or_category() {
    let raw = export(
        &[
            Event::new(0, 1, 0, EventKind::Begin),
            Event::new(5, 1, 0, EventKind::End),
        ],
        &fib_table(),
        &ThreadTable::new(),
        0,
    );
    let pkts = packets(&raw);
    let evs = track_events(&pkts);
    let end = evs
        .iter()
        .find(|te| kind_of(te) == Some(SLICE_END))
        .expect("no slice end");
    // The track already knows which slice is open; repeating its name
    // on the end would be duplication on half of every trace.
    assert_eq!(name_iid(end), None);
    assert!(end.numbers(3).is_empty());
    assert!(track_uuid(end).is_some());
}

#[test]
fn track_uuids_stay_small_enough_to_encode_in_one_byte() {
    let mut threads = ThreadTable::new();
    threads.insert(4242, "worker");
    let raw = export(
        &[Event::new(0, 4242, 0, EventKind::Begin)],
        &fib_table(),
        &ThreadTable::new(),
        0,
    );
    let pkts = packets(&raw);
    for te in track_events(&pkts) {
        let uuid = track_uuid(&te).unwrap();
        assert!(uuid < 128, "uuid {uuid} needs more than one varint byte");
    }
    let _ = threads;
}

#[test]
fn events_declare_they_depend_on_the_interning_table() {
    let raw = export(
        &[Event::new(0, 1, 0, EventKind::Begin)],
        &fib_table(),
        &ThreadTable::new(),
        0,
    );
    let pkts = packets(&raw);
    assert_eq!(
        pkts[0].number(13),
        Some(INCREMENTAL_STATE_CLEARED),
        "the stream must say where interning state begins"
    );
    for p in pkts.iter() {
        if p.message(11).is_some() {
            assert_eq!(p.number(13), Some(NEEDS_INCREMENTAL_STATE));
        }
    }
}

#[test]
fn hand_framing_round_trips_through_a_decoder() {
    let raw = export(
        &[Event::new(1_000, 7, 0, EventKind::Begin)],
        &fib_table(),
        &ThreadTable::new(),
        0,
    );
    let pkts = packets(&raw);
    // process descriptor + interned name + thread descriptor + the event
    assert_eq!(pkts.len(), 4);
}

#[test]
fn varint_framing_handles_packets_over_127_bytes() {
    let mut codes = CodeTable::new();
    codes.push_named(&"n".repeat(400));
    let raw = export(
        &[Event::new(0, 1, 0, EventKind::Begin)],
        &codes,
        &ThreadTable::new(),
        0,
    );
    let pkts = packets(&raw);
    let evs = track_events(&pkts);
    assert_eq!(event_name(&pkts, &evs[0]).len(), 400);
}

#[test]
fn timestamps_are_carried_through_verbatim() {
    let events = [
        Event::new(0, 1, 0, EventKind::Begin),
        Event::new(1_000_000_000, 1, 0, EventKind::End),
    ];
    let pkts = packets(&export(&events, &fib_table(), &ThreadTable::new(), 0));
    let ts: Vec<u64> = pkts
        .iter()
        .filter(|p| p.message(11).is_some())
        .map(|p| p.number(8).unwrap())
        .collect();
    assert_eq!(ts, vec![0, 1_000_000_000]);
}

#[test]
fn slice_polarity_matches_event_kind() {
    for (kind, want) in [
        (EventKind::Begin, SLICE_BEGIN),
        (EventKind::Resume, SLICE_BEGIN),
        (EventKind::Throw, SLICE_BEGIN),
        (EventKind::End, SLICE_END),
        (EventKind::Yield, SLICE_END),
        (EventKind::Unwind, SLICE_END),
    ] {
        let raw = export(
            &[Event::new(0, 1, 0, kind)],
            &fib_table(),
            &ThreadTable::new(),
            0,
        );
        let pkts = packets(&raw);
        let te = &track_events(&pkts)[0];
        assert_eq!(kind_of(te), Some(want), "wrong polarity for {kind:?}");
    }
}

#[test]
fn each_thread_is_described_once_and_carries_its_name() {
    let mut threads = ThreadTable::new();
    threads.insert(1, "MainThread");
    threads.insert(2, "cpu-a");
    let events = [
        Event::new(0, 1, 0, EventKind::Begin),
        Event::new(1, 2, 0, EventKind::Begin),
        Event::new(2, 1, 0, EventKind::End),
        Event::new(3, 2, 0, EventKind::End),
    ];
    let pkts = packets(&export(&events, &fib_table(), &threads, 0));
    let named: Vec<(u64, String)> = descriptors(&pkts)
        .iter()
        .filter_map(|d| d.message(4))
        .map(|t| (t.number(2).unwrap(), t.text(5).unwrap_or_default()))
        .collect();
    assert_eq!(
        named,
        vec![(1, "MainThread".to_string()), (2, "cpu-a".to_string())]
    );
}

#[test]
fn threads_are_parented_to_the_process() {
    let raw = export(
        &[Event::new(0, 9, 0, EventKind::Begin)],
        &fib_table(),
        &ThreadTable::new(),
        0,
    );
    let pkts = packets(&raw);
    let ds = descriptors(&pkts);
    let proc = ds.iter().find(|d| d.message(3).is_some()).unwrap();
    let thread = ds.iter().find(|d| d.message(4).is_some()).unwrap();
    assert_eq!(thread.number(5), proc.number(1));
    assert_eq!(track_uuid(&track_events(&pkts)[0]), thread.number(1));
}

#[test]
fn dropped_events_are_reported_in_band() {
    let raw = export(&[], &CodeTable::new(), &ThreadTable::new(), 77);
    let pkts = packets(&raw);
    let marker = track_events(&pkts)
        .into_iter()
        .find(|te| kind_of(te) == Some(INSTANT))
        .expect("a dropped-event marker must be emitted");
    assert!(marker.text(23).unwrap().contains("77"));
}

#[test]
fn a_lossless_trace_carries_no_marker() {
    let raw = export(&[], &CodeTable::new(), &ThreadTable::new(), 0);
    assert!(track_events(&packets(&raw)).is_empty());
}

#[test]
fn unresolvable_code_ids_do_not_break_the_stream() {
    let raw = export(
        &[Event::new(0, 1, 999, EventKind::Begin)],
        &CodeTable::new(),
        &ThreadTable::new(),
        0,
    );
    let pkts = packets(&raw);
    let te = &track_events(&pkts)[0];
    assert_eq!(event_name(&pkts, te), "<unknown>");
}

#[test]
fn the_process_is_described_by_its_number() {
    let raw = export(
        &[Event::new(0, 9, 0, EventKind::Begin)],
        &fib_table(),
        &ThreadTable::new(),
        0,
    );
    let pkts = packets(&raw);
    let ds = descriptors(&pkts);
    let process = ds.iter().find_map(|d| d.message(3)).unwrap();
    assert_eq!(process.number(1), Some(4242));
    let thread = ds.iter().find_map(|d| d.message(4)).unwrap();
    assert_eq!((thread.number(1), thread.number(2)), (Some(4242), Some(9)));
}

#[test]
fn what_was_dropped_is_said_in_words() {
    assert_eq!(dropped_message(77), "trace0: 77 events dropped");
}

/// The packets of the events, and then all others.
fn parted(raw: &[u8]) -> (Vec<String>, Vec<String>) {
    let (events, rest): (Vec<Message>, Vec<Message>) =
        packets(raw).into_iter().partition(|p| p.message(11).is_some());
    let said = |m: &Message| format!("{:?}", m.0);
    (events.iter().map(said).collect(), rest.iter().map(said).collect())
}

#[test]
fn batches_make_no_difference_to_the_packets() {
    let events = [
        Event::new(0, 1, 0, EventKind::Begin),
        Event::new(10, 2, 0, EventKind::Begin),
        Event::new(20, 1, 0, EventKind::End),
    ];
    let codes = fib_table();
    let threads = ThreadTable::new();
    let whole = export(&events, &codes, &threads, 5);
    let mut parts = ProtoExporter::create(4242);
    for e in &events {
        parts.write_batch(&[*e], &codes, &threads);
    }
    parts.finish(&codes, &threads, 5);
    assert_eq!(parted(&whole), parted(&parts.take_output()));
}

#[test]
fn processes_that_share_a_file_keep_their_tracks_apart() {
    let codes = fib_table();
    let threads = ThreadTable::new();
    let mut seen: Vec<u64> = Vec::new();
    let mut sequences: Vec<u64> = Vec::new();
    for slot in [0u32, 1, 2] {
        let mut ex = ProtoExporter::append(4242).with_slot(slot);
        ex.write_batch(&[Event::new(0, 1, 0, EventKind::Begin)], &codes, &threads);
        let pkts = packets(&ex.take_output());
        seen.extend(descriptors(&pkts).iter().map(|d| d.number(1).unwrap()));
        sequences.push(pkts[0].number(10).unwrap());
    }
    let mut unique = seen.clone();
    unique.sort();
    unique.dedup();
    assert_eq!(unique.len(), seen.len());
    sequences.dedup();
    assert_eq!(sequences.len(), 3);
}

#[test]
fn several_batches_tell_of_everything_once_and_in_time() {
    let mut codes = fib_table();
    codes.push(CodeInfo {
        qualname: "fact".into(),
        filename: "demo.py".into(),
        firstlineno: 30,
    });
    let threads = ThreadTable::new();
    let batches = [
        vec![Event::new(5, 30, 1, EventKind::Begin), Event::new(6, 10, 0, EventKind::Begin)],
        vec![],
        vec![Event::new(7, 30, 1, EventKind::End), Event::new(9, 20, 1, EventKind::Begin)],
        vec![Event::new(10, 10, 0, EventKind::End), Event::new(12, 20, 1, EventKind::End)],
    ];
    let mut ex = ProtoExporter::new(4242);
    let mut raw = Vec::new();
    for b in &batches {
        ex.write_batch(b, &codes, &threads);
        raw.extend(ex.take_output());
    }
    let pkts = packets(&raw);
    let mut tracks: Vec<(u64, u64)> = Vec::new();
    let mut names: Vec<(u64, String)> = Vec::new();
    let mut times: Vec<u64> = Vec::new();
    for (i, p) in pkts.iter().enumerate() {
        if let Some(d) = p.message(60) {
            assert_eq!(d.message(3).is_some(), i == 0, "the process comes first");
            if let Some(t) = d.message(4) {
                tracks.push((t.number(2).unwrap(), d.number(1).unwrap()));
            }
        }
        names.extend(interned(&pkts[i..i + 1]));
        if let Some(te) = p.message(11) {
            times.push(p.number(8).unwrap());
            assert!(tracks.iter().any(|t| Some(t.1) == track_uuid(&te)));
            let begins = kind_of(&te) == Some(SLICE_BEGIN);
            assert_eq!(name_iid(&te).is_some(), begins);
            assert!(!begins || names.iter().any(|n| Some(n.0) == name_iid(&te)));
        }
    }
    assert_eq!(tracks, [(30, 2), (10, 3), (20, 4)]);
    assert_eq!(names, [(1, "fact".to_string()), (2, "fib".to_string())]);
    assert_eq!(times, [5, 6, 7, 9, 10, 12]);
}

#[test]
fn the_slot_of_a_process_is_its_number_unless_the_user_launched_it() {
    assert_eq!(slot_of_process(false, 4242), 0);
    assert_eq!(slot_of_process(true, 4242), 4242);
    let codes = fib_table();
    let threads = ThreadTable::new();
    let mut sequences: Vec<u64> = Vec::new();
    for (child, pid) in [(false, 7u32), (true, 8), (true, 9)] {
        let ex = ProtoExporter::append(pid as i32);
        let mut ex = ex.with_slot(slot_of_process(child, pid));
        ex.write_batch(&[Event::new(0, 1, 0, EventKind::Begin)], &codes, &threads);
        sequences.extend(packets(&ex.take_output()).iter().map(|p| p.number(10).unwrap()));
    }
    sequences.dedup();
    assert_eq!(sequences, [1, 9, 10]);
}
