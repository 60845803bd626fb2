use serde_json::Value;
use trace0::event::{Event, EventKind};
use trace0::json::JsonExporter;
use trace0::sink::{CodeInfo, CodeTable, Exporter, ThreadTable};

struct Doc {
    events: Value,
    dropped: u64,
}

fn export(events: &[Event], codes: &CodeTable, threads: &ThreadTable, dropped: u64) -> Doc {
    let mut ex = JsonExporter::new(1).with_pid(4242);
    ex.write_batch(events, codes, threads);
    ex.finish(codes, threads, dropped);
    parse_array(&ex.take_output())
}

/// The exporter writes a bare comma-separated array so several processes
/// can append to one file. Rebuild the document the assertions expect.
fn parse_array(buf: &[u8]) -> Doc {
    let text = std::str::from_utf8(buf).unwrap();
    let body = text.trim_end().trim_end_matches(',');
    let events: Value =
        serde_json::from_str(&format!("[{body}]")).expect("exporter must emit parseable JSON");
    let dropped = events
        .as_array()
        .unwrap()
        .iter()
        .find(|e| e["name"] == "trace0_dropped_events")
        .and_then(|e| e["args"]["count"].as_u64())
        .unwrap_or(0);
    Doc { events, dropped }
}

fn fib_table() -> CodeTable {
    let mut t = CodeTable::new();
    t.push(CodeInfo {
        qualname: "fib".into(),
        filename: "demo.py".into(),
        firstlineno: 12,
    });
    t
}

#[test]
fn empty_trace_is_still_valid_json() {
    let v = export(&[], &CodeTable::new(), &ThreadTable::new(), 0);
    assert_eq!(v.events.as_array().unwrap().len(), 0);
    assert_eq!(v.dropped, 0);
}

#[test]
fn timestamps_are_microseconds() {
    let events = [
        Event::new(0, 1, 0, EventKind::Begin),
        Event::new(1_500, 1, 0, EventKind::End),
    ];
    let v = export(&events, &fib_table(), &ThreadTable::new(), 0);
    let ev = v.events.as_array().unwrap();
    assert_eq!(ev[0]["ts"], 0.0);
    assert_eq!(ev[1]["ts"], 1.5);
}

#[test]
fn sub_microsecond_slices_keep_their_duration() {
    let events = [
        Event::new(0, 1, 0, EventKind::Begin),
        Event::new(300, 1, 0, EventKind::End),
    ];
    let v = export(&events, &fib_table(), &ThreadTable::new(), 0);
    let ev = v.events.as_array().unwrap();
    assert!(ev[1]["ts"].as_f64().unwrap() > ev[0]["ts"].as_f64().unwrap());
}

#[test]
fn slice_phases_follow_event_kind() {
    let kinds = [
        (EventKind::Begin, "B"),
        (EventKind::Resume, "B"),
        (EventKind::Throw, "B"),
        (EventKind::End, "E"),
        (EventKind::Yield, "E"),
        (EventKind::Unwind, "E"),
    ];
    for (kind, phase) in kinds {
        let v = export(
            &[Event::new(0, 1, 0, kind)],
            &fib_table(),
            &ThreadTable::new(),
            0,
        );
        let ev = &v.events[0];
        assert_eq!(ev["ph"], phase, "{kind:?} should be phase {phase}");
        assert_eq!(ev["args"]["kind"], kind.as_str());
    }
}

#[test]
fn code_info_reaches_the_output() {
    let v = export(
        &[Event::new(0, 9, 0, EventKind::Begin)],
        &fib_table(),
        &ThreadTable::new(),
        0,
    );
    let ev = &v.events[0];
    assert_eq!(ev["name"], "fib");
    assert_eq!(ev["args"]["file"], "demo.py");
    assert_eq!(ev["args"]["line"], 12);
    assert_eq!(ev["tid"], 9);
    assert_eq!(ev["cat"], "py");
}

#[test]
fn unresolvable_code_ids_do_not_break_the_trace() {
    let v = export(
        &[Event::new(0, 1, 999, EventKind::Begin)],
        &CodeTable::new(),
        &ThreadTable::new(),
        0,
    );
    assert_eq!(v.events[0]["name"], "<unknown>");
}

#[test]
fn every_named_thread_gets_a_metadata_record() {
    let mut threads = ThreadTable::new();
    threads.insert(1, "MainThread");
    threads.insert(2, "cpu-a");
    threads.insert(3, "cpu-b");
    let v = export(
        &[Event::new(0, 1, 0, EventKind::Begin)],
        &fib_table(),
        &threads,
        0,
    );
    let meta: Vec<(u64, String)> = v
        .events
        .as_array()
        .unwrap()
        .iter()
        .filter(|e| e["ph"] == "M")
        .map(|e| {
            (
                e["tid"].as_u64().unwrap(),
                e["args"]["name"].as_str().unwrap().to_string(),
            )
        })
        .collect();
    assert_eq!(
        meta,
        vec![
            (1, "MainThread".into()),
            (2, "cpu-a".into()),
            (3, "cpu-b".into())
        ]
    );
}

#[test]
fn names_that_need_escaping_survive_the_writer() {
    let mut t = CodeTable::new();
    t.push(CodeInfo {
        qualname: "say(\"hi\")\n\tand\\stop\u{1}\u{1f600}".into(),
        filename: "C:\\tmp\\a\"b\r.py".into(),
        firstlineno: 7,
    });
    let v = export(
        &[Event::new(0, 1, 0, EventKind::Begin)],
        &t,
        &ThreadTable::new(),
        0,
    );
    let ev = &v.events[0];
    assert_eq!(ev["name"], "say(\"hi\")\n\tand\\stop\u{1}\u{1f600}");
    assert_eq!(ev["args"]["file"], "C:\\tmp\\a\"b\r.py");
    assert_eq!(ev["args"]["line"], 7);
}

#[test]
fn timestamps_keep_nanosecond_precision() {
    let events = [
        Event::new(1_234_567, 1, 0, EventKind::Begin),
        Event::new(1_234_568, 1, 0, EventKind::End),
    ];
    let v = export(&events, &fib_table(), &ThreadTable::new(), 0);
    let ev = v.events.as_array().unwrap();
    assert_eq!(ev[0]["ts"].as_f64().unwrap(), 1234.567);
    assert_eq!(ev[1]["ts"].as_f64().unwrap(), 1234.568);
}

#[test]
fn every_event_carries_the_full_chrome_trace_shape() {
    let v = export(
        &[Event::new(5_000, 3, 0, EventKind::Begin)],
        &fib_table(),
        &ThreadTable::new(),
        0,
    );
    let ev = &v.events[0];
    let keys: Vec<&str> = ev.as_object().unwrap().keys().map(|k| k.as_str()).collect();
    assert_eq!(keys, ["args", "cat", "name", "ph", "pid", "tid", "ts"]);
    let args: Vec<&str> = ev["args"]
        .as_object()
        .unwrap()
        .keys()
        .map(|k| k.as_str())
        .collect();
    assert_eq!(args, ["file", "kind", "line"]);
}

#[test]
fn dropped_events_are_reported() {
    let v = export(&[], &CodeTable::new(), &ThreadTable::new(), 77);
    assert_eq!(v.dropped, 77);
}

#[test]
fn nesting_stays_balanced_through_the_exporter() {
    let events = [
        Event::new(0, 1, 0, EventKind::Begin),
        Event::new(100, 1, 0, EventKind::Begin),
        Event::new(200, 1, 0, EventKind::End),
        Event::new(300, 1, 0, EventKind::End),
    ];
    let v = export(&events, &fib_table(), &ThreadTable::new(), 0);
    let mut depth = 0i32;
    for e in v.events.as_array().unwrap() {
        depth += if e["ph"] == "B" { 1 } else { -1 };
        assert!(depth >= 0, "slice stack underflowed");
    }
    assert_eq!(depth, 0);
}

#[test]
fn an_entry_is_written_to_the_letter() {
    let mut ex = JsonExporter::create(4242);
    ex.write_batch(&[Event::new(1_500, 9, 0, EventKind::Begin)], &fib_table(), &ThreadTable::new());
    let text = String::from_utf8(ex.take_output()).unwrap();
    assert!(text.starts_with('['));
    let body = text[1..].trim_end();
    assert!(body.ends_with(','));
    let v: Value = serde_json::from_str(body.trim_end_matches(',')).unwrap();
    assert_eq!(v["pid"], 4242);
    assert!(body.contains("\"ts\":1.500"));
}

#[test]
fn batches_leave_no_mark_on_a_trace() {
    let events = [
        Event::new(0, 1, 0, EventKind::Begin),
        Event::new(10, 2, 0, EventKind::Begin),
        Event::new(20, 1, 5, EventKind::End),
    ];
    let codes = fib_table();
    let threads = ThreadTable::new();
    let mut whole = JsonExporter::append(7);
    whole.write_batch(&events, &codes, &threads);
    whole.finish(&codes, &threads, 3);
    let mut parts = JsonExporter::append(7);
    for e in &events {
        parts.write_batch(&[*e], &codes, &threads);
    }
    parts.finish(&codes, &threads, 3);
    assert_eq!(whole.take_output(), parts.take_output());
}

#[test]
fn two_processes_can_share_one_file() {
    let codes = fib_table();
    let threads = ThreadTable::new();
    let mut first = JsonExporter::create(1);
    first.write_batch(&[Event::new(0, 1, 0, EventKind::Begin)], &codes, &threads);
    let mut second = JsonExporter::append(2);
    second.write_batch(&[Event::new(5, 1, 0, EventKind::Begin)], &codes, &threads);
    let mut file = first.take_output();
    file.extend(second.take_output());
    let text = String::from_utf8(file).unwrap();
    let body = text.trim_end().trim_end_matches(',');
    let v: Value = serde_json::from_str(&format!("{body}]")).unwrap();
    let pids: Vec<u64> = v.as_array().unwrap().iter().map(|e| e["pid"].as_u64().unwrap()).collect();
    assert_eq!(pids, [1, 2]);
}

#[test]
fn every_batch_ends_at_a_whole_entry() {
    let codes = fib_table();
    let mut threads = ThreadTable::new();
    threads.insert(2, "a \"quoted\" \\ name");
    threads.insert(1, "MainThread");
    let mut ex = JsonExporter::create(4242);
    let mut text = ex.take_output();
    assert_eq!(text, b"[");
    let mut written = 0;
    for n in [2u64, 0, 3] {
        let events: Vec<Event> = (0..n).map(|i| Event::new(i, 1, 0, EventKind::Begin)).collect();
        ex.write_batch(&events, &codes, &threads);
        text.extend(ex.take_output());
        written += n as usize;
        let found = parse_array(&text[1..]);
        assert_eq!(found.events.as_array().unwrap().len(), written);
        assert_eq!(*text.last().unwrap(), b',');
    }
    ex.finish(&codes, &threads, 9);
    text.extend(ex.take_output());
    let found = parse_array(&text[1..]);
    let entries = found.events.as_array().unwrap();
    let names: Vec<&str> = entries.iter().map(|e| e["name"].as_str().unwrap()).collect();
    assert_eq!(
        names,
        ["fib", "fib", "fib", "fib", "fib", "thread_name", "thread_name", "trace0_dropped_events"]
    );
    assert_eq!(entries[5]["tid"], 1);
    assert_eq!(entries[6]["args"]["name"], "a \"quoted\" \\ name");
    assert_eq!(entries[7]["args"]["count"], 9);
    assert!(text.ends_with(b"},"));
}
