use trace0::event::{Event, EventKind};
use trace0::pprof::PprofExporter;
use trace0::sink::{CodeInfo, CodeTable, Exporter, ThreadTable};

#[derive(Default)]
struct ValueType {
    kind: i64,
    unit: i64,
}

#[derive(Default)]
struct Sample {
    location_id: Vec<u64>,
    value: Vec<i64>,
}

#[derive(Default)]
struct Line {
    function_id: u64,
    line: i64,
}

#[derive(Default)]
struct Location {
    id: u64,
    line: Vec<Line>,
}

#[derive(Default)]
struct Function {
    id: u64,
    name: i64,
    system_name: i64,
    filename: i64,
    start_line: i64,
}

#[derive(Default)]
struct Profile {
    sample_type: Vec<ValueType>,
    sample: Vec<Sample>,
    location: Vec<Location>,
    function: Vec<Function>,
    string_table: Vec<String>,
    comment: Vec<i64>,
}

fn get_varint(b: &[u8], i: &mut usize) -> u64 {
    let (mut v, mut shift) = (0u64, 0);
    loop {
        let byte = b[*i];
        v |= ((byte & 0x7f) as u64) << shift;
        *i += 1;
        if byte & 0x80 == 0 {
            return v;
        }
        shift += 7;
    }
}

fn fields(raw: &[u8]) -> Vec<(u64, u64, Vec<u8>)> {
    let mut out = Vec::new();
    let mut i = 0;
    while i < raw.len() {
        let key = get_varint(raw, &mut i);
        let v = get_varint(raw, &mut i);
        match key & 7 {
            0 => out.push((key >> 3, v, Vec::new())),
            2 => {
                out.push((key >> 3, 0, raw[i..i + v as usize].to_vec()));
                i += v as usize;
            }
            other => panic!("unexpected wire type {other}"),
        }
    }
    out
}

fn packed(raw: &[u8]) -> Vec<u64> {
    let mut out = Vec::new();
    let mut i = 0;
    while i < raw.len() {
        out.push(get_varint(raw, &mut i));
    }
    out
}

fn decode(raw: &[u8]) -> Profile {
    let mut p = Profile::default();
    for (tag, _, bytes) in fields(raw) {
        match tag {
            1 => {
                let mut vt = ValueType::default();
                for (t, v, _) in fields(&bytes) {
                    match t {
                        1 => vt.kind = v as i64,
                        2 => vt.unit = v as i64,
                        other => panic!("unexpected field {other} of a value type"),
                    }
                }
                p.sample_type.push(vt);
            }
            2 => {
                let mut s = Sample::default();
                for (t, _, b) in fields(&bytes) {
                    match t {
                        1 => s.location_id.extend(packed(&b)),
                        2 => s.value.extend(packed(&b).into_iter().map(|v| v as i64)),
                        other => panic!("unexpected field {other} of a sample"),
                    }
                }
                p.sample.push(s);
            }
            4 => {
                let mut l = Location::default();
                for (t, v, b) in fields(&bytes) {
                    match t {
                        1 => l.id = v,
                        4 => {
                            let mut line = Line::default();
                            for (t, v, _) in fields(&b) {
                                match t {
                                    1 => line.function_id = v,
                                    2 => line.line = v as i64,
                                    other => panic!("unexpected field {other} of a line"),
                                }
                            }
                            l.line.push(line);
                        }
                        other => panic!("unexpected field {other} of a location"),
                    }
                }
                p.location.push(l);
            }
            5 => {
                let mut f = Function::default();
                for (t, v, _) in fields(&bytes) {
                    match t {
                        1 => f.id = v,
                        2 => f.name = v as i64,
                        3 => f.system_name = v as i64,
                        4 => f.filename = v as i64,
                        5 => f.start_line = v as i64,
                        other => panic!("unexpected field {other} of a function"),
                    }
                }
                p.function.push(f);
            }
            6 => p.string_table.push(String::from_utf8(bytes).unwrap()),
            13 => p.comment.extend(packed(&bytes).into_iter().map(|v| v as i64)),
            other => panic!("unexpected field {other} of a profile"),
        }
    }
    p
}

fn export(events: &[Event], codes: &CodeTable, dropped: u64) -> Profile {
    export_batched(&[events], codes, dropped)
}

fn export_batched(batches: &[&[Event]], codes: &CodeTable, dropped: u64) -> Profile {
    let threads = ThreadTable::new();
    let mut ex = PprofExporter::new();
    for batch in batches {
        ex.write_batch(batch, codes, &threads);
    }
    ex.finish(codes, &threads, dropped);
    let profile = decode(&ex.take_output());
    check_references(&profile);
    profile
}

fn check_references(p: &Profile) {
    assert_eq!(p.string_table.first().map(String::as_str), Some(""));
    let in_table = |i: i64| (i as usize) < p.string_table.len();
    for s in &p.sample {
        assert_eq!(s.value.len(), p.sample_type.len());
        for id in &s.location_id {
            let loc = p
                .location
                .iter()
                .find(|l| l.id == *id)
                .expect("sample points at a missing location");
            for line in &loc.line {
                let f = p
                    .function
                    .iter()
                    .find(|f| f.id == line.function_id)
                    .expect("location points at a missing function");
                assert!(in_table(f.name));
                assert!(in_table(f.filename));
            }
        }
    }
    for vt in &p.sample_type {
        assert!(in_table(vt.kind));
        assert!(in_table(vt.unit));
    }
    for c in &p.comment {
        assert!(in_table(*c));
    }
}

fn s(p: &Profile, i: i64) -> &str {
    &p.string_table[i as usize]
}

fn stack_names(p: &Profile, sample: &Sample) -> Vec<String> {
    sample
        .location_id
        .iter()
        .map(|id| {
            let loc = p.location.iter().find(|l| l.id == *id).unwrap();
            let f = p
                .function
                .iter()
                .find(|f| f.id == loc.line[0].function_id)
                .unwrap();
            s(p, f.name).to_string()
        })
        .collect()
}

fn samples(p: &Profile) -> Vec<(Vec<String>, i64)> {
    p.sample
        .iter()
        .map(|sample| (stack_names(p, sample), sample.value[0]))
        .collect()
}

fn self_ns_of(p: &Profile, leaf_first: &[&str]) -> i64 {
    samples(p)
        .into_iter()
        .find(|(names, _)| names == leaf_first)
        .unwrap_or_else(|| panic!("no sample for stack {leaf_first:?}"))
        .1
}

fn fib_table() -> CodeTable {
    let mut t = CodeTable::new();
    t.push(CodeInfo {
        qualname: "fib".into(),
        filename: "demo.py".into(),
        firstlineno: 12,
    });
    t
}

fn outer_inner_table() -> CodeTable {
    let mut t = CodeTable::new();
    t.push_named("outer");
    t.push_named("inner");
    t
}

#[test]
fn an_empty_trace_still_declares_wall_nanoseconds() {
    let p = export(&[], &CodeTable::new(), 0);
    assert_eq!(p.sample_type.len(), 1);
    assert_eq!(s(&p, p.sample_type[0].kind), "wall");
    assert_eq!(s(&p, p.sample_type[0].unit), "nanoseconds");
    assert!(p.sample.is_empty());
}

#[test]
fn a_call_charges_the_time_between_begin_and_end_to_itself() {
    let events = [
        Event::new(1_000, 1, 0, EventKind::Begin),
        Event::new(1_100, 1, 0, EventKind::End),
    ];
    let p = export(&events, &fib_table(), 0);
    assert_eq!(samples(&p), vec![(vec!["fib".to_string()], 100)]);
}

#[test]
fn a_callee_takes_its_time_out_of_the_callers_self_time() {
    let events = [
        Event::new(0, 1, 0, EventKind::Begin),
        Event::new(30, 1, 1, EventKind::Begin),
        Event::new(80, 1, 1, EventKind::End),
        Event::new(100, 1, 0, EventKind::End),
    ];
    let p = export(&events, &outer_inner_table(), 0);
    assert_eq!(self_ns_of(&p, &["outer"]), 50);
    assert_eq!(self_ns_of(&p, &["inner", "outer"]), 50);
}

#[test]
fn the_leaf_comes_first_in_a_samples_location_ids() {
    let events = [
        Event::new(0, 1, 0, EventKind::Begin),
        Event::new(10, 1, 1, EventKind::Begin),
        Event::new(20, 1, 1, EventKind::End),
        Event::new(30, 1, 0, EventKind::End),
    ];
    let p = export(&events, &outer_inner_table(), 0);
    let deepest = p.sample.iter().max_by_key(|s| s.location_id.len()).unwrap();
    assert_eq!(stack_names(&p, deepest), vec!["inner", "outer"]);
}

#[test]
fn two_calls_through_one_stack_merge_into_one_sample() {
    let events = [
        Event::new(0, 1, 0, EventKind::Begin),
        Event::new(100, 1, 0, EventKind::End),
        Event::new(200, 1, 0, EventKind::Begin),
        Event::new(240, 1, 0, EventKind::End),
    ];
    let p = export(&events, &fib_table(), 0);
    assert_eq!(samples(&p), vec![(vec!["fib".to_string()], 140)]);
}

#[test]
fn a_yielded_generator_is_not_charged_while_suspended() {
    let events = [
        Event::new(0, 1, 0, EventKind::Begin),
        Event::new(10, 1, 0, EventKind::Yield),
        Event::new(50, 1, 0, EventKind::Resume),
        Event::new(60, 1, 0, EventKind::End),
    ];
    let p = export(&events, &fib_table(), 0);
    assert_eq!(self_ns_of(&p, &["fib"]), 20);
}

#[test]
fn a_throw_reopens_the_frame_and_an_unwind_pops_it() {
    let events = [
        Event::new(0, 1, 0, EventKind::Begin),
        Event::new(10, 1, 1, EventKind::Throw),
        Event::new(30, 1, 1, EventKind::Unwind),
        Event::new(50, 1, 0, EventKind::End),
    ];
    let p = export(&events, &outer_inner_table(), 0);
    assert_eq!(self_ns_of(&p, &["outer"]), 30);
    assert_eq!(self_ns_of(&p, &["inner", "outer"]), 20);
}

#[test]
fn threads_are_folded_apart_then_summed_together() {
    let events = [
        Event::new(0, 1, 0, EventKind::Begin),
        Event::new(50, 2, 0, EventKind::Begin),
        Event::new(70, 2, 0, EventKind::End),
        Event::new(100, 1, 0, EventKind::End),
    ];
    let p = export(&events, &fib_table(), 0);
    assert_eq!(samples(&p), vec![(vec!["fib".to_string()], 120)]);
}

#[test]
fn one_thread_never_charges_time_to_another_threads_stack() {
    let mut codes = CodeTable::new();
    codes.push_named("on_one");
    codes.push_named("on_two");
    let events = [
        Event::new(0, 1, 0, EventKind::Begin),
        Event::new(10, 2, 1, EventKind::Begin),
        Event::new(40, 2, 1, EventKind::End),
        Event::new(100, 1, 0, EventKind::End),
    ];
    let p = export(&events, &codes, 0);
    assert_eq!(self_ns_of(&p, &["on_one"]), 100);
    assert_eq!(self_ns_of(&p, &["on_two"]), 30);
}

#[test]
fn folding_state_survives_batch_boundaries() {
    let events = [
        Event::new(0, 1, 0, EventKind::Begin),
        Event::new(30, 1, 1, EventKind::Begin),
        Event::new(80, 1, 1, EventKind::End),
        Event::new(100, 1, 0, EventKind::End),
    ];
    let whole = export(&events, &outer_inner_table(), 0);
    let split = export_batched(&[&events[..2], &events[2..]], &outer_inner_table(), 0);
    assert_eq!(samples(&whole), samples(&split));
}

#[test]
fn time_before_a_threads_first_event_is_not_charged() {
    let events = [
        Event::new(5_000, 1, 0, EventKind::Begin),
        Event::new(5_100, 1, 0, EventKind::End),
    ];
    let p = export(&events, &fib_table(), 0);
    assert_eq!(self_ns_of(&p, &["fib"]), 100);
}

#[test]
fn an_end_with_no_begin_charges_nothing() {
    let events = [
        Event::new(0, 1, 0, EventKind::End),
        Event::new(100, 1, 0, EventKind::End),
    ];
    let p = export(&events, &fib_table(), 0);
    assert!(p.sample.is_empty());
}

#[test]
fn functions_carry_qualname_filename_and_first_line() {
    let events = [
        Event::new(0, 1, 0, EventKind::Begin),
        Event::new(100, 1, 0, EventKind::End),
    ];
    let p = export(&events, &fib_table(), 0);
    assert_eq!(p.function.len(), 1);
    let f = &p.function[0];
    assert_eq!(s(&p, f.name), "fib");
    assert_eq!(s(&p, f.system_name), "fib");
    assert_eq!(s(&p, f.filename), "demo.py");
    assert_eq!(f.start_line, 12);
    assert_eq!(p.location.len(), 1);
    assert_eq!(p.location[0].line[0].line, 12);
}

#[test]
fn a_shared_function_is_tabled_once_across_stacks() {
    let mut codes = CodeTable::new();
    codes.push_named("a");
    codes.push_named("b");
    let events = [
        Event::new(0, 1, 0, EventKind::Begin),
        Event::new(10, 1, 1, EventKind::Begin),
        Event::new(20, 1, 1, EventKind::End),
        Event::new(30, 1, 0, EventKind::End),
        Event::new(40, 1, 1, EventKind::Begin),
        Event::new(50, 1, 1, EventKind::End),
    ];
    let p = export(&events, &codes, 0);
    assert_eq!(p.function.len(), 2);
    assert_eq!(p.location.len(), 2);
    assert_eq!(p.sample.len(), 3);
}

#[test]
fn location_and_function_ids_are_nonzero() {
    let events = [
        Event::new(0, 1, 0, EventKind::Begin),
        Event::new(100, 1, 0, EventKind::End),
    ];
    let p = export(&events, &fib_table(), 0);
    assert!(p.location.iter().all(|l| l.id != 0));
    assert!(p.function.iter().all(|f| f.id != 0));
}

#[test]
fn unresolvable_code_ids_become_unknown() {
    let events = [
        Event::new(0, 1, 999, EventKind::Begin),
        Event::new(100, 1, 999, EventKind::End),
    ];
    let p = export(&events, &CodeTable::new(), 0);
    assert_eq!(self_ns_of(&p, &["<unknown>"]), 100);
}

#[test]
fn dropped_events_are_reported_in_a_comment() {
    let p = export(&[], &CodeTable::new(), 77);
    let comments: Vec<&str> = p.comment.iter().map(|&i| s(&p, i)).collect();
    assert_eq!(comments, vec!["trace0: 77 events dropped"]);
}

#[test]
fn a_lossless_profile_carries_no_comment() {
    let p = export(&[], &CodeTable::new(), 0);
    assert!(p.comment.is_empty());
}

#[test]
fn the_profile_is_written_uncompressed() {
    let threads = ThreadTable::new();
    let mut ex = PprofExporter::create();
    ex.write_batch(
        &[
            Event::new(0, 1, 0, EventKind::Begin),
            Event::new(100, 1, 0, EventKind::End),
        ],
        &fib_table(),
        &threads,
    );
    ex.finish(&fib_table(), &threads, 0);
    let buf = ex.take_output();
    assert!(!buf.starts_with(&[0x1f, 0x8b]));
    assert_eq!(decode(&buf).sample.len(), 1);
}

#[test]
fn nothing_is_written_before_the_end() {
    let threads = ThreadTable::new();
    let mut ex = PprofExporter::new();
    ex.write_batch(&[Event::new(0, 1, 0, EventKind::Begin)], &fib_table(), &threads);
    assert!(ex.take_output().is_empty());
}

#[test]
fn the_stacks_come_in_order() {
    let mut codes = CodeTable::new();
    codes.push_named("a");
    codes.push_named("b");
    let events = [
        Event::new(0, 1, 1, EventKind::Begin),
        Event::new(10, 1, 0, EventKind::Begin),
        Event::new(30, 1, 0, EventKind::End),
        Event::new(31, 1, 1, EventKind::End),
        Event::new(40, 1, 0, EventKind::Begin),
        Event::new(44, 1, 0, EventKind::End),
    ];
    let p = export(&events, &codes, 0);
    assert_eq!(
        samples(&p),
        vec![
            (vec!["a".to_string()], 4),
            (vec!["b".to_string()], 11),
            (vec!["a".to_string(), "b".to_string()], 20),
        ]
    );
}

#[test]
fn a_clock_that_goes_back_charges_nothing() {
    let events = [
        Event::new(100, 1, 0, EventKind::Begin),
        Event::new(40, 1, 0, EventKind::End),
    ];
    let p = export(&events, &fib_table(), 0);
    assert!(p.sample.iter().all(|s| s.value[0] == 0));
}

#[test]
fn a_profile_says_everything_once() {
    let events: Vec<Event> = (0..6u64)
        .flat_map(|i| {
            let code = (i % 3) as u32;
            [
                Event::new(i * 10, 1, code, EventKind::Begin),
                Event::new(i * 10 + 3, 1, code + 5, EventKind::Begin),
                Event::new(i * 10 + 5, 1, code + 5, EventKind::End),
                Event::new(i * 10 + 9, 1, code, EventKind::End),
            ]
        })
        .collect();
    for dropped in [0u64, 4] {
        let p = export(&events, &outer_inner_table(), dropped);
        check_references(&p);
        let mut strings = p.string_table.clone();
        strings.sort();
        strings.dedup();
        assert_eq!(strings.len(), p.string_table.len());
        let mut stacks: Vec<Vec<u64>> = p.sample.iter().map(|s| s.location_id.clone()).collect();
        stacks.sort();
        stacks.dedup();
        assert_eq!(stacks.len(), p.sample.len());
        assert_eq!(stacks.len(), 6);
        let mut ids: Vec<u64> = p.location.iter().map(|l| l.id).collect();
        ids.dedup();
        assert_eq!(ids.len(), p.location.len());
        assert!(!ids.contains(&0));
        assert_eq!(p.comment.is_empty(), dropped == 0);
    }
}
