use trace0::cli::{command, full_argv, split_target, Target};
use trace0::format::Format;
use trace0::recording::{make_safe, NameSearch, Refusal, SnapshotBlock};

#[test]
fn a_block_runs_exactly_once() {
    let mut b = SnapshotBlock::new("slow".to_string());
    assert_eq!(b.check_ready(), Ok(()));
    assert_eq!(b.exit(), None);
    assert_eq!(b.enter(7, 100), Ok(()));
    assert_eq!(b.check_ready(), Err(Refusal::RunsOnce));
    assert_eq!(b.enter(8, 200), Err(Refusal::RunsOnce));
    assert_eq!(b.exit(), Some((7, 100)));
    assert_eq!(b.exit(), None);
    assert_eq!(b.enter(9, 300), Err(Refusal::RunsOnce));
    assert_eq!(Refusal::RunsOnce.message(), "a snapshot block runs exactly once");
}

#[test]
fn a_dump_is_called_after_the_exception_too() {
    let b = SnapshotBlock::new("slow".to_string());
    assert_eq!(b.dump_reason(None), "slow");
    assert_eq!(b.dump_reason(Some("ValueError")), "slow-ValueError");
}

#[test]
fn a_reason_cannot_leave_the_directory() {
    assert_eq!(make_safe("../etc/pass wd"), "..-etc-pass-wd");
    assert_eq!(make_safe("a_b-C.9"), "a_b-C.9");
    assert_eq!(make_safe("h\u{e9}"), "h-");
    assert_eq!(make_safe(""), "");
}

#[test]
fn names_are_told_apart_by_a_number() {
    let mut s = NameSearch::new(1_700_000_000, "a b".to_string(), 0, Format::Protobuf);
    assert_eq!(s.next_name().unwrap(), "1700000000-a-b.pb");
    assert_eq!(s.next_name().unwrap(), "1700000000-a-b-2.pb");
    assert_eq!(s.next_name().unwrap(), "1700000000-a-b-3.pb");
    let mut child = NameSearch::new(5, "x".to_string(), 42, Format::Pprof);
    assert_eq!(child.next_name().unwrap(), "5-x.42.pprof");
    assert_eq!(child.next_name().unwrap(), "5-x-2.42.pprof");
}

#[test]
fn formats_are_asked_for_by_word() {
    assert_eq!(Format::parse("json"), Ok(Format::Json));
    for word in ["protobuf", "proto", "pb"] {
        assert_eq!(Format::parse(word), Ok(Format::Protobuf));
    }
    assert_eq!(Format::parse("xml"), Err("unknown format: xml".to_string()));
    for f in [Format::Json, Format::Protobuf] {
        assert_eq!(Format::parse(f.as_str()), Ok(f));
    }
    let ends = [Format::Json, Format::Protobuf, Format::Pprof].map(|f| f.extension());
    assert_eq!(ends, ["json", "pb", "pprof"]);
    assert_eq!(Format::Pprof.as_str(), "pprof");
}

fn words(list: &[&str]) -> Vec<String> {
    list.iter().map(|s| s.to_string()).collect()
}

#[test]
fn a_script_comes_first_among_its_arguments() {
    let c = command(Vec::new(), Some("run.py".to_string()), words(&["-x", "1"]));
    assert!(matches!(c.target, Target::Script(s) if s == "run.py"));
    assert_eq!(c.argv, words(&["run.py", "-x", "1"]));
}

#[test]
fn a_module_comes_first_among_its_arguments() {
    let c = command(words(&["pkg.mod", "-v", "all"]), None, Vec::new());
    assert!(matches!(c.target, Target::Module(m) if m == "pkg.mod"));
    assert_eq!(c.argv, words(&["pkg.mod", "-v", "all"]));
    let (_, rest, name) = split_target(words(&["m", "a"]), None, Vec::new());
    assert_eq!((rest, name), (words(&["a"]), "m".to_string()));
    assert_eq!(full_argv("p".to_string(), words(&["q"])), words(&["p", "q"]));
}
