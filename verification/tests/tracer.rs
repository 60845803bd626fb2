use trace0::tracer::{outcome, react, Ended, Joined, Previous, Reaction, ReplacedHandlers};

#[test]
fn a_handler_kept_again_takes_the_place_of_the_first() {
    let mut r: ReplacedHandlers<&str> = ReplacedHandlers::new();
    assert_eq!(r.find(15), None);
    r.keep(15, "first");
    r.keep(2, "other");
    r.keep(15, "second");
    assert_eq!(r.find(15), Some(&"second"));
    assert_eq!(r.find(2), Some(&"other"));
    assert_eq!(r.take_all(), vec![(2, "other"), (15, "second")]);
    assert_eq!(r.take_all(), Vec::new());
}

#[test]
fn a_run_is_ended_only_where_the_signal_ends_the_process() {
    assert_eq!(react(Previous::Missing), Reaction::Nothing);
    assert_eq!(react(Previous::Callable), Reaction::Call);
    assert_eq!(react(Previous::Default), Reaction::EndAndRaise);
    assert_eq!(react(Previous::Other), Reaction::Raise);
}

#[test]
fn what_went_wrong_with_the_callbacks_comes_first() {
    assert!(matches!(outcome::<u8>(Ok(()), Joined::Written), Ended::Fine));
    assert!(matches!(
        outcome(Err(3u8), Joined::Failed("full".to_string())),
        Ended::StillMonitoring(3)
    ));
    assert!(matches!(
        outcome::<u8>(Ok(()), Joined::Failed("full".to_string())),
        Ended::NotWritten(m) if m == "full"
    ));
    assert!(matches!(outcome::<u8>(Ok(()), Joined::Panicked), Ended::Panicked));
}
