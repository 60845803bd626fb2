use trace0::codecache::{CodeCache, SLOTS};
use trace0::codewatch::{Generation, CODE_EVENT_DESTROY};
use trace0::intern::{describe, Interner};
use trace0::monitoring::{cached_code, resolve_cold, resolve_new, wants_name, NAME_RETRIES};
use trace0::sink::{CodeInfo, CodeLookup, ThreadNames};
use trace0::threads::ThreadRegistry;
use trace0::tls::Hot;

fn info(name: &str) -> CodeInfo {
    CodeInfo {
        qualname: name.to_string(),
        filename: "f.py".to_string(),
        firstlineno: 3,
    }
}

#[test]
fn what_a_code_object_does_not_say_is_filled_in() {
    assert_eq!(
        describe(None, None, None),
        CodeInfo {
            qualname: "<unknown>".to_string(),
            filename: String::new(),
            firstlineno: 0
        }
    );
    assert_eq!(
        describe(Some("f".to_string()), Some("f.py".to_string()), Some(3)),
        info("f")
    );
}

#[test]
fn each_code_object_has_a_number_of_its_own() {
    let mut i = Interner::new(None);
    assert_eq!(i.lookup(100), None);
    assert_eq!(i.insert(100, info("a"), 0), Some(0));
    assert_eq!(i.insert(200, info("b"), 0), Some(1));
    assert_eq!(i.insert(100, info("other"), 0), Some(0));
    assert_eq!(i.lookup(200), Some(1));
    assert_eq!(i.code(0), Some(info("a")));
    assert_eq!(i.code(2), None);
}

#[test]
fn a_number_is_given_out_again_below_the_floor_only() {
    let mut i = Interner::new(Some(2));
    assert_eq!(i.insert(1, info("a"), 0), Some(0));
    assert_eq!(i.insert(2, info("b"), 0), Some(1));
    assert_eq!(i.insert(3, info("c"), u64::MAX), None, "all numbers are in use");
    assert!(i.forget(1, 50));
    assert!(!i.forget(1, 60));
    assert_eq!(i.insert(3, info("c"), 50), None, "events of the first may still be held");
    assert_eq!(i.insert(3, info("c"), 51), Some(0));
    assert_eq!(i.code(0), Some(info("c")));
    assert_eq!(i.lookup(1), None);
}

#[test]
fn a_setting_is_kept_within_bounds() {
    let mut one = Interner::new(Some(0));
    assert_eq!(one.insert(1, info("a"), 0), Some(0));
    assert_eq!(one.insert(2, info("b"), 0), None);
    let mut many = Interner::new(Some(u32::MAX));
    assert_eq!(many.insert(1, info("a"), 0), Some(0));
    assert_eq!(many.insert(2, info("b"), 0), Some(1));
}

#[test]
fn a_thread_gets_a_proper_name_once() {
    let mut t = ThreadRegistry::new();
    assert!(!t.ensure(5, ""));
    assert!(!t.ensure(5, "Dummy-3"));
    assert!(!t.knows(5));
    assert!(t.ensure(5, "worker"));
    assert!(t.ensure(5, "Dummy-3"));
    assert_eq!(t.name(5), Some("worker".to_string()));
    assert_eq!(t.snapshot(), vec![(5, "worker".to_string())]);
}

#[test]
fn a_destroyed_code_object_counts_only_if_it_was_known() {
    let mut g = Generation::new();
    g.on_code_event(CODE_EVENT_DESTROY, &[false, false]);
    g.on_code_event(CODE_EVENT_DESTROY, &[]);
    g.on_code_event(0, &[true]);
    assert_eq!(g.generation(), 0);
    g.on_code_event(CODE_EVENT_DESTROY, &[false, true]);
    assert_eq!(g.generation(), 1);
    assert!(Generation::is_gone(1));
    assert!(!Generation::is_gone(0));
}

#[test]
fn a_code_object_is_resolved_once_per_run() {
    let mut hot = Hot::empty();
    let mut codes = CodeCache::empty();
    let mut interner = Interner::new(None);
    let mut threads = ThreadRegistry::new();
    assert_eq!(cached_code(&hot, 64, 1, 0), None);
    assert!(wants_name(&hot, &threads, 1, 77));
    let first = resolve_cold(&mut hot, &mut codes, &interner, &mut threads, 64, 1, 0, 77, "main");
    assert_eq!(first, None);
    assert_eq!(hot.tid, 77);
    assert!(hot.ensured);
    assert_eq!(threads.name(77), Some("main".to_string()));
    let id = resolve_new(&mut hot, &mut codes, &mut interner, 64, info("f"), 0);
    assert_eq!(id, Some(0));
    hot.queue_id = 1;
    assert_eq!(cached_code(&hot, 64, 1, 0), Some(0));
    assert_eq!(cached_code(&hot, 64, 2, 0), None, "another run");
    assert_eq!(cached_code(&hot, 64, 1, 1), None, "a code object has gone since");
    assert_eq!(codes.get(64), Some(0));
    assert!(!wants_name(&hot, &threads, 1, 77));
    let again = resolve_cold(&mut hot, &mut codes, &interner, &mut threads, 64, 1, 0, 77, "");
    assert_eq!(again, Some(0));
}

#[test]
fn a_code_object_that_went_is_not_found_in_the_cache() {
    let mut hot = Hot::empty();
    hot.queue_id = 1;
    hot.ensured = true;
    hot.tid = 5;
    let mut codes = CodeCache::empty();
    codes.put(64, 9);
    let mut interner = Interner::new(None);
    let mut threads = ThreadRegistry::new();
    let found = resolve_cold(&mut hot, &mut codes, &interner, &mut threads, 64, 1, 1, 5, "");
    assert_eq!(found, None);
    assert_eq!(codes.get(64), None);
    assert_eq!(interner.insert(64, info("new"), 0), Some(0));
    let found = resolve_cold(&mut hot, &mut codes, &interner, &mut threads, 64, 1, 1, 5, "");
    assert_eq!(found, Some(0));
}

#[test]
fn resolving_a_code_object_leaves_the_rest_of_the_cache_alone() {
    let mut hot = Hot::empty();
    hot.queue_id = 1;
    hot.ensured = true;
    let mut codes = CodeCache::empty();
    let mut interner = Interner::new(None);
    let mut threads = ThreadRegistry::new();
    let others: Vec<usize> = (1..40).map(|i| 0x1000 + i * 96).collect();
    for &key in &others {
        codes.put(key, key as u32);
    }
    let before: Vec<(usize, u32)> = (0..SLOTS).map(|place| codes.slot(place)).collect();
    assert_eq!(interner.insert(64, info("f"), 0), Some(0));
    let found = resolve_cold(&mut hot, &mut codes, &interner, &mut threads, 64, 1, 0, 5, "");
    assert_eq!(found, Some(0));
    for place in 0..SLOTS {
        if place == CodeCache::slot_of(64) {
            assert_eq!(codes.slot(place), (64, 0));
        } else {
            assert_eq!(codes.slot(place), before[place]);
        }
    }
    let missed = resolve_cold(&mut hot, &mut codes, &interner, &mut threads, 65, 1, 0, 5, "");
    assert_eq!(missed, None);
    assert_eq!(codes.get(64), Some(0));
    resolve_cold(&mut hot, &mut codes, &interner, &mut threads, 65, 1, 1, 5, "");
    assert!((0..SLOTS).all(|place| codes.slot(place) == (0, 0)), "a code object has gone");
}

#[test]
fn a_thread_without_a_name_is_asked_a_bounded_number_of_times() {
    let mut hot = Hot::empty();
    let mut codes = CodeCache::empty();
    let mut interner = Interner::new(None);
    let mut threads = ThreadRegistry::new();
    assert_eq!(interner.insert(64, info("f"), 0), Some(0));
    resolve_cold(&mut hot, &mut codes, &interner, &mut threads, 64, 1, 0, 5, "Dummy-1");
    hot.queue_id = 1;
    assert_eq!(hot.name_retries, NAME_RETRIES - 1);
    assert_eq!(cached_code(&hot, 64, 1, 0), None, "the name is still to be asked for");
    let mut asked = 1;
    while wants_name(&hot, &threads, 1, 5) {
        resolve_cold(&mut hot, &mut codes, &interner, &mut threads, 64, 1, 0, 5, "Dummy-1");
        asked += 1;
    }
    assert_eq!(asked, NAME_RETRIES);
    assert_eq!(cached_code(&hot, 64, 1, 0), Some(0));
}

#[test]
fn no_room_leaves_the_thread_as_it_was() {
    let mut hot = Hot::empty();
    let mut codes = CodeCache::empty();
    let mut interner = Interner::new(Some(1));
    assert_eq!(interner.insert(1, info("a"), 0), Some(0));
    let id = resolve_new(&mut hot, &mut codes, &mut interner, 64, info("f"), 0);
    assert_eq!(id, None);
    assert_eq!(codes.get(64), None);
    assert_eq!(hot.last_code_id, u32::MAX);
}
