use trace0::sink::{CodeInfo, CodeLookup, CodeTable, ThreadNames, ThreadTable};

#[test]
fn code_table_hands_back_what_was_pushed() {
    let mut t = CodeTable::new();
    let id = t.push(CodeInfo {
        qualname: "fib".into(),
        filename: "demo.py".into(),
        firstlineno: 12,
    });
    assert_eq!(id, 0);
    let info = t.code(0).unwrap();
    assert_eq!(info.qualname, "fib");
    assert_eq!(info.filename, "demo.py");
    assert_eq!(info.firstlineno, 12);
}

#[test]
fn unknown_code_ids_resolve_to_nothing() {
    let t = CodeTable::new();
    assert_eq!(t.code(7), None);
}

#[test]
fn thread_table_snapshot_is_ordered() {
    let mut t = ThreadTable::new();
    t.insert(30, "cpu-b");
    t.insert(10, "MainThread");
    t.insert(20, "cpu-a");
    assert_eq!(
        t.snapshot(),
        vec![
            (10, "MainThread".to_string()),
            (20, "cpu-a".to_string()),
            (30, "cpu-b".to_string()),
        ]
    );
}

#[test]
fn ids_are_given_out_in_order() {
    let mut t = CodeTable::new();
    assert!(t.is_empty());
    assert_eq!(t.push_named("a"), 0);
    assert_eq!(t.push_named("b"), 1);
    assert_eq!(t.len(), 2);
    assert_eq!(
        t.code(1),
        Some(CodeInfo {
            qualname: "b".into(),
            filename: "".into(),
            firstlineno: 0
        })
    );
    assert_eq!(CodeInfo::default(), CodeInfo { qualname: String::new(), filename: String::new(), firstlineno: 0 });
}

#[test]
fn a_name_given_again_takes_the_place_of_the_first() {
    let mut t = ThreadTable::new();
    t.insert(1, "old");
    t.put(1, "new".to_string());
    assert_eq!(t.name(1), Some("new".to_string()));
    assert_eq!(t.name(2), None);
    assert_eq!(t.snapshot().len(), 1);
}
