use trace0::output::Outbox;

#[test]
fn what_is_written_is_handed_out_once_and_whole() {
    let mut b = Outbox::new();
    assert_eq!(b.take_commit(), None);
    assert_eq!(b.write(b"one "), 4);
    assert_eq!(b.write(b""), 0);
    assert_eq!(b.write(b"two"), 3);
    assert_eq!(b.take_commit(), Some(b"one two".to_vec()));
    assert_eq!(b.take_commit(), None);
}
