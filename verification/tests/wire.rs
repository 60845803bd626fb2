use trace0::idmap::{IdMap, Index, Strings};
use trace0::text::{append_number, push_bytes, push_text, push_u64, same_text, starts_with};
use trace0::wire::{bits_of, push_field, push_number, push_varint};

fn varint(v: u64) -> Vec<u8> {
    let mut out = Vec::new();
    push_varint(&mut out, v);
    out
}

#[test]
fn a_varint_holds_seven_bits_a_byte() {
    assert_eq!(varint(0), [0]);
    assert_eq!(varint(127), [127]);
    assert_eq!(varint(128), [0x80, 1]);
    assert_eq!(varint(300), [0xac, 2]);
    assert_eq!(varint(u64::MAX), [255, 255, 255, 255, 255, 255, 255, 255, 255, 1]);
}

#[test]
fn fields_carry_their_tag_and_their_kind() {
    let mut out = Vec::new();
    push_number(1, 150, &mut out);
    assert_eq!(out, [0x08, 0x96, 0x01]);
    let mut out = Vec::new();
    push_field(2, &b"testing".to_vec(), &mut out);
    assert_eq!(out, [0x12, 7, b't', b'e', b's', b't', b'i', b'n', b'g']);
    let mut out = Vec::new();
    push_number(60, 5, &mut out);
    assert_eq!(out, [0xe0, 0x03, 5]);
    push_number(60, 0, &mut out);
    assert_eq!(out.len(), 3, "a zero is left out");
}

#[test]
fn a_negative_number_is_written_by_its_bits() {
    assert_eq!(bits_of(5), 5);
    assert_eq!(bits_of(-1), u64::MAX);
    assert_eq!(bits_of(i64::MIN), 1 << 63);
}

#[test]
fn numbers_are_written_in_decimal() {
    for v in [0u64, 9, 10, 1_234_567, u64::MAX] {
        let mut out = Vec::new();
        push_u64(&mut out, v);
        assert_eq!(out, v.to_string().into_bytes());
        let mut s = String::from("n=");
        append_number(&mut s, v);
        assert_eq!(s, format!("n={v}"));
    }
}

#[test]
fn text_is_appended_as_it_stands() {
    let mut out = b"<".to_vec();
    push_bytes(&mut out, b"ab");
    push_text(&mut out, "c>");
    assert_eq!(out, b"<abc>");
    assert!(same_text("a", "a"));
    assert!(!same_text("a", "ab"));
    assert!(starts_with("Dummy-1", "Dummy-"));
    assert!(!starts_with("Dum", "Dummy-"));
}

#[test]
fn a_map_gives_back_what_was_put_in() {
    let mut m = IdMap::new();
    assert_eq!(m.get(3), None);
    m.insert(3, 30);
    m.insert(3, 31);
    assert_eq!(m.get(3), Some(31));
    assert_eq!(m.remove(3), Some(31));
    assert_eq!(m.remove(3), None);
}

#[test]
fn an_index_numbers_keys_in_the_order_they_came() {
    let mut index = Index::new();
    assert_eq!(index.find(50), None);
    assert_eq!(index.add(50), 0);
    assert_eq!(index.add(40), 1);
    assert_eq!(index.find(50), Some(0));
    assert_eq!((index.len(), index.key(1)), (2, 40));
}

#[test]
fn equal_texts_share_a_place() {
    let mut s = Strings::with_empty_head();
    assert_eq!(s.id(""), 0);
    assert_eq!(s.id("wall"), 1);
    assert_eq!(s.id("time"), 2);
    assert_eq!(s.id("wall"), 1);
    assert_eq!((s.len(), s.at(2).as_str()), (3, "time"));
}
