use ghola::object::ObjectId;
use ghola::wire::{R, W};

#[test]
fn written_values_read_back() {
    let mut w = W::default();
    w.u8(7).u16(0x1234).u32(0xdead_beef).id(&ObjectId([5; 32])).bytes(b"abc").string("héllo");
    let buf = w.0;
    let mut r = R(&buf);
    assert_eq!(r.u8(), Some(7));
    assert_eq!(r.u16(), Some(0x1234));
    assert_eq!(r.u32(), Some(0xdead_beef));
    assert_eq!(r.id(), Some(ObjectId([5; 32])));
    assert_eq!(r.bytes(), Some(&b"abc"[..]));
    assert_eq!(r.string().as_deref(), Some("héllo"));
    assert!(r.finished());
}

#[test]
fn values_are_little_endian() {
    let mut w = W::default();
    w.u16(0x0102).u32(0x0304_0506);
    assert_eq!(w.0, vec![2, 1, 6, 5, 4, 3]);
}

#[test]
fn short_input_reads_none_and_consumes_nothing() {
    let buf = [1u8, 2, 3];
    let mut r = R(&buf);
    assert_eq!(r.u32(), None);
    assert_eq!(r.id(), None);
    assert_eq!(r.u16(), Some(0x0201));
    assert_eq!(r.u8(), Some(3));
    assert_eq!(r.u8(), None);
    assert!(r.finished());
}

#[test]
fn a_byte_string_longer_than_what_is_left_is_rejected() {
    let buf = [5u8, 0, 0, 0, b'a', b'b'];
    let mut r = R(&buf);
    assert_eq!(r.bytes(), None);
    assert_eq!(r.0, b"ab");
}

#[test]
fn invalid_utf8_strings_are_rejected() {
    let buf = [2u8, 0, 0xff, 0xfe];
    let mut r = R(&buf);
    assert_eq!(r.string(), None);
    assert!(r.finished());
}

#[test]
fn a_huge_count_is_refused() {
    let buf = [0xffu8, 0xff, 0xff, 0xff, 1, 2, 3];
    assert_eq!(R(&buf).count(1), None);
    let buf = [3u8, 0, 0, 0, 1, 2, 3, 4, 5, 6];
    assert_eq!(R(&buf).count(2), Some(3));
    assert_eq!(R(&buf).count(3), None);
    assert_eq!(R(&buf).count(0), Some(3));
}
