use bytes::BytesMut;
use protohackers::price_store::{
    encode_i32_be, take_message, Message, MessageError, MessageType, Outcome, PriceEntry, PriceStore,
};

fn insert_msg(t: i32, p: i32) -> Vec<u8> {
    let mut v = vec![b'I'];
    v.extend_from_slice(&t.to_be_bytes());
    v.extend_from_slice(&p.to_be_bytes());
    v
}

fn query_msg(a: i32, b: i32) -> Vec<u8> {
    let mut v = vec![b'Q'];
    v.extend_from_slice(&a.to_be_bytes());
    v.extend_from_slice(&b.to_be_bytes());
    v
}

#[test]
fn message_type_from_byte() {
    assert_eq!(MessageType::from_byte(b'I'), Ok(MessageType::Insert));
    assert_eq!(MessageType::from_byte(b'Q'), Ok(MessageType::Query));
    assert_eq!(MessageType::from_byte(b'X'), Err(MessageError::UnknownType));
}

#[test]
fn message_from_bytes_decodes_big_endian() {
    let bytes = [0x49, 0x00, 0x00, 0x30, 0x39, 0x00, 0x00, 0x00, 0x65];
    assert_eq!(
        Message::from_bytes(&bytes),
        Ok(Message { type_: MessageType::Insert, first: 12345, second: 101 })
    );
    let bytes = [0x51, 0xff, 0xff, 0xff, 0xff, 0x80, 0x00, 0x00, 0x00];
    assert_eq!(
        Message::from_bytes(&bytes),
        Ok(Message { type_: MessageType::Query, first: -1, second: i32::MIN })
    );
}

#[test]
fn message_from_bytes_errors() {
    assert_eq!(Message::from_bytes(&[0x49, 0, 0]), Err(MessageError::TooShort));
    assert_eq!(Message::from_bytes(&[0x5a, 0, 0, 0, 0, 0, 0, 0, 0]), Err(MessageError::UnknownType));
}

#[test]
fn encode_matches_std_and_round_trips() {
    for v in [0, 1, -1, 101, i32::MIN, i32::MAX, 0x01020304, -123456] {
        let e = encode_i32_be(v);
        assert_eq!(e, v.to_be_bytes().to_vec());
        let mut m = vec![b'Q'];
        m.extend_from_slice(&e);
        m.extend_from_slice(&e);
        assert_eq!(Message::from_bytes(&m).unwrap().first, v);
    }
}

#[test]
fn store_example_session() {
    let mut s = PriceStore::new();
    assert!(matches!(s.handle_message(&insert_msg(12345, 101)), Outcome::Continue));
    assert!(matches!(s.handle_message(&insert_msg(12346, 102)), Outcome::Continue));
    assert!(matches!(s.handle_message(&insert_msg(12347, 100)), Outcome::Continue));
    assert!(matches!(s.handle_message(&insert_msg(40960, 5)), Outcome::Continue));
    match s.handle_message(&query_msg(12288, 16384)) {
        Outcome::Respond(b) => assert_eq!(b, vec![0, 0, 0, 101]),
        other => panic!("unexpected {:?}", other),
    }
}

#[test]
fn store_query_edge_cases() {
    let mut s = PriceStore::new();
    assert_eq!(s.query(0, 100), 0);
    s.insert(10, 5);
    s.insert(20, -7);
    assert_eq!(s.query(20, 10), 0);
    assert_eq!(s.query(11, 19), 0);
    assert_eq!(s.query(21, 30), 0);
    assert_eq!(s.query(0, 9), 0);
    assert_eq!(s.query(10, 10), 5);
    // (5 + -7) / 2 = -1, rounded toward zero.
    assert_eq!(s.query(10, 20), -1);
    s.insert(15, -4);
    // (5 - 4 - 7) / 3 = -2
    assert_eq!(s.query(i32::MIN, i32::MAX), -2);
}

#[test]
fn store_mean_does_not_overflow() {
    let mut s = PriceStore::new();
    s.insert(1, i32::MAX);
    s.insert(2, i32::MAX);
    s.insert(3, i32::MAX - 2);
    assert_eq!(s.query(1, 3), i32::MAX - 1);
    let mut s = PriceStore::new();
    s.insert(1, i32::MIN);
    s.insert(2, i32::MIN);
    assert_eq!(s.query(0, 5), i32::MIN);
}

#[test]
fn store_keeps_entries_sorted_out_of_order() {
    let mut s = PriceStore::new();
    s.insert(30, 3);
    s.insert(10, 1);
    s.insert(20, 2);
    s.insert(10, 4);
    assert_eq!(s.query(10, 10), 2);
    assert_eq!(s.query(15, 30), 2);
    assert_eq!(s.query(0, 100), 2);
    let _ = PriceEntry { timestamp: 1, price: 2 };
}

#[test]
fn store_closes_on_unknown_message() {
    let mut s = PriceStore::new();
    let mut m = insert_msg(1, 1);
    m[0] = b'X';
    assert!(matches!(s.handle_message(&m), Outcome::Close));
    assert_eq!(s.query(0, 10), 0);
}

#[test]
fn take_message_waits_for_nine_bytes() {
    let mut buf = BytesMut::from(&insert_msg(1, 2)[..5]);
    assert_eq!(take_message(&mut buf), None);
    assert_eq!(buf.len(), 5);
    buf.extend_from_slice(&insert_msg(1, 2)[5..]);
    buf.extend_from_slice(&[b'Q', 0]);
    assert_eq!(take_message(&mut buf), Some(insert_msg(1, 2)));
    assert_eq!(&buf[..], &[b'Q', 0]);
}

#[test]
fn query_does_not_depend_on_arrival_order() {
    let entries = [(5, 10), (1, -3), (9, 7), (5, 2), (3, 100)];
    let mut a = PriceStore::new();
    for (t, p) in entries {
        a.insert(t, p);
    }
    let mut b = PriceStore::new();
    for (t, p) in entries.iter().rev() {
        b.insert(*t, *p);
    }
    for (lo, hi) in [(0, 10), (1, 5), (5, 5), (4, 9), (6, 8), (10, 0)] {
        assert_eq!(a.query(lo, hi), b.query(lo, hi));
    }
    assert_eq!(a.query(0, 10), (10 - 3 + 7 + 2 + 100) / 5);
}

#[test]
fn insert_changes_only_ranges_that_hold_it() {
    let mut s = PriceStore::new();
    s.insert(10, 4);
    s.insert(20, 8);
    assert_eq!(s.query(0, 15), 4);
    s.insert(30, 100);
    assert_eq!(s.query(0, 25), 6);
    s.insert(12, 10);
    assert_eq!(s.query(0, 15), 7);
}
