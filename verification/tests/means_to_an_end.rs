use protohackers::means_to_an_end::{Message, MeansToAnEndError, Session, session_step};

fn insert(session: &mut Session, timestamp: i32, price: i32) {
    let message = Message::Insert { timestamp, price };
    let response = session_step(session, message.to_network_bytes());
    assert!(response.is_none());
}

fn query(session: &mut Session, mintime: i32, maxtime: i32) -> i32 {
    let message = Message::Query { mintime, maxtime };
    let response = session_step(session, message.to_network_bytes()).unwrap();
    Message::i32_from_network_bytes(response[0], response[1], response[2], response[3])
}

#[test]
fn test_message_network_byte_serde() {
    let message = Message::Insert {
        timestamp: 2394,
        price: 994920,
    };

    // Serialize then deserialize and make sure it still matches.
    assert_eq!(
        message,
        Message::from_network_bytes(message.to_network_bytes()).unwrap()
    );
}

#[test]
fn test_single_client() {
    let mut session = Session::new();
    insert(&mut session, 1000, 100);
    insert(&mut session, 1020, 200);
    insert(&mut session, 1040, 250);

    // DB contains:
    // 1000, 100
    // 1020, 200
    // 1040, 250

    // Floating point can round in any direction in the protocol, but our
    // implementation will always return the floor.
    let mut mean = query(&mut session, 999, 1041);
    assert_eq!(mean, 183);

    // Range is inclusive.
    mean = query(&mut session, 1000, 1040);
    assert_eq!(mean, 183);

    // Some arbitrary larger range.
    mean = query(&mut session, 500, 20000);
    assert_eq!(mean, 183);

    // A subset of values.
    mean = query(&mut session, 900, 1030);
    assert_eq!(mean, 150);

    // min greater than max must return 0.
    mean = query(&mut session, 2000, 1000);
    assert_eq!(mean, 0);

    // A range without a value must return 0
    mean = query(&mut session, 2000, 8000);
    assert_eq!(mean, 0);

    // min == max, with a value at that point
    mean = query(&mut session, 1020, 1020);
    assert_eq!(mean, 200);

    // min == max, without a value at that point
    mean = query(&mut session, 1028, 1028);
    assert_eq!(mean, 0);

    // Insert some more values, including negative timestamps and prices.
    // These should all work. The protocol doesn't define what to do with
    // negative timestamp, so I'll assume this must work. The protocol
    // explicitly mentions that negative prices are possible.

    // Insert some negative timestamp values.
    insert(&mut session, -1000, 100);
    insert(&mut session, -1020, 200);
    insert(&mut session, -1040, 250);

    // Insert some negative price values.
    insert(&mut session, 1010, -100);
    insert(&mut session, -2000, -100);

    // Insert some more prices that modify results for queries we've already
    // done.
    insert(&mut session, 1025, 300);

    // DB contains:
    // -2000, -100
    // -1040, 250
    // -1020, 200
    // -1000, 100
    // 1000, 100
    // 1010, -100
    // 1020, 200
    // 1025, 300
    // 1040, 250

    mean = query(&mut session, 999, 1041);
    assert_eq!(mean, 150);

    mean = query(&mut session, 1000, 1040);
    assert_eq!(mean, 150);

    mean = query(&mut session, 500, 20000);
    assert_eq!(mean, 150);

    mean = query(&mut session, 900, 1030);
    assert_eq!(mean, 125);

    mean = query(&mut session, 2000, 1000);
    assert_eq!(mean, 0);

    mean = query(&mut session, 2000, 8000);
    assert_eq!(mean, 0);

    mean = query(&mut session, 1020, 1020);
    assert_eq!(mean, 200);

    mean = query(&mut session, 1025, 1025);
    assert_eq!(mean, 300);

    mean = query(&mut session, 1028, 1028);
    assert_eq!(mean, 0);

    mean = query(&mut session, -1050, -999);
    assert_eq!(mean, 183);

    mean = query(&mut session, -1999, -999);
    assert_eq!(mean, 183);

    mean = query(&mut session, -2000, -999);
    assert_eq!(mean, 112);

    mean = query(&mut session, -2001, -999);
    assert_eq!(mean, 112);

    mean = query(&mut session, -500, 500);
    assert_eq!(mean, 0);

    // Test inserting the same timestamps.
    // The protocol says this is undefined behavior.
    // Our implementation will overwrite existing values.
    insert(&mut session, 1000, 250);
    insert(&mut session, -1000, 350);

    // DB contains:
    // -2000, -100
    // -1040, 250
    // -1020, 200
    // -1000, 350
    // 1000, 250
    // 1010, -100
    // 1020, 200
    // 1025, 300
    // 1040, 250

    mean = query(&mut session, 999, 1041);
    assert_eq!(mean, 180);

    mean = query(&mut session, -1025, -900);
    assert_eq!(mean, 275);
}

#[test]
fn test_mutiple_clients() {
    // Three sessions stand in for three concurrent connections: each owns
    // an independent database, so inserts on one never affect another.
    let mut session1 = Session::new();
    insert(&mut session1, 300, 100);
    insert(&mut session1, 400, 200);
    insert(&mut session1, 650, 250);

    let mut session2 = Session::new();
    insert(&mut session2, 1300, 200);
    insert(&mut session2, 1400, 300);
    insert(&mut session2, 1650, 350);

    let mut session3 = Session::new();
    insert(&mut session3, 2300, 300);
    insert(&mut session3, 2400, 400);
    insert(&mut session3, 2650, 450);

    let mut mean = query(&mut session1, 200, 700);
    assert_eq!(mean, 183);

    mean = query(&mut session1, 200, 500);
    assert_eq!(mean, 150);

    mean = query(&mut session2, 1200, 1700);
    assert_eq!(mean, 283);

    mean = query(&mut session2, 1200, 1500);
    assert_eq!(mean, 250);

    mean = query(&mut session3, 2200, 2700);
    assert_eq!(mean, 383);

    mean = query(&mut session3, 2200, 2500);
    assert_eq!(mean, 350);

    // Test inserting a new value for the same timestamp on one connection.
    insert(&mut session1, 300, 300);

    // This mean changes.
    mean = query(&mut session1, 200, 700);
    assert_eq!(mean, 250);

    // This mean changes.
    mean = query(&mut session1, 200, 500);
    assert_eq!(mean, 250);

    // The rest of these remain the same.
    mean = query(&mut session2, 1200, 1700);
    assert_eq!(mean, 283);

    mean = query(&mut session2, 1200, 1500);
    assert_eq!(mean, 250);

    mean = query(&mut session3, 2200, 2700);
    assert_eq!(mean, 383);

    mean = query(&mut session3, 2200, 2500);
    assert_eq!(mean, 350);
}

#[test]
fn test_decode_rejects_unknown_tag() {
    // Any first byte other than 'I' or 'Q' is an invalid message type.
    let mut bytes = [0u8; 9];
    for tag in 0..=255u8 {
        bytes[0] = tag;
        let decoded = Message::from_network_bytes(bytes);
        if tag == b'I' || tag == b'Q' {
            assert!(decoded.is_ok());
        } else {
            assert_eq!(decoded, Err(MeansToAnEndError::InvalidMessageType));
        }
    }
}

#[test]
fn test_round_trip_extremes() {
    let messages = [
        Message::Insert { timestamp: i32::MIN, price: i32::MAX },
        Message::Insert { timestamp: -1, price: 0 },
        Message::Query { mintime: i32::MAX, maxtime: i32::MIN },
        Message::Query { mintime: 0, maxtime: -1 },
    ];
    for message in messages {
        assert_eq!(
            message,
            Message::from_network_bytes(message.to_network_bytes()).unwrap()
        );
    }
}

#[test]
fn test_wire_bytes_are_big_endian() {
    let message = Message::Insert { timestamp: 1000, price: -1 };
    let bytes = message.to_network_bytes();
    assert_eq!(
        bytes,
        [b'I', 0x00, 0x00, 0x03, 0xe8, 0xff, 0xff, 0xff, 0xff]
    );
}

#[test]
fn test_query_on_empty_database() {
    let mut session = Session::new();
    assert_eq!(query(&mut session, i32::MIN, i32::MAX), 0);
}

#[test]
fn test_mean_truncates_toward_zero() {
    // -3 / 2 truncates to -1 (floor division would give -2).
    let mut session = Session::new();
    insert(&mut session, 1, -1);
    insert(&mut session, 2, -2);
    assert_eq!(query(&mut session, 1, 2), -1);
}

#[test]
fn test_mean_at_i32_extremes() {
    let mut session = Session::new();
    insert(&mut session, 1, i32::MIN);
    insert(&mut session, 2, i32::MIN);
    assert_eq!(query(&mut session, 1, 2), i32::MIN);

    let mut session2 = Session::new();
    insert(&mut session2, 1, i32::MAX);
    insert(&mut session2, 2, i32::MAX);
    assert_eq!(query(&mut session2, 1, 2), i32::MAX);
}

#[test]
fn test_malformed_message_is_skipped() {
    // The lenient policy: a bad tag byte gets no response and leaves the
    // database as it was.
    let mut session = Session::new();
    insert(&mut session, 10, 42);
    let response = session_step(&mut session, [b'X', 0, 0, 0, 1, 0, 0, 0, 1]);
    assert!(response.is_none());
    assert_eq!(query(&mut session, 10, 10), 42);
}
