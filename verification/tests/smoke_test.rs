use protohackers::smoke_test::echo_reply;

#[test]
fn test_echo_hello_world() {
    // Writing "Hello world!" and half-closing the write side yields back
    // exactly "Hello world!".
    let sent: Vec<u8> = b"Hello world!".to_vec();
    let reply = echo_reply(&sent);
    assert_eq!(reply, sent);
}

#[test]
fn test_echo_empty_and_binary() {
    let empty: Vec<u8> = vec![];
    assert_eq!(echo_reply(&empty), empty);

    let binary: Vec<u8> = vec![0, 255, 73, 81, 10, 0];
    assert_eq!(echo_reply(&binary), binary);
}
