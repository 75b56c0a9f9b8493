use chat_core::{ChatError, Message};

#[test]
fn it_works() {
    let result = chat_core::add(2, 2);
    assert_eq!(result, 4);
}

#[test]
fn describe_spells_out_the_kind() {
    assert_eq!(
        ChatError::Network(String::from("connection closed")).describe(),
        "Network error: connection closed"
    );
    assert_eq!(ChatError::Protocol(String::from("bad frame")).describe(), "Protocol error: bad frame");
    assert_eq!(ChatError::Internal(String::from("oops")).describe(), "Internal error: oops");
}

#[test]
fn message_fields_are_plain_values() {
    let m = Message {
        sender: String::from("client"),
        content: String::from("hello"),
        timestamp: 123,
    };
    let m2 = m.clone();
    assert_eq!(m, m2);
    assert_eq!(m.sender, "client");
    assert_eq!(m.content, "hello");
    assert_eq!(m.timestamp, 123);
}
