use chat_core::codec::{decode_command, decode_response, encode_command, encode_response};
use chat_core::{ChatCommand, ChatError, ChatResponse, Message};

fn message(sender: &str, content: &str, timestamp: u64) -> Message {
    Message { sender: String::from(sender), content: String::from(content), timestamp }
}

#[test]
fn encode_send_message_exact_text() {
    let cmd = ChatCommand::SendMessage(message("client", "hi", 42));
    assert_eq!(
        encode_command(&cmd),
        "{\"SendMessage\":{\"sender\":\"client\",\"content\":\"hi\",\"timestamp\":42}}"
    );
}

#[test]
fn encode_join_and_leave_exact_text() {
    assert_eq!(encode_command(&ChatCommand::Join(String::from("general"))), "{\"Join\":\"general\"}");
    assert_eq!(encode_command(&ChatCommand::Leave(String::from("general"))), "{\"Leave\":\"general\"}");
}

#[test]
fn encode_responses_exact_text() {
    let resp = ChatResponse::MessageReceived(message("client", "hello", 7));
    assert_eq!(
        encode_response(&resp),
        "{\"MessageReceived\":{\"sender\":\"client\",\"content\":\"hello\",\"timestamp\":7}}"
    );
    assert_eq!(encode_response(&ChatResponse::Joined(String::from("bob"))), "{\"Joined\":\"bob\"}");
    assert_eq!(encode_response(&ChatResponse::Left(String::from("bob"))), "{\"Left\":\"bob\"}");
    assert_eq!(encode_response(&ChatResponse::Error(String::from("boom"))), "{\"Error\":\"boom\"}");
}

#[test]
fn encode_escapes_specials_exact_text() {
    let cmd = ChatCommand::Join(String::from("a\"b\\c\nd"));
    assert_eq!(encode_command(&cmd), "{\"Join\":\"a\\\"b\\\\c\\u000ad\"}");
}

#[test]
fn round_trip_every_command_variant() {
    let commands = vec![
        ChatCommand::SendMessage(message("client", "hello", 1234567890123)),
        ChatCommand::SendMessage(message("", "", 0)),
        ChatCommand::SendMessage(message("client", "quote \" backslash \\ tab \t", u64::MAX)),
        ChatCommand::Join(String::from("general")),
        ChatCommand::Join(String::from("")),
        ChatCommand::Leave(String::from("room with spaces")),
    ];
    for cmd in commands {
        let text = encode_command(&cmd);
        assert_eq!(decode_command(text.as_str()).unwrap(), cmd);
    }
}

#[test]
fn round_trip_every_response_variant() {
    let responses = vec![
        ChatResponse::MessageReceived(message("client", "hello", 99)),
        ChatResponse::Joined(String::from("alice")),
        ChatResponse::Left(String::from("bob")),
        ChatResponse::Error(String::from("join is not implemented")),
    ];
    for resp in responses {
        let text = encode_response(&resp);
        assert_eq!(decode_response(text.as_str()).unwrap(), resp);
    }
}

#[test]
fn round_trip_unicode_content() {
    let cmd = ChatCommand::SendMessage(message("client", "héllo wörld — 你好 🎈", 5));
    let text = encode_command(&cmd);
    assert_eq!(decode_command(text.as_str()).unwrap(), cmd);
}

#[test]
fn round_trip_control_characters() {
    let cmd = ChatCommand::SendMessage(message("client", "line1\nline2\r\0end", 5));
    let text = encode_command(&cmd);
    assert!(!text.contains('\n'));
    assert_eq!(decode_command(text.as_str()).unwrap(), cmd);
}

#[test]
fn decode_rejects_non_json() {
    assert!(matches!(decode_command("not json at all"), Err(ChatError::Protocol(_))));
    assert!(matches!(decode_response(""), Err(ChatError::Protocol(_))));
}

#[test]
fn decode_rejects_unknown_tag() {
    assert!(matches!(decode_command("{\"Shout\":\"hi\"}"), Err(ChatError::Protocol(_))));
    assert!(matches!(decode_response("{\"Shout\":\"hi\"}"), Err(ChatError::Protocol(_))));
}

#[test]
fn decode_rejects_truncated_payload() {
    assert!(matches!(decode_command("{\"Join\":\"general\""), Err(ChatError::Protocol(_))));
    assert!(matches!(decode_command("{\"Join\":\"general"), Err(ChatError::Protocol(_))));
    assert!(matches!(
        decode_command("{\"SendMessage\":{\"sender\":\"a\",\"content\":\"b\"}}"),
        Err(ChatError::Protocol(_))
    ));
}

#[test]
fn decode_rejects_trailing_garbage() {
    assert!(matches!(decode_command("{\"Join\":\"general\"}x"), Err(ChatError::Protocol(_))));
}

#[test]
fn decode_rejects_timestamp_out_of_range() {
    let line = "{\"SendMessage\":{\"sender\":\"a\",\"content\":\"b\",\"timestamp\":18446744073709551616}}";
    assert!(matches!(decode_command(line), Err(ChatError::Protocol(_))));
    let max = "{\"SendMessage\":{\"sender\":\"a\",\"content\":\"b\",\"timestamp\":18446744073709551615}}";
    assert!(decode_command(max).is_ok());
}

#[test]
fn decode_rejects_non_canonical_number() {
    let line = "{\"SendMessage\":{\"sender\":\"a\",\"content\":\"b\",\"timestamp\":007}}";
    assert!(matches!(decode_command(line), Err(ChatError::Protocol(_))));
}

#[test]
fn decode_rejects_non_canonical_whitespace() {
    assert!(matches!(decode_command("{\"Join\": \"general\"}"), Err(ChatError::Protocol(_))));
}

#[test]
fn decode_is_stateless_after_a_failure() {
    assert!(decode_command("garbage").is_err());
    let cmd = ChatCommand::Join(String::from("general"));
    let text = encode_command(&cmd);
    assert_eq!(decode_command(text.as_str()).unwrap(), cmd);
}
