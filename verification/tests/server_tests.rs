use chat_core::channel::{encode_command_frame, encode_response_frame, receive_command};
use chat_core::server::{handle_command, server_step, ServerStep};
use chat_core::{ChatCommand, ChatError, ChatResponse, Message};

fn hello_message() -> Message {
    Message { sender: String::from("client"), content: String::from("hello"), timestamp: 77 }
}

#[test]
fn send_message_is_echoed_to_its_sender() {
    let reply = handle_command(ChatCommand::SendMessage(hello_message()));
    assert_eq!(reply, ChatResponse::MessageReceived(hello_message()));
}

#[test]
fn join_fails_explicitly() {
    let reply = handle_command(ChatCommand::Join(String::from("general")));
    assert_eq!(reply, ChatResponse::Error(String::from("join is not implemented")));
}

#[test]
fn leave_fails_explicitly() {
    let reply = handle_command(ChatCommand::Leave(String::from("general")));
    assert_eq!(reply, ChatResponse::Error(String::from("leave is not implemented")));
}

#[test]
fn handler_replies_with_the_echo_frame() {
    let frame = encode_command_frame(&ChatCommand::SendMessage(hello_message()));
    let step = server_step(frame.len(), &frame);
    let expected = encode_response_frame(&ChatResponse::MessageReceived(hello_message()));
    assert_eq!(step, ServerStep::Reply(expected));
}

#[test]
fn handler_closes_on_peer_close() {
    let step = server_step(0, &Vec::new());
    match step {
        ServerStep::Close(ChatError::Network(reason)) => assert_eq!(reason, "connection closed"),
        other => panic!("a zero-byte read must close the connection, got {:?}", other),
    }
}

#[test]
fn handler_closes_on_malformed_frame() {
    let garbage: Vec<u8> = b"this is not json\n".to_vec();
    let step = server_step(garbage.len(), &garbage);
    assert!(matches!(step, ServerStep::Close(ChatError::Protocol(_))));
}

#[test]
fn handler_closes_on_invalid_utf8() {
    let garbage: Vec<u8> = vec![0xff, 0xfe, b'\n'];
    let step = server_step(garbage.len(), &garbage);
    assert!(matches!(step, ServerStep::Close(ChatError::Protocol(_))));
}

#[test]
fn receive_is_stateless_after_a_malformed_frame() {
    let garbage: Vec<u8> = b"garbage\n".to_vec();
    assert!(matches!(receive_command(garbage.len(), &garbage), Err(ChatError::Protocol(_))));
    let frame = encode_command_frame(&ChatCommand::Join(String::from("general")));
    assert_eq!(
        receive_command(frame.len(), &frame).unwrap(),
        ChatCommand::Join(String::from("general"))
    );
}

#[test]
fn command_frame_exact_bytes() {
    let frame = encode_command_frame(&ChatCommand::Join(String::from("a")));
    assert_eq!(frame, b"{\"Join\":\"a\"}\n".to_vec());
}

#[test]
fn receive_accepts_a_final_line_without_delimiter() {
    let bytes: Vec<u8> = b"{\"Join\":\"general\"}".to_vec();
    assert_eq!(
        receive_command(bytes.len(), &bytes).unwrap(),
        ChatCommand::Join(String::from("general"))
    );
}

#[test]
fn clock_reads_as_epoch_millis() {
    let t1 = chat_core::channel::now_millis();
    assert!(t1 > 0);
}

#[test]
fn frames_end_with_exactly_one_delimiter() {
    let frame = encode_command_frame(&ChatCommand::SendMessage(Message {
        sender: String::from("client"),
        content: String::from("two\nlines"),
        timestamp: 1,
    }));
    assert_eq!(*frame.last().unwrap(), b'\n');
    assert_eq!(frame.iter().filter(|b| **b == b'\n').count(), 1);
}
