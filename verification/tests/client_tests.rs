use chat_core::client::{
    handle_server_event, loop_step, user_line_action, LoopEvent, LoopStep, ServerEventAction,
    ShutdownSwitch, UserLineAction,
};
use chat_core::{ChatCommand, ChatError, ChatResponse, Message};

#[test]
fn parse_join_with_argument() {
    let action = user_line_action("/join general", 5);
    assert_eq!(action, UserLineAction::Send(ChatCommand::Join(String::from("general"))));
}

#[test]
fn parse_leave_with_argument() {
    let action = user_line_action("/leave general", 5);
    assert_eq!(action, UserLineAction::Send(ChatCommand::Leave(String::from("general"))));
}

#[test]
fn parse_quit_has_empty_argument() {
    assert_eq!(user_line_action("/quit", 5), UserLineAction::Quit);
}

#[test]
fn parse_join_without_argument_sends_empty_room() {
    assert_eq!(user_line_action("/join", 5), UserLineAction::Send(ChatCommand::Join(String::new())));
}

#[test]
fn parse_argument_keeps_later_spaces() {
    let action = user_line_action("/join general chat room", 5);
    assert_eq!(
        action,
        UserLineAction::Send(ChatCommand::Join(String::from("general chat room")))
    );
}

#[test]
fn plain_line_is_message_content_never_a_command() {
    let action = user_line_action("hello", 42);
    assert_eq!(
        action,
        UserLineAction::Send(ChatCommand::SendMessage(Message {
            sender: String::from("client"),
            content: String::from("hello"),
            timestamp: 42,
        }))
    );
    let slashless = user_line_action("join general", 42);
    assert_eq!(
        slashless,
        UserLineAction::Send(ChatCommand::SendMessage(Message {
            sender: String::from("client"),
            content: String::from("join general"),
            timestamp: 42,
        }))
    );
}

#[test]
fn unknown_sub_command_is_reported() {
    assert_eq!(
        user_line_action("/frobnicate now", 5),
        UserLineAction::Unknown(String::from("frobnicate"))
    );
}

#[test]
fn server_message_is_rendered_verbatim() {
    let event = ChatResponse::MessageReceived(Message {
        sender: String::from("client"),
        content: String::from("hello"),
        timestamp: 1,
    });
    assert_eq!(handle_server_event(&event), ServerEventAction::Render(String::from("hello")));
}

#[test]
fn membership_events_are_rendered() {
    assert_eq!(
        handle_server_event(&ChatResponse::Joined(String::from("bob"))),
        ServerEventAction::Render(String::from("User bob joined the chat"))
    );
    assert_eq!(
        handle_server_event(&ChatResponse::Left(String::from("bob"))),
        ServerEventAction::Render(String::from("User bob left the chat"))
    );
}

#[test]
fn server_error_stops_the_loop() {
    assert_eq!(
        handle_server_event(&ChatResponse::Error(String::from("boom"))),
        ServerEventAction::Stop
    );
    let step = loop_step(
        LoopEvent::ServerEvent(Ok(ChatResponse::Error(String::from("boom")))),
        0,
    );
    assert_eq!(step, LoopStep { render: None, send: None, stop: true });
}

#[test]
fn channel_failure_notifies_then_stops() {
    let step = loop_step(
        LoopEvent::ServerEvent(Err(ChatError::Network(String::from("connection closed")))),
        0,
    );
    assert_eq!(
        step,
        LoopStep {
            render: Some(String::from("Connection error: Network error: connection closed")),
            send: None,
            stop: true,
        }
    );
}

#[test]
fn quit_renders_notice_and_stops() {
    let step = loop_step(LoopEvent::UserLine(Ok(String::from("/quit"))), 0);
    assert_eq!(
        step,
        LoopStep { render: Some(String::from("Shutting down...")), send: None, stop: true }
    );
}

#[test]
fn typed_message_is_sent_and_loop_continues() {
    let step = loop_step(LoopEvent::UserLine(Ok(String::from("hi"))), 9);
    assert_eq!(
        step,
        LoopStep {
            render: None,
            send: Some(ChatCommand::SendMessage(Message {
                sender: String::from("client"),
                content: String::from("hi"),
                timestamp: 9,
            })),
            stop: false,
        }
    );
}

#[test]
fn unknown_command_notice_is_not_fatal() {
    let step = loop_step(LoopEvent::UserLine(Ok(String::from("/shout loud"))), 0);
    assert_eq!(
        step,
        LoopStep {
            render: Some(String::from("Unknown command: /shout")),
            send: None,
            stop: false,
        }
    );
}

#[test]
fn input_source_failure_stops_silently() {
    let step = loop_step(
        LoopEvent::UserLine(Err(ChatError::Internal(String::from("input gone")))),
        0,
    );
    assert_eq!(step, LoopStep { render: None, send: None, stop: true });
}

#[test]
fn send_failure_is_reported_with_its_kind() {
    let notice = chat_core::client::send_failure_notice(&ChatError::Network(String::from(
        "failed to send bytes: broken pipe",
    )));
    assert_eq!(notice, "Error sending: Network error: failed to send bytes: broken pipe");
}

#[test]
fn shutdown_fires_once_then_fails_explicitly() {
    let mut switch = ShutdownSwitch::new();
    assert!(switch.fire().is_ok());
    assert!(matches!(switch.fire(), Err(ChatError::Internal(_))));
    assert!(matches!(switch.fire(), Err(ChatError::Internal(_))));
}

#[test]
fn shutdown_failure_names_the_double_send() {
    let mut switch = ShutdownSwitch::new();
    let _ = switch.fire();
    match switch.fire() {
        Err(ChatError::Internal(reason)) => assert_eq!(reason, "shutdown signal already sent"),
        other => panic!("second fire must fail explicitly, got {:?}", other),
    }
}
