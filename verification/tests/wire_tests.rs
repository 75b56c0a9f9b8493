use std::time::Duration;

use chat_core::channel::{build_send_message, encode_command_frame, receive_command, receive_response};
use chat_core::server::{server_step, ServerStep};
use chat_core::{ChatCommand, ChatError, ChatResponse};
use tokio::io::{AsyncBufReadExt, AsyncRead, AsyncReadExt, AsyncWrite, AsyncWriteExt, BufReader};

fn runtime() -> tokio::runtime::Runtime {
    tokio::runtime::Builder::new_current_thread().enable_time().build().unwrap()
}

/// A connected pair of byte streams, each end readable and writable.
fn pair() -> (tokio::io::DuplexStream, tokio::io::DuplexStream) {
    tokio::io::duplex(1 << 20)
}

/// One per-connection handler: read frames, react, reply, until the first
/// receive failure.
async fn run_echo_server<S: AsyncRead + AsyncWrite + Unpin>(stream: S) {
    let mut reader = BufReader::new(stream);
    let mut buf = Vec::new();
    loop {
        buf.clear();
        match reader.read_until(b'\n', &mut buf).await {
            Ok(n) => match server_step(n, &buf) {
                ServerStep::Reply(frame) => {
                    if reader.get_mut().write_all(&frame).await.is_err() {
                        break;
                    }
                }
                ServerStep::Close(_) => break,
            },
            Err(_) => break,
        }
    }
}

#[test]
fn frame_bytes_appends_delimiter_only_when_absent() {
    let mut b = b"abc".to_vec();
    chat_core::channel::frame_bytes(&mut b);
    assert_eq!(b, b"abc\n");
    chat_core::channel::frame_bytes(&mut b);
    assert_eq!(b, b"abc\n");
}

#[test]
fn write_then_read_reconstructs_payload_of_any_size() {
    runtime().block_on(async {
        let (mut client, server) = pair();
        let big: String = "héllo wörld 🎈 line\nbreak ".repeat(64);
        let payloads = vec![String::new(), String::from("a"), big];
        let mut reader = BufReader::new(server);
        let mut buf = Vec::new();
        for p in payloads {
            let cmd = build_send_message(p.as_str(), 7);
            client.write_all(&encode_command_frame(&cmd)).await.unwrap();
            buf.clear();
            let n = reader.read_until(b'\n', &mut buf).await.unwrap();
            let got = receive_command(n, &buf).unwrap();
            assert_eq!(got, cmd);
        }
    });
}

#[test]
fn responses_arrive_in_command_order() {
    runtime().block_on(async {
        let (client, server) = pair();
        let server_task = tokio::spawn(run_echo_server(server));
        let (read_half, mut write_half) = tokio::io::split(client);
        let a = build_send_message("first", 1);
        let b = build_send_message("second", 2);
        write_half.write_all(&encode_command_frame(&a)).await.unwrap();
        write_half.write_all(&encode_command_frame(&b)).await.unwrap();
        let mut reader = BufReader::new(read_half);
        let mut buf = Vec::new();
        let n = reader.read_until(b'\n', &mut buf).await.unwrap();
        let first = receive_response(n, &buf).unwrap();
        buf.clear();
        let n = reader.read_until(b'\n', &mut buf).await.unwrap();
        let second = receive_response(n, &buf).unwrap();
        match (first, second) {
            (ChatResponse::MessageReceived(m1), ChatResponse::MessageReceived(m2)) => {
                assert_eq!(m1.content, "first");
                assert_eq!(m2.content, "second");
            }
            other => panic!("expected two echoes in order, got {:?}", other),
        }
        write_half.shutdown().await.unwrap();
        let _ = server_task.await;
    });
}

#[test]
fn peer_close_is_a_network_error_not_a_decode_error() {
    runtime().block_on(async {
        let (client, server) = pair();
        drop(client);
        let mut reader = BufReader::new(server);
        let mut buf = Vec::new();
        let n = reader.read_until(b'\n', &mut buf).await.unwrap();
        assert_eq!(n, 0);
        match receive_command(n, &buf) {
            Err(ChatError::Network(reason)) => assert_eq!(reason, "connection closed"),
            other => panic!("expected the connection-closed error, got {:?}", other),
        }
    });
}

#[test]
fn malformed_line_gives_one_protocol_error_without_corrupting_later_reads() {
    runtime().block_on(async {
        let (mut client, server) = pair();
        client.write_all(b"this is not json\n").await.unwrap();
        let valid = ChatCommand::Join(String::from("general"));
        client.write_all(&encode_command_frame(&valid)).await.unwrap();
        let mut reader = BufReader::new(server);
        let mut buf = Vec::new();
        let n = reader.read_until(b'\n', &mut buf).await.unwrap();
        assert!(matches!(receive_command(n, &buf), Err(ChatError::Protocol(_))));
        buf.clear();
        let n = reader.read_until(b'\n', &mut buf).await.unwrap();
        assert_eq!(receive_command(n, &buf).unwrap(), valid);
    });
}

#[test]
fn hello_is_echoed_to_its_sender_only() {
    runtime().block_on(async {
        let (mut client1, handler1) = pair();
        let (mut client2, handler2) = pair();
        let task1 = tokio::spawn(run_echo_server(handler1));
        let task2 = tokio::spawn(run_echo_server(handler2));

        let cmd = build_send_message("hello", 12345);
        client1.write_all(&encode_command_frame(&cmd)).await.unwrap();

        let mut reader = BufReader::new(&mut client1);
        let mut buf = Vec::new();
        let n = reader.read_until(b'\n', &mut buf).await.unwrap();
        match receive_response(n, &buf).unwrap() {
            ChatResponse::MessageReceived(m) => {
                assert_eq!(m.sender, "client");
                assert_eq!(m.content, "hello");
                assert_eq!(m.timestamp, 12345);
            }
            other => panic!("expected the echo, got {:?}", other),
        }

        let mut one = [0u8; 1];
        let silent = tokio::time::timeout(Duration::from_millis(200), client2.read(&mut one)).await;
        assert!(silent.is_err(), "no other connected client receives the echo");

        drop(client1);
        drop(client2);
        let _ = task1.await;
        let _ = task2.await;
    });
}
