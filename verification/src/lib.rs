//! Core logic of a minimal line-delimited JSON chat service.
//!
//! The library holds everything that can be stated and proved about the
//! protocol: the wire codec for the command/response vocabulary, the framing
//! discipline, the per-connection server reaction, the client controller's
//! decision table, and the one-shot shutdown switch. The surrounding binary
//! (sockets, terminal, clocks) drives these functions and performs the I/O.

use vstd::prelude::*;

pub mod channel;
pub mod client;
pub mod codec;
pub mod server;

verus! {

/// The two error kinds of the protocol, plus an internal catch-all.
///
/// `Network` covers transport-level failures (connect, read, write, peer
/// closed); `Protocol` covers framing and codec failures (malformed or
/// unexpected frames). Both are terminal for the affected connection.
#[derive(Debug, Clone, PartialEq, Eq)]
pub enum ChatError {
    Network(String),
    Protocol(String),
    Internal(String),
}

/// One chat message, immutable once constructed by the sending side.
/// `timestamp` is milliseconds since the Unix epoch.
#[derive(Debug, Clone, PartialEq, Eq)]
pub struct Message {
    pub sender: String,
    pub content: String,
    pub timestamp: u64,
}

/// A client-originated intent sent to the server.
#[derive(Debug, Clone, PartialEq, Eq)]
pub enum ChatCommand {
    SendMessage(Message),
    Join(String),
    Leave(String),
}

/// A server-originated event sent to a client.
#[derive(Debug, Clone, PartialEq, Eq)]
pub enum ChatResponse {
    MessageReceived(Message),
    Joined(String),
    Left(String),
    Error(String),
}

pub type ChatResult<T> = Result<T, ChatError>;

/// Mathematical model of a [`Message`]: the two strings as character
/// sequences, the timestamp as is.
#[verifier::ext_equal]
pub struct MessageView {
    pub sender: Seq<char>,
    pub content: Seq<char>,
    pub timestamp: u64,
}

/// Mathematical model of a [`ChatCommand`].
#[verifier::ext_equal]
pub enum CommandView {
    SendMessage(MessageView),
    Join(Seq<char>),
    Leave(Seq<char>),
}

/// Mathematical model of a [`ChatResponse`].
#[verifier::ext_equal]
pub enum ResponseView {
    MessageReceived(MessageView),
    Joined(Seq<char>),
    Left(Seq<char>),
    Error(Seq<char>),
}

/// Mathematical model of a [`ChatError`].
#[verifier::ext_equal]
pub enum ErrorView {
    Network(Seq<char>),
    Protocol(Seq<char>),
    Internal(Seq<char>),
}

impl View for Message {
    type V = MessageView;

    open spec fn view(&self) -> MessageView {
        MessageView { sender: self.sender@, content: self.content@, timestamp: self.timestamp }
    }
}

impl View for ChatCommand {
    type V = CommandView;

    open spec fn view(&self) -> CommandView {
        match self {
            ChatCommand::SendMessage(m) => CommandView::SendMessage(m@),
            ChatCommand::Join(room) => CommandView::Join(room@),
            ChatCommand::Leave(room) => CommandView::Leave(room@),
        }
    }
}

impl View for ChatResponse {
    type V = ResponseView;

    open spec fn view(&self) -> ResponseView {
        match self {
            ChatResponse::MessageReceived(m) => ResponseView::MessageReceived(m@),
            ChatResponse::Joined(user) => ResponseView::Joined(user@),
            ChatResponse::Left(user) => ResponseView::Left(user@),
            ChatResponse::Error(reason) => ResponseView::Error(reason@),
        }
    }
}

impl View for ChatError {
    type V = ErrorView;

    open spec fn view(&self) -> ErrorView {
        match self {
            ChatError::Network(s) => ErrorView::Network(s@),
            ChatError::Protocol(s) => ErrorView::Protocol(s@),
            ChatError::Internal(s) => ErrorView::Internal(s@),
        }
    }
}

pub fn add(left: u64, right: u64) -> (r: u64)
    requires
        left + right <= u64::MAX,
    ensures
        r == left + right,
{
    left + right
}

} // verus!
