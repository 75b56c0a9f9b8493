//! The client controller's decision logic.
//!
//! The controller multiplexes three event sources — inbound responses, typed
//! lines, and a one-shot shutdown signal. Everything it decides is a pure
//! function from the event to an action: what to hand the presentation layer,
//! what to put on the wire, and whether to stop. The loop that awaits the
//! sources and performs the actions lives outside the library.

use vstd::prelude::*;

use crate::channel::build_send_message;
use crate::codec::str_to_chars;
use crate::{ChatCommand, ChatError, ChatResponse, CommandView, ErrorView, MessageView, ResponseView};
use vstd::string::StrSliceExecFns;
use vstd::string::StringExecFns;

verus! {

// ---------------------------------------------------------------------------
// Typed lines: the command prefix and its sub-commands
// ---------------------------------------------------------------------------

/// The index of the first space at or after `i`, or the length if none.
pub open spec fn space_index(s: Seq<char>, i: int) -> int
    decreases s.len() - i,
{
    if i < 0 || i >= s.len() {
        s.len() as int
    } else if s[i] == ' ' {
        i
    } else {
        space_index(s, i + 1)
    }
}

/// The sub-command name of a prefixed line: everything between the prefix and
/// the first space.
pub open spec fn command_name(line: Seq<char>) -> Seq<char> {
    line.subrange(1, space_index(line, 1))
}

/// The argument of a prefixed line: everything after the first space, empty if
/// there is no space.
pub open spec fn command_args(line: Seq<char>) -> Seq<char> {
    let j = space_index(line, 1);
    if j == line.len() {
        Seq::empty()
    } else {
        line.subrange(j + 1, line.len() as int)
    }
}

/// The action one typed line translates to.
#[derive(Debug, Clone, PartialEq, Eq)]
pub enum UserLineAction {
    /// Put this command on the wire.
    Send(ChatCommand),
    /// Ask the loop to terminate.
    Quit,
    /// An unrecognized sub-command: notify the user, carry on.
    Unknown(String),
}

/// Mathematical model of a [`UserLineAction`].
#[verifier::ext_equal]
pub enum UserLineActionView {
    Send(CommandView),
    Quit,
    Unknown(Seq<char>),
}

impl View for UserLineAction {
    type V = UserLineActionView;

    open spec fn view(&self) -> UserLineActionView {
        match self {
            UserLineAction::Send(c) => UserLineActionView::Send(c@),
            UserLineAction::Quit => UserLineActionView::Quit,
            UserLineAction::Unknown(name) => UserLineActionView::Unknown(name@),
        }
    }
}

/// What one typed line means: a line without the prefix is sent verbatim as a
/// message; `/join` and `/leave` become the room commands with the remainder
/// as argument; `/quit` asks the loop to stop; any other sub-command is
/// reported back, non-fatally.
pub open spec fn user_line_action_spec(line: Seq<char>, timestamp: u64) -> UserLineActionView {
    if line.len() == 0 || line[0] != '/' {
        UserLineActionView::Send(
            CommandView::SendMessage(
                MessageView { sender: "client"@, content: line, timestamp },
            ),
        )
    } else {
        let name = command_name(line);
        let args = command_args(line);
        if name == "join"@ {
            UserLineActionView::Send(CommandView::Join(args))
        } else if name == "leave"@ {
            UserLineActionView::Send(CommandView::Leave(args))
        } else if name == "quit"@ {
            UserLineActionView::Quit
        } else {
            UserLineActionView::Unknown(name)
        }
    }
}

/// Translates one typed line into the action the controller takes.
pub fn user_line_action(line: &str, timestamp: u64) -> (r: UserLineAction)
    ensures
        r@ == user_line_action_spec(line@, timestamp),
{
    let chars = str_to_chars(line);
    let n = chars.len();
    if n == 0 || chars[0] != '/' {
        return UserLineAction::Send(build_send_message(line, timestamp));
    }
    let mut j: usize = 1;
    while j < n && chars[j] != ' '
        invariant
            1 <= j <= n,
            n == chars@.len(),
            chars@ == line@,
            space_index(line@, 1) == space_index(line@, j as int),
        decreases n - j,
    {
        j = j + 1;
    }
    assert(space_index(line@, 1) == j);
    let name = line.substring_char(1, j).to_owned();
    assert(name@ == command_name(line@));
    let args = if j == n {
        String::new()
    } else {
        line.substring_char(j + 1, n).to_owned()
    };
    assert(args@ == command_args(line@));
    if name == String::from_str("join") {
        UserLineAction::Send(ChatCommand::Join(args))
    } else if name == String::from_str("leave") {
        UserLineAction::Send(ChatCommand::Leave(args))
    } else if name == String::from_str("quit") {
        UserLineAction::Quit
    } else {
        UserLineAction::Unknown(name)
    }
}

// ---------------------------------------------------------------------------
// Inbound responses
// ---------------------------------------------------------------------------

/// The text of an error, with its kind spelled out.
pub open spec fn error_text(e: ErrorView) -> Seq<char> {
    match e {
        ErrorView::Network(s) => "Network error: "@ + s,
        ErrorView::Protocol(s) => "Protocol error: "@ + s,
        ErrorView::Internal(s) => "Internal error: "@ + s,
    }
}

impl ChatError {
    /// The error as a user-readable line, kind first.
    pub fn describe(&self) -> (r: String)
        ensures
            r@ == error_text(self@),
    {
        match self {
            ChatError::Network(s) => {
                let mut out = String::from_str("Network error: ");
                out.append(s.as_str());
                out
            },
            ChatError::Protocol(s) => {
                let mut out = String::from_str("Protocol error: ");
                out.append(s.as_str());
                out
            },
            ChatError::Internal(s) => {
                let mut out = String::from_str("Internal error: ");
                out.append(s.as_str());
                out
            },
        }
    }
}

/// The notice the presentation layer gets when a send fails: send failures
/// are reported, never fatal.
pub fn send_failure_notice(e: &ChatError) -> (r: String)
    ensures
        r@ == "Error sending: "@ + error_text(e@),
{
    let mut out = String::from_str("Error sending: ");
    out.append(e.describe().as_str());
    out
}

/// What the controller does with one inbound response.
#[derive(Debug, Clone, PartialEq, Eq)]
pub enum ServerEventAction {
    /// Forward this line to the presentation layer and continue.
    Render(String),
    /// The server signaled a protocol-level problem: terminate the loop.
    Stop,
}

/// Mathematical model of a [`ServerEventAction`].
#[verifier::ext_equal]
pub enum ServerEventActionView {
    Render(Seq<char>),
    Stop,
}

impl View for ServerEventAction {
    type V = ServerEventActionView;

    open spec fn view(&self) -> ServerEventActionView {
        match self {
            ServerEventAction::Render(s) => ServerEventActionView::Render(s@),
            ServerEventAction::Stop => ServerEventActionView::Stop,
        }
    }
}

/// What one inbound response means: messages and membership events are
/// rendered; a server error is fatal for the loop.
pub open spec fn server_event_action_spec(r: ResponseView) -> ServerEventActionView {
    match r {
        ResponseView::MessageReceived(m) => ServerEventActionView::Render(m.content),
        ResponseView::Joined(user) => ServerEventActionView::Render(
            "User "@ + user + " joined the chat"@,
        ),
        ResponseView::Left(user) => ServerEventActionView::Render(
            "User "@ + user + " left the chat"@,
        ),
        ResponseView::Error(_) => ServerEventActionView::Stop,
    }
}

/// Dispatches one inbound response.
pub fn handle_server_event(event: &ChatResponse) -> (r: ServerEventAction)
    ensures
        r@ == server_event_action_spec(event@),
{
    match event {
        ChatResponse::MessageReceived(m) => ServerEventAction::Render(m.content.clone()),
        ChatResponse::Joined(user) => {
            let mut out = String::from_str("User ");
            out.append(user.as_str());
            out.append(" joined the chat");
            ServerEventAction::Render(out)
        },
        ChatResponse::Left(user) => {
            let mut out = String::from_str("User ");
            out.append(user.as_str());
            out.append(" left the chat");
            ServerEventAction::Render(out)
        },
        ChatResponse::Error(_) => ServerEventAction::Stop,
    }
}

// ---------------------------------------------------------------------------
// The select loop's decision table
// ---------------------------------------------------------------------------

/// One iteration's input: whichever event source became ready first.
#[derive(Debug, PartialEq, Eq)]
pub enum LoopEvent {
    /// The channel's receive completed, with a response or a channel error.
    ServerEvent(Result<ChatResponse, ChatError>),
    /// The input source yielded a typed line, or failed (its side is gone).
    UserLine(Result<String, ChatError>),
}

/// Mathematical model of a [`LoopEvent`].
#[verifier::ext_equal]
pub enum LoopEventView {
    ServerEvent(Result<ResponseView, ErrorView>),
    UserLine(Result<Seq<char>, ErrorView>),
}

impl View for LoopEvent {
    type V = LoopEventView;

    open spec fn view(&self) -> LoopEventView {
        match self {
            LoopEvent::ServerEvent(Ok(resp)) => LoopEventView::ServerEvent(Ok(resp@)),
            LoopEvent::ServerEvent(Err(e)) => LoopEventView::ServerEvent(Err(e@)),
            LoopEvent::UserLine(Ok(line)) => LoopEventView::UserLine(Ok(line@)),
            LoopEvent::UserLine(Err(e)) => LoopEventView::UserLine(Err(e@)),
        }
    }
}

/// What the controller does in one iteration: at most one line for the
/// presentation layer, at most one command for the wire, and whether the loop
/// terminates after this iteration.
#[derive(Debug, Clone, PartialEq, Eq)]
pub struct LoopStep {
    pub render: Option<String>,
    pub send: Option<ChatCommand>,
    pub stop: bool,
}

/// Mathematical model of a [`LoopStep`].
#[verifier::ext_equal]
pub struct LoopStepView {
    pub render: Option<Seq<char>>,
    pub send: Option<CommandView>,
    pub stop: bool,
}

impl View for LoopStep {
    type V = LoopStepView;

    open spec fn view(&self) -> LoopStepView {
        LoopStepView {
            render: match &self.render {
                Some(s) => Some(s@),
                None => None,
            },
            send: match &self.send {
                Some(c) => Some(c@),
                None => None,
            },
            stop: self.stop,
        }
    }
}

/// The controller's full decision table, one iteration at a time.
pub open spec fn loop_step_spec(ev: LoopEventView, timestamp: u64) -> LoopStepView {
    match ev {
        LoopEventView::ServerEvent(Ok(resp)) => match server_event_action_spec(resp) {
            ServerEventActionView::Render(line) => LoopStepView {
                render: Some(line),
                send: None,
                stop: false,
            },
            ServerEventActionView::Stop => LoopStepView { render: None, send: None, stop: true },
        },
        LoopEventView::ServerEvent(Err(e)) => LoopStepView {
            render: Some("Connection error: "@ + error_text(e)),
            send: None,
            stop: true,
        },
        LoopEventView::UserLine(Ok(line)) => match user_line_action_spec(line, timestamp) {
            UserLineActionView::Send(c) => LoopStepView {
                render: None,
                send: Some(c),
                stop: false,
            },
            UserLineActionView::Quit => LoopStepView {
                render: Some("Shutting down..."@),
                send: None,
                stop: true,
            },
            UserLineActionView::Unknown(name) => LoopStepView {
                render: Some("Unknown command: /"@ + name),
                send: None,
                stop: false,
            },
        },
        LoopEventView::UserLine(Err(_)) => LoopStepView { render: None, send: None, stop: true },
    }
}

/// Decides one iteration of the select loop. `timestamp` is the wall clock
/// the sent message is stamped with, supplied by the caller at send time.
pub fn loop_step(ev: LoopEvent, timestamp: u64) -> (r: LoopStep)
    ensures
        r@ == loop_step_spec(ev@, timestamp),
{
    match ev {
        LoopEvent::ServerEvent(Ok(resp)) => match handle_server_event(&resp) {
            ServerEventAction::Render(line) => LoopStep {
                render: Some(line),
                send: None,
                stop: false,
            },
            ServerEventAction::Stop => LoopStep { render: None, send: None, stop: true },
        },
        LoopEvent::ServerEvent(Err(e)) => {
            let mut out = String::from_str("Connection error: ");
            out.append(e.describe().as_str());
            LoopStep { render: Some(out), send: None, stop: true }
        },
        LoopEvent::UserLine(Ok(line)) => match user_line_action(line.as_str(), timestamp) {
            UserLineAction::Send(c) => LoopStep { render: None, send: Some(c), stop: false },
            UserLineAction::Quit => LoopStep {
                render: Some(String::from_str("Shutting down...")),
                send: None,
                stop: true,
            },
            UserLineAction::Unknown(name) => {
                let mut out = String::from_str("Unknown command: /");
                out.append(name.as_str());
                LoopStep { render: Some(out), send: None, stop: false }
            },
        },
        LoopEvent::UserLine(Err(_)) => LoopStep { render: None, send: None, stop: true },
    }
}

// ---------------------------------------------------------------------------
// One-shot shutdown signal
// ---------------------------------------------------------------------------

/// The state of the one-shot shutdown signal: it fires at most once, and a
/// second attempt is a detectable logic error, never a silent success.
pub struct ShutdownSwitch {
    fired: bool,
}

impl ShutdownSwitch {
    /// Whether the signal has been sent.
    pub closed spec fn is_fired(&self) -> bool {
        self.fired
    }

    /// A fresh switch: nothing sent yet.
    pub fn new() -> (g: ShutdownSwitch)
        ensures
            !g.is_fired(),
    {
        ShutdownSwitch { fired: false }
    }

    /// Consumes the signal: the first attempt succeeds; every later attempt
    /// fails explicitly.
    pub fn fire(&mut self) -> (r: Result<(), ChatError>)
        ensures
            final(self).is_fired(),
            !old(self).is_fired() ==> r is Ok,
            old(self).is_fired() ==> (r matches Err(e) && e@ == ErrorView::Internal(
                "shutdown signal already sent"@,
            )),
    {
        if self.fired {
            Err(ChatError::Internal(String::from_str("shutdown signal already sent")))
        } else {
            self.fired = true;
            Ok(())
        }
    }
}

} // verus!
