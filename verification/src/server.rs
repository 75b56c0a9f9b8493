//! The server's per-connection reaction logic.
//!
//! One handler owns one connection: it reads commands, reacts, and writes
//! responses, in order, until the first receive failure. Handlers share no
//! mutable state, so a handler's failure is isolated to its own connection.
//! The accept loop and the socket reads live outside the library; they hand
//! each completed read in and take the reply frame out.

use vstd::prelude::*;

use crate::channel::{
    encode_response_frame, frame_to_command, receive_command, response_frame_bytes,
};
use crate::{ChatCommand, ChatError, ChatResponse, CommandView, ErrorView, ResponseView};
use vstd::string::StringExecFns;

verus! {

/// The server's reaction to one command: a message is echoed back to its own
/// sender — the baseline design has no fan-out — and the room commands, which
/// have no server-side effect yet, fail explicitly rather than silently.
pub open spec fn handle_command_spec(c: CommandView) -> ResponseView {
    match c {
        CommandView::SendMessage(m) => ResponseView::MessageReceived(m),
        CommandView::Join(_) => ResponseView::Error("join is not implemented"@),
        CommandView::Leave(_) => ResponseView::Error("leave is not implemented"@),
    }
}

/// Reacts to one received command.
pub fn handle_command(cmd: ChatCommand) -> (r: ChatResponse)
    ensures
        r@ == handle_command_spec(cmd@),
{
    match cmd {
        ChatCommand::SendMessage(m) => ChatResponse::MessageReceived(m),
        ChatCommand::Join(_) => ChatResponse::Error(
            String::from_str("join is not implemented"),
        ),
        ChatCommand::Leave(_) => ChatResponse::Error(
            String::from_str("leave is not implemented"),
        ),
    }
}

/// The responses one connection produces for a sequence of commands.
pub open spec fn server_responses(cmds: Seq<CommandView>) -> Seq<ResponseView> {
    cmds.map_values(|c: CommandView| handle_command_spec(c))
}

/// Ordering: over one connection the responses correspond to the commands
/// one-to-one and in the same order — the response to an earlier command
/// stands before the response to a later one.
pub proof fn lemma_response_ordering(cmds: Seq<CommandView>)
    ensures
        server_responses(cmds).len() == cmds.len(),
        forall|i: int|
            0 <= i < cmds.len() ==> server_responses(cmds)[i] == handle_command_spec(cmds[i]),
{
}

/// What the per-connection handler does after one completed read.
#[derive(Debug, Clone, PartialEq, Eq)]
pub enum ServerStep {
    /// Write this frame back on the same connection and keep the loop going.
    Reply(Vec<u8>),
    /// Terminate this connection's loop; the error says why.
    Close(ChatError),
}

/// Decides one iteration of the handler loop: a zero-byte read closes the
/// connection cleanly; a malformed frame closes it with a protocol error; a
/// command gets exactly its reaction's frame, echoed to the same connection.
pub fn server_step(n: usize, buf: &Vec<u8>) -> (r: ServerStep)
    ensures
        n == 0 ==> (r matches ServerStep::Close(e) && e@ == ErrorView::Network(
            "connection closed"@,
        )),
        n > 0 ==> (frame_to_command(buf@) matches Some(c) ==> (r matches ServerStep::Reply(frame)
            && frame@ == response_frame_bytes(handle_command_spec(c)))),
        n > 0 ==> (frame_to_command(buf@) is None ==> (r matches ServerStep::Close(e) && e@
            is Protocol)),
{
    match receive_command(n, buf) {
        Ok(cmd) => ServerStep::Reply(encode_response_frame(&handle_command(cmd))),
        Err(e) => ServerStep::Close(e),
    }
}

} // verus!
