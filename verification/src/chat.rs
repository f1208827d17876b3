use vstd::prelude::*;
use crate::frame::{response_frame, WebSocketFrameParser};
use crate::sessions::WebSocketCommands;

verus! {

/// A chat message as the clients exchange it. On the wire it is JSON: `username` is
/// written as a hyphenated UUID and never read from a client, `message_type` is
/// named `messageType`.
pub struct ChatMessage {
    pub comment: String,
    /// The sender's session id, as the 128 bits of its UUID.
    pub username: u128,
    pub message_type: String,
}

/// The message with the sender's session id put in as its user name.
pub fn stamp_username(message: ChatMessage, uuid: u128) -> (stamped: ChatMessage)
    ensures
        stamped.comment@ == message.comment@,
        stamped.username == uuid,
        stamped.message_type@ == message.message_type@,
{
    let mut message = message;
    message.username = uuid;
    message
}

/// The command that sends a serialized message to every session, packed as a frame.
pub fn broadcast_command(serialized: &[u8]) -> (command: WebSocketCommands)
    ensures
        command matches WebSocketCommands::WebSocketBroadcast(frame)
            && frame@ == response_frame(serialized@),
{
    WebSocketCommands::WebSocketBroadcast(WebSocketFrameParser::send_response(serialized))
}

} // verus!
