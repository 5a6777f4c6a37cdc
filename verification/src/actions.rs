//! The plain vocabulary exchanged between the chat engine's callers: what
//! the interface asks the connection to do, and who a displayed message
//! is attributed to.

use vstd::prelude::*;

verus! {

/// A request from the interface to the connection.
pub enum ClientAction {
    /// Send this text as a chat message.
    SendChatMessage(String),
}

/// Who a chat line is shown as coming from.
#[derive(Debug, Clone, PartialEq)]
pub enum MessageName {
    /// The server itself.
    Server,
    /// The server, as a warning.
    ServerWarn,
    /// A user, by nickname.
    User(Vec<u8>),
    /// Nobody: the line carries no sender mark.
    Anonymous,
}

} // verus!
