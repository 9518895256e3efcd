use vstd::prelude::*;

verus! {

/// Why a node refuses an inbound message. Every variant is fatal for the
/// node: the caller is expected to stop the process.
#[derive(Clone, Copy, Debug, PartialEq, Eq, Structural)]
pub enum ProtocolError {
    /// A response was requested from a node that has no identity yet.
    Uninitialized,
    /// The envelope, or a field the handler reads, is absent or has the wrong shape.
    Malformed,
    /// `init` arrived after the handshake.
    AlreadyInitialized,
    /// The message type has no handler on this node.
    UnknownType,
    /// The message-id counter cannot hand out the ids the operation needs.
    IdsExhausted,
    /// A counter entry would leave the range of a signed 64-bit integer.
    CounterOverflow,
}

/// What is said of each error in diagnostics.
pub open spec fn description(error: ProtocolError) -> Seq<char> {
    match error {
        ProtocolError::Uninitialized => "uninitialized node cannot send responses"@,
        ProtocolError::Malformed => "malformed message"@,
        ProtocolError::AlreadyInitialized => "node is already initialized"@,
        ProtocolError::UnknownType => "unknown message type"@,
        ProtocolError::IdsExhausted => "message ids are exhausted"@,
        ProtocolError::CounterOverflow => "counter entry out of range"@,
    }
}

impl ProtocolError {
    /// A short description for diagnostics.
    pub fn describe(&self) -> (text: &'static str)
        ensures
            text@ == description(*self),
    {
        match self {
            ProtocolError::Uninitialized => "uninitialized node cannot send responses",
            ProtocolError::Malformed => "malformed message",
            ProtocolError::AlreadyInitialized => "node is already initialized",
            ProtocolError::UnknownType => "unknown message type",
            ProtocolError::IdsExhausted => "message ids are exhausted",
            ProtocolError::CounterOverflow => "counter entry out of range",
        }
    }
}

} // verus!
