use vstd::prelude::*;

verus! {

/// The recoverable and fatal failure conditions of the overlay node.
///
/// Every condition except `FatalInput` is recovered locally: the offending
/// dial, connection or message is dropped and the node keeps running. Only
/// the loss of the operator's own input channel ends the process.
#[derive(Clone, Copy, Debug, PartialEq, Eq, Structural)]
pub enum NodeError {
    /// A dial target string is not a well-formed multiaddress.
    AddressParse,
    /// No configured transport candidate matches the address scheme.
    TransportDial,
    /// The authenticated key exchange on a new connection failed.
    Handshake,
    /// The two endpoints share no stream-multiplexing protocol.
    MultiplexNegotiation,
    /// The transport/security/multiplexer upgrade chain exceeded its deadline.
    UpgradeTimeout,
    /// A single peer sent a malformed protocol message; only that message
    /// (and optionally that peer) is affected.
    PerPeerProtocol,
    /// The local control-input channel closed or errored in interactive mode.
    FatalInput,
}

impl NodeError {
    /// Whether the error may end the whole process rather than one
    /// connection or message.
    pub open spec fn spec_is_fatal(self) -> bool {
        self is FatalInput
    }

    pub fn is_fatal(&self) -> (r: bool)
        ensures
            r == self.spec_is_fatal(),
    {
        match self {
            NodeError::FatalInput => true,
            _ => false,
        }
    }
}

} // verus!
