//! The shared vocabulary of failures.

use vstd::prelude::*;

verus! {

/// Everything that can go wrong on a connection or for a single request.
#[derive(Clone, Copy, Debug, PartialEq, Eq, Structural)]
pub enum RpcError {
    /// The transport failed while reading or writing.
    IoError,
    /// A frame was malformed, too large, or carried an unknown payload
    /// kind; or the rules of the protocol were broken in another way, or
    /// its ids are used up.
    ProtocolError,
    /// The remote speaks another protocol version; the handshake was rejected.
    VersionMismatch,
    /// The remote could not be authenticated during the handshake.
    AuthFailed,
    /// The caller's deadline elapsed before a response arrived.
    Timeout,
    /// The connection closed while the request was outstanding.
    ConnectionLost,
    /// A response arrived for which nobody is waiting, or an answer was to
    /// be sent to a request that is not open.
    UnmatchedResponse,
}

impl RpcError {
    /// Whether a connection on which this error occurs must be torn down.
    pub open spec fn is_fatal(self) -> bool {
        self is IoError || self is ProtocolError || self is VersionMismatch || self is AuthFailed
    }

    /// Whether a connection on which this error occurs must be torn down.
    /// Timeouts and unmatched responses are local events; `ConnectionLost`
    /// reports a teardown that has already happened.
    pub fn closes_connection(&self) -> (fatal: bool)
        ensures
            fatal == self.is_fatal(),
    {
        match self {
            RpcError::IoError => true,
            RpcError::ProtocolError => true,
            RpcError::VersionMismatch => true,
            RpcError::AuthFailed => true,
            RpcError::Timeout => false,
            RpcError::ConnectionLost => false,
            RpcError::UnmatchedResponse => false,
        }
    }
}

} // verus!
