//! The uniform error type for daemon communication.
//!
//! Every RPC operation either fails to reach the daemon (the transport is
//! down, the call timed out, the reply was malformed) or is rejected by the
//! daemon itself with an application-level message.  The two cases are kept
//! apart because callers degrade differently: transport failures at startup
//! are terminal for the session, daemon failures are surfaced per call.

use vstd::prelude::*;

verus! {

/// Why a call to the daemon failed.
pub enum DbusError {
    /// The daemon could not be reached: connection lost, call timeout, or a
    /// malformed reply.  Carries a human-readable description.
    Transport(Vec<u8>),
    /// The daemon was reached but rejected the call; carries the message the
    /// daemon reported.
    Daemon(Vec<u8>),
}

impl DbusError {
    /// True for the transport-level case.
    pub fn is_transport(&self) -> (r: bool)
        ensures
            r == (self is Transport),
    {
        match self {
            DbusError::Transport(_) => true,
            DbusError::Daemon(_) => false,
        }
    }

    /// The message carried by either case.
    pub fn message(&self) -> (r: &Vec<u8>)
        ensures
            r@ == self.spec_message(),
    {
        match self {
            DbusError::Transport(m) => m,
            DbusError::Daemon(m) => m,
        }
    }

    /// The message carried by either case, as a sequence of bytes.
    pub open spec fn spec_message(&self) -> Seq<u8> {
        match self {
            DbusError::Transport(m) => m@,
            DbusError::Daemon(m) => m@,
        }
    }
}

} // verus!
