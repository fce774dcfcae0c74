//! Reasons for path-discovery pings on the connectivity socket.
//!
//! The socket itself, and everything that sends on it, lives with the
//! transport outside this crate; only the classification of ping purposes
//! is shared with the transfer core's callers.

use vstd::prelude::*;

verus! {

/// The reason why a discovery ping message was sent.
#[derive(Debug, Clone, Copy, PartialEq, Eq, Structural)]
pub enum DiscoPingPurpose {
    /// The ping checks whether a path is valid.
    Discovery,
    /// The ping checks whether a peer is still there.
    Heartbeat,
    /// The ping was requested from the command line; it may go over a relay.
    Cli,
}

} // verus!
