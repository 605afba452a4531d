//! The errors the stack surfaces to its callers.

use vstd::prelude::*;

verus! {

/// Application-facing failures. Frame-level problems (malformed headers,
/// wrong protocol) never surface: such frames are dropped.
#[derive(Clone, Copy, Debug, PartialEq, Eq, Structural)]
pub enum TcpErr {
    /// `bind` of a local port that already has a listener.
    AddrInUse,
    /// The outbound queue is full, or a flush would have to wait.
    WouldBlock,
    /// The four-tuple is no longer present in the connection table.
    ConnectionAborted,
    /// `close` in a state that cannot close again.
    NotConnected,
}

} // verus!
