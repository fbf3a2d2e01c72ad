//! The error taxonomy of the bridge.
use vstd::prelude::*;

verus! {

/// Errors that can occur in the daemon bridge.
#[derive(Clone, Copy, Debug, PartialEq, Eq, Structural)]
pub enum DaemonError {
    /// No daemon process is active.
    NotRunning,
    /// A daemon process is already active.
    AlreadyRunning,
    /// The operating system failed to launch the daemon executable.
    SpawnError,
    /// No candidate path held an existing daemon executable.
    BinaryNotFound,
    /// Writing or flushing the daemon's input stream failed, or a reply
    /// channel was closed before a reply arrived.
    SendError,
    /// A wire message could not be encoded or decoded.
    JsonError,
    /// No reply arrived within the deadline.
    Timeout,
    /// The daemon explicitly signaled failure in a reply payload.
    DaemonError,
}

} // verus!
