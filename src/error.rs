use vstd::prelude::*;

verus! {

/// Errors of the broadcast cache and of the objects built on it.
#[derive(Debug, Clone, Copy, PartialEq, Eq, Structural)]
pub enum ServeError {
    /// The handle was closed normally.
    Closed,
    /// The handle was dropped or cancelled locally.
    Cancel,
    /// The operation came after the handle was done.
    Done,
    /// No such broadcast, track or subscription.
    NotFound,
    /// The entry is already registered.
    Duplicate,
    /// The operation does not fit the current writer mode.
    Mode,
    /// No local or remote origin serves the broadcast.
    UnknownBroadcast,
    /// The producer dropped the group with this code.
    GroupDropped(u32),
}

} // verus!
