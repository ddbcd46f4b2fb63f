//! The error values the router surfaces to its callers.

use vstd::prelude::*;

verus! {

/// A failure reported by a router operation.
///
/// Every recoverable failure is surfaced as an explicit value to the
/// immediate caller; nothing is retried by the router itself.
#[derive(Clone, Copy, Debug, PartialEq, Eq, Structural)]
pub enum ServerError {
    /// A response sink refused a payload. The code is chosen by the sink and
    /// passed through unchanged, aborting the remaining deliveries of the
    /// batch in which it occurred.
    Delivery(u64),
    /// A close was issued for a session identifier that has no registry
    /// entry, that is, one that was never created or was already closed.
    UnknownSession,
}

} // verus!
