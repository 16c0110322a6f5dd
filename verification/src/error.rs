//! Why the stack, or a connection, failed; coarse on purpose.

use vstd::prelude::*;

verus! {

#[derive(Debug, Clone, Copy, PartialEq, Eq, Structural)]
pub enum Error {
    NoDevice,
    NoMemory,
    /// Key or table unreadable, or table not a power of two.
    RssUnavailable,
    DhcpTimeout,
    ArpTimeout,
    NoPorts,
    ConnectRejected,
    SynTimeout,
    Tls,
    /// Chunked transfer-encoding counts as one: it is not implemented.
    BadResponse,
    BufferTooSmall,
}

} // verus!
