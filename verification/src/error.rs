use vstd::prelude::*;

verus! {

/// The failures a discovery session can report.
///
/// `InvalidAddress` is returned when a session is constructed with a
/// malformed multicast address override. `SocketCreationFailed` and
/// `SendFailed` are the vocabulary for the I/O layer that drives a
/// session: they stand for a socket that could not be opened and a
/// query that could not be transmitted. Failures inside the collection
/// loop (a lost or malformed datagram, a failed close at teardown) are
/// never reported: they count as no information gained.
#[derive(Debug, Clone, Copy, PartialEq, Eq, Structural)]
pub enum DiscoverError {
    InvalidAddress,
    SocketCreationFailed,
    SendFailed,
}

} // verus!
