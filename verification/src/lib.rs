//! Discovery of networked media players on the local segment via a
//! multicast query (SSDP style): a fixed search request is sent to the
//! well-known multicast group, and unicast replies are collected within
//! a bounded time and count window, filtered by a content signature and
//! deduplicated by sender address.
//!
//! The crate holds the decision core: the address grammar, the query
//! payload, and the collector state machine that classifies each reply.
//! The socket work (opening, sending, the timed receive attempts) is
//! driven by the caller, which feeds every received datagram to
//! [`collector::Collector::process_reply`] and consults
//! [`collector::Collector::keep_searching`] between attempts.

pub mod address;
pub mod collector;
pub mod error;
pub mod query;
pub mod session;

pub use address::IpAddress;
pub use address::SocketAddress;
pub use collector::Collector;
pub use error::DiscoverError;
pub use session::Discover;
