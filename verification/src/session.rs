use crate::address::address_at;
use crate::address::is_address_string;
use crate::address::parse_address;
use crate::address::splits_at;
use crate::address::IpAddress;
use crate::address::SocketAddress;
use crate::collector::Collector;
use crate::error::DiscoverError;
use vstd::prelude::*;

verus! {

/// The well-known multicast destination of the discovery protocol:
/// group 239.255.255.250, port 1900.
pub open spec fn default_address() -> SocketAddress {
    SocketAddress { ip: IpAddress { o1: 239, o2: 255, o3: 255, o4: 250 }, port: 1900 }
}

/// A discovery session: the multicast destination its queries go to.
///
/// The session is the decision core only. The caller owns the socket:
/// it sends [`crate::query::search_query`] to
/// [`Discover::multicast_address`] once per search, then runs the
/// receive loop that [`Discover::start`]'s [`Collector`] directs.
#[derive(Debug)]
pub struct Discover {
    multicast_addr: SocketAddress,
}

impl Discover {
    /// The destination of this session's queries.
    pub closed spec fn address(&self) -> SocketAddress {
        self.multicast_addr
    }

    /// A session on the protocol's well-known multicast group and port.
    pub fn new() -> (d: Discover)
        ensures
            d.address() == default_address(),
    {
        Discover {
            multicast_addr: SocketAddress {
                ip: IpAddress { o1: 239, o2: 255, o3: 255, o4: 250 },
                port: 1900,
            },
        }
    }

    /// A session with a custom multicast address, given as text
    /// `a.b.c.d:p`. A malformed address is rejected as
    /// [`DiscoverError::InvalidAddress`], and that path creates
    /// nothing — in particular no socket can be opened for it.
    pub fn with_address(address: &str) -> (r: Result<Discover, DiscoverError>)
        ensures
            r is Ok <==> is_address_string(address@),
            r matches Ok(d) ==> forall|i1: int, i2: int, i3: int, i4: int|
                splits_at(address@, i1, i2, i3, i4)
                    ==> d.address() == address_at(address@, i1, i2, i3, i4),
            r matches Err(e) ==> e == DiscoverError::InvalidAddress,
    {
        match parse_address(address) {
            Some(a) => Ok(Discover { multicast_addr: a }),
            None => Err(DiscoverError::InvalidAddress),
        }
    }

    /// The multicast destination, for the caller that owns the socket.
    pub fn multicast_address(&self) -> (a: SocketAddress)
        ensures
            a == self.address(),
    {
        self.multicast_addr
    }

    /// Begins one search: applies the defaults — 5 seconds overall,
    /// and no device bound beyond the largest representable count —
    /// and returns the fresh collector that directs the receive loop.
    /// Every call stands for one freshly sent query; nothing is cached
    /// between searches.
    pub fn start(&self, timeout: Option<u32>, device_count: Option<usize>) -> (c: Collector)
        ensures
            c.wf(),
            c.found() == Seq::<IpAddress>::empty(),
            c.timeout() == (match timeout {
                Some(t) => t,
                None => 5u32,
            }),
            c.device_bound() == (match device_count {
                Some(n) => n as int,
                None => 0xffff_ffff as int,
            }),
    {
        let t: u32 = match timeout {
            Some(t) => t,
            None => 5,
        };
        let n: usize = match device_count {
            Some(n) => n,
            None => 0xffff_ffff,
        };
        Collector::new(t, n)
    }
}

/// The session default and the protocol's canonical textual address
/// agree: `239.255.255.250:1900` is a well-formed address string, and
/// every reading of it denotes exactly [`default_address`]. A session
/// built over that override is therefore the same as a default one.
pub proof fn lemma_default_address_canonical()
    ensures
        is_address_string("239.255.255.250:1900"@),
        forall|i1: int, i2: int, i3: int, i4: int|
            splits_at("239.255.255.250:1900"@, i1, i2, i3, i4)
                ==> address_at("239.255.255.250:1900"@, i1, i2, i3, i4) == default_address(),
{
    reveal_strlit("239.255.255.250:1900");
    let s = "239.255.255.250:1900"@;
    assert(s.len() == 20);
    assert(s.subrange(0, 3) =~= seq!['2', '3', '9']);
    assert(s.subrange(4, 7) =~= seq!['2', '5', '5']);
    assert(s.subrange(8, 11) =~= seq!['2', '5', '5']);
    assert(s.subrange(12, 15) =~= seq!['2', '5', '0']);
    assert(s.subrange(16, 20) =~= seq!['1', '9', '0', '0']);
    crate::address::lemma_decimal_value_triple('2', '3', '9');
    crate::address::lemma_decimal_value_triple('2', '5', '5');
    crate::address::lemma_decimal_value_triple('2', '5', '0');
    crate::address::lemma_decimal_value_quad('1', '9', '0', '0');
    assert(splits_at(s, 3, 7, 11, 15));
    assert(address_at(s, 3, 7, 11, 15) == default_address());
    assert forall|i1: int, i2: int, i3: int, i4: int|
        splits_at(s, i1, i2, i3, i4) implies address_at(s, i1, i2, i3, i4)
        == default_address() by {
        crate::address::lemma_splits_unique(s, i1, i2, i3, i4, 3, 7, 11, 15);
    }
}

} // verus!
