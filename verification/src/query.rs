use vstd::prelude::*;

verus! {

/// The multicast time-to-live the discovery protocol requires of the
/// socket that carries the query.
pub const MULTICAST_TTL: i32 = 4;

/// The bound on one receive attempt, in milliseconds: the driving loop
/// waits at most this long for one datagram before it re-checks the
/// overall deadline and the device count.
pub const ATTEMPT_TIMEOUT_MS: u32 = 500;

/// The most bytes one reply datagram is read with.
pub const MAX_REPLY_BYTES: usize = 1024;

/// The fixed discovery request, character for character.
pub open spec fn query_text() -> Seq<char> {
    "M-SEARCH * HTTP/1.1\nHOST: 239.255.255.250:1900\nMAN: \"ssdp:discover\"\nMX: 1\nST: urn:schemas-upnp-org:device:ZonePlayer:1"@
}

/// A whitespace character under the protocol's framing rule.
pub open spec fn is_whitespace(c: char) -> bool {
    c == ' ' || c == '\t' || c == '\r' || c == '\n'
}

/// Builds the discovery request that is sent, once per search, to the
/// multicast group.
pub fn search_query() -> (r: String)
    ensures
        r@ == query_text(),
{
    "M-SEARCH * HTTP/1.1\nHOST: 239.255.255.250:1900\nMAN: \"ssdp:discover\"\nMX: 1\nST: urn:schemas-upnp-org:device:ZonePlayer:1".to_owned()
}

/// The query is framed exactly as the protocol demands: non-empty,
/// with no leading and no trailing whitespace.
pub proof fn lemma_query_framing()
    ensures
        query_text().len() > 0,
        !is_whitespace(query_text().first()),
        !is_whitespace(query_text().last()),
{
    reveal_strlit(
        "M-SEARCH * HTTP/1.1\nHOST: 239.255.255.250:1900\nMAN: \"ssdp:discover\"\nMX: 1\nST: urn:schemas-upnp-org:device:ZonePlayer:1",
    );
}

} // verus!
