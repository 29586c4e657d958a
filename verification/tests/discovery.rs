use sonos_discovery::address::parse_address;
use sonos_discovery::collector::contains_signature;
use sonos_discovery::query::search_query;
use sonos_discovery::query::ATTEMPT_TIMEOUT_MS;
use sonos_discovery::query::MAX_REPLY_BYTES;
use sonos_discovery::query::MULTICAST_TTL;
use sonos_discovery::Discover;
use sonos_discovery::DiscoverError;
use sonos_discovery::IpAddress;
use sonos_discovery::SocketAddress;

fn ip(o1: u8, o2: u8, o3: u8, o4: u8) -> IpAddress {
    IpAddress { o1, o2, o3, o4 }
}

#[test]
fn parse_wellknown_address() {
    let a = parse_address("239.255.255.250:1900").unwrap();
    assert_eq!(a, SocketAddress { ip: ip(239, 255, 255, 250), port: 1900 });
}

#[test]
fn parse_plain_address() {
    let a = parse_address("10.0.0.5:80").unwrap();
    assert_eq!(a, SocketAddress { ip: ip(10, 0, 0, 5), port: 80 });
}

#[test]
fn parse_extreme_fields() {
    let a = parse_address("0.0.0.0:0").unwrap();
    assert_eq!(a, SocketAddress { ip: ip(0, 0, 0, 0), port: 0 });
    let b = parse_address("255.255.255.255:65535").unwrap();
    assert_eq!(b, SocketAddress { ip: ip(255, 255, 255, 255), port: 65535 });
}

#[test]
fn parse_rejects_malformed_text() {
    assert_eq!(parse_address("not-an-address"), None);
    assert_eq!(parse_address(""), None);
    assert_eq!(parse_address("1.2.3.4"), None);
    assert_eq!(parse_address(":1900"), None);
    assert_eq!(parse_address("1.2.3:1900"), None);
    assert_eq!(parse_address("1.2.3.4.5:1900"), None);
    assert_eq!(parse_address("1.2.3.4:"), None);
    assert_eq!(parse_address("1.2.3.4:80x"), None);
    assert_eq!(parse_address("1.2.3.4:80:81"), None);
}

#[test]
fn parse_rejects_out_of_range_fields() {
    assert_eq!(parse_address("256.0.0.1:80"), None);
    assert_eq!(parse_address("1.0.0.999:80"), None);
    assert_eq!(parse_address("1.2.3.4:65536"), None);
    assert_eq!(parse_address("1.2.3.4:99999"), None);
}

#[test]
fn construction_with_malformed_override_fails() {
    let r = Discover::with_address("not-an-address");
    assert_eq!(r.unwrap_err(), DiscoverError::InvalidAddress);
}

#[test]
fn construction_with_valid_override_succeeds() {
    let d = Discover::with_address("239.255.255.251:1901").unwrap();
    assert_eq!(
        d.multicast_address(),
        SocketAddress { ip: ip(239, 255, 255, 251), port: 1901 }
    );
}

#[test]
fn default_session_targets_wellknown_group() {
    let d = Discover::new();
    assert_eq!(
        d.multicast_address(),
        SocketAddress { ip: ip(239, 255, 255, 250), port: 1900 }
    );
}

#[test]
fn canonical_override_equals_default() {
    let by_text = Discover::with_address("239.255.255.250:1900").unwrap();
    let by_default = Discover::new();
    assert_eq!(by_text.multicast_address(), by_default.multicast_address());
}

#[test]
fn query_is_the_canonical_request() {
    let q = search_query();
    assert_eq!(
        q,
        "M-SEARCH * HTTP/1.1\nHOST: 239.255.255.250:1900\nMAN: \"ssdp:discover\"\nMX: 1\nST: urn:schemas-upnp-org:device:ZonePlayer:1"
    );
}

#[test]
fn query_has_no_edge_whitespace() {
    let q = search_query();
    assert!(!q.is_empty());
    assert_eq!(q.trim(), q);
}

#[test]
fn protocol_constants() {
    assert_eq!(MULTICAST_TTL, 4);
    assert_eq!(ATTEMPT_TIMEOUT_MS, 500);
    assert_eq!(MAX_REPLY_BYTES, 1024);
}

#[test]
fn signature_detection() {
    assert!(contains_signature(&b"HTTP/1.1 200 OK\r\nSERVER: Sonos/x".to_vec()));
    assert!(contains_signature(&b"Sonos".to_vec()));
    assert!(contains_signature(&b"....Sonos".to_vec()));
    assert!(!contains_signature(&b"HTTP/1.1 200 OK\r\nST: other-service".to_vec()));
    assert!(!contains_signature(&b"Sono".to_vec()));
    assert!(!contains_signature(&b"sonos".to_vec()));
    assert!(!contains_signature(&b"".to_vec()));
}

#[test]
fn signature_survives_non_utf8_noise() {
    let mut payload = vec![0xffu8, 0xfe, 0x80];
    payload.extend_from_slice(b"Sonos");
    payload.push(0xff);
    assert!(contains_signature(&payload));
}

#[test]
fn duplicate_addresses_are_collected_once() {
    let d = Discover::new();
    let mut c = d.start(Some(5), None);
    let reply = b"HTTP/1.1 200 OK\r\nSERVER: Sonos".to_vec();
    assert!(c.process_reply(ip(10, 0, 0, 5), &reply));
    assert!(!c.process_reply(ip(10, 0, 0, 5), &reply));
    assert!(!c.process_reply(ip(10, 0, 0, 5), &reply));
    assert!(c.process_reply(ip(10, 0, 0, 6), &reply));
    assert_eq!(c.devices(), vec![ip(10, 0, 0, 5), ip(10, 0, 0, 6)]);
}

#[test]
fn device_bound_stops_the_loop() {
    let d = Discover::new();
    let mut c = d.start(Some(5), Some(2));
    let reply = b"...Sonos...".to_vec();
    assert!(c.keep_searching(0));
    assert!(c.process_reply(ip(10, 0, 0, 1), &reply));
    assert!(c.keep_searching(0));
    assert!(c.process_reply(ip(10, 0, 0, 2), &reply));
    assert!(!c.keep_searching(0));
    assert!(!c.process_reply(ip(10, 0, 0, 3), &reply));
    assert_eq!(c.devices().len(), 2);
}

#[test]
fn non_matching_reply_is_never_collected() {
    let d = Discover::new();
    let mut c = d.start(None, None);
    assert!(!c.process_reply(
        ip(10, 0, 0, 7),
        &b"HTTP/1.1 200 OK\r\nST: other-service".to_vec()
    ));
    assert!(c.devices().is_empty());
    assert!(c.process_reply(ip(10, 0, 0, 8), &b"stuff...Sonos...stuff".to_vec()));
    assert_eq!(c.devices(), vec![ip(10, 0, 0, 8)]);
}

#[test]
fn empty_reply_is_ignored_and_does_not_terminate() {
    let d = Discover::new();
    let mut c = d.start(Some(1), Some(1));
    assert!(!c.process_reply(ip(10, 0, 0, 5), &Vec::new()));
    assert!(c.devices().is_empty());
    assert!(c.keep_searching(0));
}

#[test]
fn single_device_round_trip() {
    let d = Discover::new();
    let mut c = d.start(Some(1), Some(1));
    assert!(c.keep_searching(0));
    let reply = b"HTTP/1.1 200 OK\r\nSERVER: Linux UPnP/1.0 Sonos/x\r\n".to_vec();
    assert!(c.process_reply(ip(10, 0, 0, 5), &reply));
    assert!(!c.keep_searching(0));
    assert_eq!(c.devices(), vec![ip(10, 0, 0, 5)]);
}

#[test]
fn default_timeout_is_five_seconds() {
    let d = Discover::new();
    let c = d.start(None, Some(1));
    assert!(c.keep_searching(4));
    assert!(!c.keep_searching(5));
}

#[test]
fn explicit_timeout_bounds_the_loop() {
    let d = Discover::new();
    let c = d.start(Some(2), None);
    assert!(c.keep_searching(0));
    assert!(c.keep_searching(1));
    assert!(!c.keep_searching(2));
    assert!(!c.keep_searching(100));
}
