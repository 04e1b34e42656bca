//! Tracker tests: announce URL construction, percent encoding, and
//! decoding of compact and verbose announce responses.

use percent_encoding::{percent_encode, NON_ALPHANUMERIC};
use torrent_core::bencode::{from_slice, Value};
use torrent_core::peer::{IpAddress, PeerId};
use torrent_core::tracker::{
    build_announce_url, parse_compact_peers, scheme_is_supported, AnnounceParameters,
    AnnounceResponse, RequestMode, TrackerError, TrackerEvent,
};

#[test]
fn compact_peers_payload() {
    // 0A000001 1A E1 | 0A000002 1A E2 decodes to 10.0.0.1:6881 and
    // 10.0.0.2:6882.
    let payload: [u8; 12] = [
        0x0a, 0x00, 0x00, 0x01, 0x1a, 0xe1, 0x0a, 0x00, 0x00, 0x02, 0x1a, 0xe2,
    ];
    let peers = parse_compact_peers(payload.as_slice()).unwrap();
    assert_eq!(peers.len(), 2);
    assert!(peers[0].peer_id.is_none());
    assert_eq!(peers[0].addr.ip, IpAddress::V4([10, 0, 0, 1]));
    assert_eq!(peers[0].addr.port, 6881);
    assert!(peers[1].peer_id.is_none());
    assert_eq!(peers[1].addr.ip, IpAddress::V4([10, 0, 0, 2]));
    assert_eq!(peers[1].addr.port, 6882);
}

#[test]
fn compact_peers_count() {
    // A payload of length 6·k yields exactly k peers.
    for k in 0..5usize {
        let payload = vec![0u8; 6 * k];
        assert_eq!(parse_compact_peers(payload.as_slice()).unwrap().len(), k);
    }
    assert!(parse_compact_peers(&[0u8; 7]).is_err());
}

#[test]
fn announce_url_construction() {
    let info_hash: [u8; 20] = *b"\x12\x34\x56\x78\x9a\xbc\xde\xf0aaaabbbbcccc";
    let peer_id_bytes: [u8; 20] = *b"-TC0001-abcdefgh0123";
    let peer_id = PeerId::new(peer_id_bytes);
    let mut params = AnnounceParameters::new(&info_hash);
    params.set_port(6881);
    params.set_uploaded(10);
    params.set_downloaded(20);
    params.set_left(30);
    params.set_request_mode(RequestMode::Compact);
    params.set_num_want(Some(100));
    let url = build_announce_url(b"http://tracker.example.com/announce", &peer_id, &params);
    let expected = format!(
        "http://tracker.example.com/announce?info_hash={}&peer_id={}&port=6881&uploaded=10&downloaded=20&left=30&compact=1&numwant=100",
        percent_encode(&info_hash, NON_ALPHANUMERIC),
        percent_encode(&peer_id_bytes, NON_ALPHANUMERIC),
    );
    assert_eq!(String::from_utf8(url).unwrap(), expected);
}

#[test]
fn announce_url_appends_to_existing_query() {
    let info_hash = [0u8; 20];
    let peer_id = PeerId::new([b'a'; 20]);
    let params = AnnounceParameters::new(&info_hash);
    let url = build_announce_url(b"http://t.example/a?key=1", &peer_id, &params);
    let text = String::from_utf8(url).unwrap();
    assert!(text.starts_with("http://t.example/a?key=1&info_hash="));
}

#[test]
fn announce_url_event_and_ip() {
    let info_hash = [7u8; 20];
    let peer_id = PeerId::new([b'z'; 20]);
    let mut params = AnnounceParameters::new(&info_hash);
    params.set_event(Some(TrackerEvent::Started));
    params.set_ip(Some([192, 168, 1, 9]));
    let url = build_announce_url(b"http://t.example/a", &peer_id, &params);
    let text = String::from_utf8(url).unwrap();
    assert!(text.ends_with("&event=started&ip=192.168.1.9"));
    assert_eq!(TrackerEvent::Stopped.as_str(), "stopped");
    assert_eq!(TrackerEvent::Completed.as_str(), "completed");
}

#[test]
fn scheme_check() {
    assert!(scheme_is_supported(b"http://t.example/a"));
    assert!(scheme_is_supported(b"https://t.example/a"));
    assert!(scheme_is_supported(b"HTTP://t.example/a"));
    assert!(!scheme_is_supported(b"udp://t.example/a"));
    assert!(!scheme_is_supported(b"ftp://t.example/a"));
}

fn decoded_dict(bytes: &[u8]) -> Vec<(Vec<u8>, Value)> {
    match from_slice(bytes).unwrap() {
        Value::Dict(d) => d,
        v => panic!("expected a dictionary, got {v:?}"),
    }
}

#[test]
fn announce_response_compact() {
    let body = b"d8:intervali1800e5:peers12:\x0a\x00\x00\x01\x1a\xe1\x0a\x00\x00\x02\x1a\xe2e";
    let resp = AnnounceResponse::from_bencode(&decoded_dict(body)).unwrap();
    assert_eq!(resp.interval, 1800);
    assert_eq!(resp.min_interval, None);
    assert_eq!(resp.peers.len(), 2);
    assert_eq!(resp.peers[1].addr.ip, IpAddress::V4([10, 0, 0, 2]));
    assert_eq!(resp.peers[1].addr.port, 6882);
}

#[test]
fn announce_response_verbose() {
    let body = b"d8:intervali900e12:min intervali60e5:peersld2:ip8:10.0.0.77:peer id20:\
        012345678901234567894:porti6881eeee";
    let resp = AnnounceResponse::from_bencode(&decoded_dict(body)).unwrap();
    assert_eq!(resp.interval, 900);
    assert_eq!(resp.min_interval, Some(60));
    assert_eq!(resp.peers.len(), 1);
    assert_eq!(resp.peers[0].addr.ip, IpAddress::V4([10, 0, 0, 7]));
    assert_eq!(resp.peers[0].addr.port, 6881);
    assert_eq!(
        resp.peers[0].peer_id.as_ref().unwrap().as_bytes(),
        b"01234567890123456789"
    );
}

#[test]
fn announce_response_failure_reason() {
    let body = b"d14:failure reason9:try latere";
    assert_eq!(
        AnnounceResponse::from_bencode(&decoded_dict(body)),
        Err(TrackerError::TrackerResponse(b"try later".to_vec()))
    );
}

#[test]
fn announce_response_missing_interval() {
    let body = b"d5:peers0:e";
    assert_eq!(
        AnnounceResponse::from_bencode(&decoded_dict(body)),
        Err(TrackerError::ResponseFormat("No 'interval' field"))
    );
}

#[test]
fn announce_response_bad_ip_literal() {
    let body = b"d8:intervali900e5:peersld2:ip10:10.0.0.2564:porti1eeee";
    assert!(AnnounceResponse::from_bencode(&decoded_dict(body)).is_err());
}

#[test]
fn announce_response_wrong_field_type() {
    let body = b"d8:complete3:two8:intervali60e5:peers0:e";
    assert_eq!(
        AnnounceResponse::from_bencode(&decoded_dict(body)),
        Err(TrackerError::TypeMismatch("complete"))
    );
}

#[test]
fn announce_response_verbose_ipv6() {
    // A verbose peer may carry an IPv6 literal.
    let body = b"d8:intervali900e5:peersld2:ip11:2001:db8::14:porti6881eeee";
    let resp = AnnounceResponse::from_bencode(&decoded_dict(body)).unwrap();
    assert_eq!(resp.peers.len(), 1);
    assert_eq!(
        resp.peers[0].addr.ip,
        IpAddress::V6([0x20, 0x01, 0x0d, 0xb8, 0, 0, 0, 0, 0, 0, 0, 0, 0, 0, 0, 1])
    );
    assert_eq!(resp.peers[0].addr.port, 6881);
}
