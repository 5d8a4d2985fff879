//! Tracker behavior: percent-encoding, query building, peer id shape, and
//! response decoding in both peer encodings.

use il_pleut::tracker::{
    build_announce_query, decode_tracker_response, parse_compact_peers, url_encode_bytes,
    PeerIp, TrackerClient, TrackerErrorKind, TrackerEvent, TrackerRequest,
    TrackerResponseField,
};

fn request_with(info_hash: Vec<u8>, peer_id: Vec<u8>) -> TrackerRequest {
    TrackerRequest {
        info_hash,
        peer_id,
        port: 6881,
        uploaded: 0,
        downloaded: 0,
        left: 81920,
        compact: true,
        no_peer_id: false,
        event: Some(TrackerEvent::Started),
        ip: None,
        numwant: Some(50),
        key: None,
        trackerid: None,
    }
}

#[test]
fn test_url_encoding() {
    let bytes = b"Hello World!";
    let encoded = url_encode_bytes(bytes);
    assert_eq!(encoded, "Hello%20World%21");
}

#[test]
fn binary_bytes_are_percent_encoded_byte_literally() {
    assert_eq!(url_encode_bytes(&[0x00, 0xff, 0x7e, 0x2d]), "%00%FF~-");
    assert_eq!(url_encode_bytes(b"AZaz09-_.~"), "AZaz09-_.~");
    // a percent sign itself is encoded, never passed through
    assert_eq!(url_encode_bytes(b"%"), "%25");
}

#[test]
fn announce_query_layout() {
    let q = build_announce_query(&request_with(vec![0xAA; 20], vec![0x2D; 20]));
    let ih = "%AA".repeat(20);
    let pid = "-".repeat(20);
    let expected = format!(
        "info_hash={}&peer_id={}&port=6881&uploaded=0&downloaded=0&left=81920&compact=1&numwant=50",
        ih, pid
    );
    assert_eq!(q, expected);
}

#[test]
fn announce_query_optional_parameters() {
    let mut req = request_with(vec![0x41; 20], vec![0x42; 20]);
    req.no_peer_id = true;
    req.numwant = None;
    req.compact = false;
    let q = build_announce_query(&req);
    let expected = format!(
        "info_hash={}&peer_id={}&port=6881&uploaded=0&downloaded=0&left=81920&compact=0&no_peer_id=1",
        "A".repeat(20),
        "B".repeat(20)
    );
    assert_eq!(q, expected);
}

#[test]
fn test_peer_id_generation() {
    let client = TrackerClient::new();
    let peer_id = client.get_peer_id();
    // the printable prefix of a mainstream client, then 12 random bytes
    assert_eq!(&peer_id[0..8], b"-qB4500-");
    assert_eq!(peer_id.len(), 20);
}

#[test]
fn start_request_fields() {
    let data = torrent_bytes();
    let t = il_pleut::torrent::parse_torrent_file(&data).unwrap();
    let client = TrackerClient::new_with_peer_id(vec![0x07; 20]);
    let req = client.create_start_request(&t, 6881, 0, 81920);
    assert_eq!(req.info_hash, t.info_hash);
    assert_eq!(req.peer_id, vec![0x07; 20]);
    assert_eq!(req.port, 6881);
    assert_eq!(req.left, 81920);
    assert!(req.compact);
    assert!(matches!(req.event, Some(TrackerEvent::Started)));
    assert_eq!(req.numwant, Some(50));
    assert!(req.key.is_some());
    let min = client.create_minimal_request(&t, 6881);
    assert_eq!(min.left, 81920);
    assert!(min.key.is_none());
    assert!(min.event.is_none());
}

fn torrent_bytes() -> Vec<u8> {
    let mut data = Vec::new();
    data.extend_from_slice(b"d8:announce3:url4:infod");
    data.extend_from_slice(b"6:lengthi81920e4:name4:test12:piece lengthi32768e6:pieces60:");
    data.extend_from_slice(&[0x11; 60]);
    data.extend_from_slice(b"ee");
    data
}

#[test]
fn test_compact_peer_parsing() {
    // IP 192.168.1.1, port 6881 (0x1AE1)
    let peer_bytes = vec![192, 168, 1, 1, 0x1A, 0xE1];
    let peers = parse_compact_peers(&peer_bytes).unwrap();
    assert_eq!(peers.len(), 1);
    assert_eq!(peers[0].ip, PeerIp::V4(192, 168, 1, 1));
    assert_eq!(peers[0].port, 6881);
    assert!(peers[0].peer_id.is_none());
    // a length that is not a multiple of six is rejected
    let err = parse_compact_peers(&vec![192, 168, 1]).unwrap_err();
    assert_eq!(err.kind, TrackerErrorKind::BadField(TrackerResponseField::Peers));
}

#[test]
fn compact_response_is_decoded() {
    let mut body = Vec::new();
    body.extend_from_slice(b"d8:completei5e10:incompletei3e8:intervali1800e5:peers6:");
    body.extend_from_slice(&[192, 168, 1, 1, 0x1A, 0xE1]);
    body.extend_from_slice(b"e");
    let resp = decode_tracker_response(&body, true).unwrap();
    assert_eq!(resp.interval, 1800);
    assert_eq!(resp.complete, 5);
    assert_eq!(resp.incomplete, 3);
    assert!(resp.min_interval.is_none());
    assert!(resp.failure_reason.is_none());
    assert_eq!(resp.peers.len(), 1);
    assert_eq!(resp.peers[0].ip, PeerIp::V4(192, 168, 1, 1));
    assert_eq!(resp.peers[0].port, 6881);
}

#[test]
fn dictionary_peers_are_decoded() {
    let body = b"d8:intervali900e5:peersld2:ip9:127.0.0.17:peer id3:abc4:porti6881eeee";
    let resp = decode_tracker_response(body, false).unwrap();
    assert_eq!(resp.interval, 900);
    assert_eq!(resp.peers.len(), 1);
    assert_eq!(resp.peers[0].ip, PeerIp::Name("127.0.0.1".to_string()));
    assert_eq!(resp.peers[0].port, 6881);
    assert_eq!(resp.peers[0].peer_id, Some(b"abc".to_vec()));
}

#[test]
fn response_rejections() {
    // an HTML body is not bencode
    let err = decode_tracker_response(b"<html>busy</html>", true).unwrap_err();
    assert_eq!(err.kind, TrackerErrorKind::HtmlBody);
    // a failure reason is surfaced with its raw bytes
    let err = decode_tracker_response(b"d14:failure reason4:golde", true).unwrap_err();
    assert_eq!(err.kind, TrackerErrorKind::Failure(b"gold".to_vec()));
    // the interval is mandatory
    let err = decode_tracker_response(b"de", true).unwrap_err();
    assert_eq!(err.kind, TrackerErrorKind::MissingInterval);
    // a response that is not a dictionary
    let err = decode_tracker_response(b"le", true).unwrap_err();
    assert_eq!(err.kind, TrackerErrorKind::NotDictionary);
    // missing peers decode to an empty list
    let resp = decode_tracker_response(b"d8:intervali60ee", true).unwrap();
    assert!(resp.peers.is_empty());
}

#[test]
fn announce_url_attaches_the_query() {
    let req = request_with(vec![0x41; 20], vec![0x42; 20]);
    let url = il_pleut::tracker::build_announce_url("http://tracker.example/announce", &req)
        .unwrap();
    let expected = format!(
        "http://tracker.example/announce?info_hash={}&peer_id={}&port=6881&uploaded=0&downloaded=0&left=81920&compact=1&numwant=50",
        "A".repeat(20),
        "B".repeat(20)
    );
    assert_eq!(url, expected);
    // a base that is not a URL is rejected
    let err = il_pleut::tracker::build_announce_url("not a url", &req).unwrap_err();
    assert_eq!(err.kind, TrackerErrorKind::BadUrl);
}

#[test]
fn event_names() {
    assert_eq!(TrackerEvent::Started.as_str(), "started");
    assert_eq!(TrackerEvent::Stopped.as_str(), "stopped");
    assert_eq!(TrackerEvent::Completed.as_str(), "completed");
}
