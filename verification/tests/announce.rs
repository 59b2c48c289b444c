use bittorrent::bencode::DecodeError;
use bittorrent::tracker::{
    tracker_url, urlencode, PeerAddr, Peers, TrackerError, TrackerRequest, TrackerResponse,
};

#[test]
fn tracker_request_defaults() {
    let r = TrackerRequest::new(33000);
    assert_eq!(r.peer_id, "00112233445566778899");
    assert_eq!(r.port, 6881);
    assert_eq!(r.uploaded, 0);
    assert_eq!(r.downloaded, 0);
    assert_eq!(r.left, 33000);
    assert_eq!(r.compact, 1);
}

#[test]
fn urlencode_percent_encodes_every_byte() {
    assert_eq!(urlencode(&vec![0x00, 0xFF, 0x41]), "%00%ff%41");
    assert_eq!(urlencode(&Vec::new()), "");
}

#[test]
fn tracker_url_shape() {
    let announce = "http://tracker.example/announce".to_string();
    let req = TrackerRequest::new(100);
    let mut info_hash = vec![0x12u8; 19];
    info_hash.push(0xAB);
    let url = tracker_url(&announce, &req, &info_hash);
    let expected = format!(
        "http://tracker.example/announce?peer_id=00112233445566778899&port=6881&uploaded=0&downloaded=0&left=100&compact=1&info_hash={}{}",
        "%12".repeat(19),
        "%ab",
    );
    assert_eq!(url, expected);
}

#[test]
fn compact_peer_list_parses() {
    let bytes = vec![10, 0, 0, 1, 0x1A, 0xE1, 192, 168, 1, 2, 0, 80];
    let peers = Peers::from_compact(&bytes).unwrap();
    assert_eq!(peers.len(), 2);
    assert!(!peers.is_empty());
    assert_eq!(peers.get(0), PeerAddr { ip: (10, 0, 0, 1), port: 6881 });
    assert_eq!(peers.get(1), PeerAddr { ip: (192, 168, 1, 2), port: 80 });
}

#[test]
fn compact_peer_list_length_must_divide() {
    let r = Peers::from_compact(&vec![1, 2, 3, 4, 5]);
    assert_eq!(r.unwrap_err(), TrackerError::BadPeers);
}

#[test]
fn compact_round_trip() {
    let bytes = vec![10, 0, 0, 1, 0x1A, 0xE1, 192, 168, 1, 2, 0, 80];
    let peers = Peers::from_compact(&bytes).unwrap();
    assert_eq!(peers.to_compact(), bytes);
}

#[test]
fn tracker_response_parses() {
    let mut data = b"d8:intervali900e5:peers6:".to_vec();
    data.extend_from_slice(&[10, 0, 0, 1, 0x1A, 0xE1]);
    data.push(b'e');
    let r = TrackerResponse::from_bytes(&data).unwrap();
    assert_eq!(r.interval, 900);
    assert_eq!(r.peers.len(), 1);
    assert_eq!(r.peers.get(0), PeerAddr { ip: (10, 0, 0, 1), port: 6881 });
}

#[test]
fn tracker_response_errors() {
    assert_eq!(
        TrackerResponse::from_bytes(&b"nonsense".to_vec()).unwrap_err(),
        TrackerError::Encoding(DecodeError::MissingDelimiter)
    );
    assert_eq!(
        TrackerResponse::from_bytes(&b"le".to_vec()).unwrap_err(),
        TrackerError::Shape
    );
    assert_eq!(
        TrackerResponse::from_bytes(&b"d8:intervali900ee".to_vec()).unwrap_err(),
        TrackerError::Shape
    );
    assert_eq!(
        TrackerResponse::from_bytes(&b"d8:intervali-1e5:peers0:e".to_vec()).unwrap_err(),
        TrackerError::BadNumber
    );
    assert_eq!(
        TrackerResponse::from_bytes(&b"d8:intervali900e5:peers5:abcdee".to_vec()).unwrap_err(),
        TrackerError::BadPeers
    );
}
