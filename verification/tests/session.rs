use bittorrent::message::{Message, TAG_BITFIELD, TAG_PIECE, TAG_REQUEST, TAG_UNCHOKE};
use bittorrent::peer::{PeerSession, ProtocolError, SessionState};

fn handshaken_session() -> PeerSession {
    let mut s = PeerSession::new();
    let hs = PeerSession::handshake_message(&vec![7; 20]);
    s.on_handshake_reply(&hs).unwrap();
    s
}

fn ready_session(bitfield: Vec<u8>) -> PeerSession {
    let mut s = handshaken_session();
    s.on_bitfield(&Message { tag: TAG_BITFIELD, payload: bitfield }).unwrap();
    s.on_unchoke(&Message { tag: TAG_UNCHOKE, payload: Vec::new() }).unwrap();
    s
}

#[test]
fn session_walks_the_states_in_order() {
    let mut s = PeerSession::new();
    assert_eq!(s.state, SessionState::Disconnected);
    let hs = PeerSession::handshake_message(&vec![7; 20]);
    assert_eq!(hs.len(), 68);
    s.on_handshake_reply(&hs).unwrap();
    assert_eq!(s.state, SessionState::Handshaken);
    assert_eq!(s.peer_id, b"00112233445566778899".to_vec());
    s.on_bitfield(&Message { tag: TAG_BITFIELD, payload: vec![0b1010_0000] }).unwrap();
    assert_eq!(s.state, SessionState::HasBitfield);
    assert_eq!(s.advertised, vec![0, 2]);
    let interest = s.interest_message();
    assert_eq!(interest.tag, 2);
    assert!(interest.payload.is_empty());
    s.on_unchoke(&Message { tag: TAG_UNCHOKE, payload: Vec::new() }).unwrap();
    assert_eq!(s.state, SessionState::Ready);
}

#[test]
fn handshake_reply_mismatch_is_rejected() {
    let mut s = PeerSession::new();
    let mut hs = PeerSession::handshake_message(&vec![7; 20]);
    hs[3] = b'X';
    assert_eq!(s.on_handshake_reply(&hs).unwrap_err(), ProtocolError::BadHandshake);
    assert_eq!(s.state, SessionState::Disconnected);
}

#[test]
fn first_message_must_be_the_bitfield() {
    let mut s = handshaken_session();
    let r = s.on_bitfield(&Message { tag: TAG_UNCHOKE, payload: Vec::new() });
    assert_eq!(r.unwrap_err(), ProtocolError::UnexpectedTag);
    assert_eq!(s.state, SessionState::Handshaken);
}

#[test]
fn unchoke_must_be_empty() {
    let mut s = handshaken_session();
    s.on_bitfield(&Message { tag: TAG_BITFIELD, payload: vec![0x80] }).unwrap();
    let r = s.on_unchoke(&Message { tag: TAG_UNCHOKE, payload: vec![1] });
    assert_eq!(r.unwrap_err(), ProtocolError::BadPayload);
    let r = s.on_unchoke(&Message { tag: TAG_PIECE, payload: Vec::new() });
    assert_eq!(r.unwrap_err(), ProtocolError::UnexpectedTag);
    assert_eq!(s.state, SessionState::HasBitfield);
}

#[test]
fn has_piece_follows_the_advertisement() {
    let s = ready_session(vec![0b0100_0000]);
    assert!(s.has_piece(1));
    assert!(!s.has_piece(0));
    assert!(!s.has_piece(9));
}

#[test]
fn request_message_layout() {
    let s = ready_session(vec![0x80]);
    let m = s.request_message(0, 16384, 1024);
    assert_eq!(m.tag, TAG_REQUEST);
    assert_eq!(m.payload, vec![0, 0, 0, 0, 0, 0, 0x40, 0, 0, 0, 4, 0]);
}

#[test]
fn piece_reply_returns_the_block() {
    let s = ready_session(vec![0x80]);
    let mut payload = vec![0, 0, 0, 0, 0, 0, 0x40, 0];
    payload.extend_from_slice(b"data");
    let block = s
        .on_piece(&Message { tag: TAG_PIECE, payload }, 0, 16384)
        .unwrap();
    assert_eq!(block, b"data".to_vec());
}

#[test]
fn piece_reply_violations() {
    let s = ready_session(vec![0x80]);
    let r = s.on_piece(&Message { tag: TAG_UNCHOKE, payload: Vec::new() }, 0, 0);
    assert_eq!(r.unwrap_err(), ProtocolError::UnexpectedTag);
    let r = s.on_piece(&Message { tag: TAG_PIECE, payload: vec![1, 2, 3] }, 0, 0);
    assert_eq!(r.unwrap_err(), ProtocolError::BadPayload);
    let mut payload = vec![0, 0, 0, 1, 0, 0, 0, 0];
    payload.push(9);
    let r = s.on_piece(&Message { tag: TAG_PIECE, payload }, 0, 0);
    assert_eq!(r.unwrap_err(), ProtocolError::WrongBlock);
    let mut payload = vec![0, 0, 0, 0, 0, 0, 0, 64];
    payload.push(9);
    let r = s.on_piece(&Message { tag: TAG_PIECE, payload }, 0, 0);
    assert_eq!(r.unwrap_err(), ProtocolError::WrongBlock);
}
