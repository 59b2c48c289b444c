use bittorrent::message::{
    build_handshake, encode_frame, parse_bitfield, parse_frame, parse_handshake,
    parse_piece_payload, request_payload, FrameOut, Message, TAG_INTERESTED, TAG_PIECE,
};

#[test]
fn encode_frame_layout() {
    let m = Message { tag: TAG_INTERESTED, payload: Vec::new() };
    assert_eq!(encode_frame(&m), vec![0, 0, 0, 1, 2]);
    let m = Message { tag: TAG_PIECE, payload: vec![9, 8, 7] };
    assert_eq!(encode_frame(&m), vec![0, 0, 0, 4, 7, 9, 8, 7]);
}

#[test]
fn parse_frame_round_trip() {
    let m = Message { tag: 6, payload: vec![1, 2, 3, 4] };
    let wire = encode_frame(&m);
    match parse_frame(&wire, 0) {
        FrameOut::Frame(got, end) => {
            assert_eq!(got.tag, 6);
            assert_eq!(got.payload, vec![1, 2, 3, 4]);
            assert_eq!(end, wire.len());
        },
        _ => panic!("expected a full frame"),
    }
}

#[test]
fn parse_frame_keep_alive() {
    let wire = vec![0, 0, 0, 0, 9, 9];
    match parse_frame(&wire, 0) {
        FrameOut::KeepAlive(end) => assert_eq!(end, 4),
        _ => panic!("expected a keep-alive"),
    }
}

#[test]
fn parse_frame_incomplete() {
    assert!(matches!(parse_frame(&vec![0, 0], 0), FrameOut::NeedMore));
    // the prefix promises 5 bytes but only 2 follow
    assert!(matches!(parse_frame(&vec![0, 0, 0, 5, 1, 2], 0), FrameOut::NeedMore));
}

#[test]
fn parse_frame_mid_buffer() {
    let mut wire = vec![0, 0, 0, 0];
    wire.extend_from_slice(&encode_frame(&Message { tag: 1, payload: Vec::new() }));
    match parse_frame(&wire, 4) {
        FrameOut::Frame(got, end) => {
            assert_eq!(got.tag, 1);
            assert!(got.payload.is_empty());
            assert_eq!(end, 9);
        },
        _ => panic!("expected a frame after the keep-alive"),
    }
}

#[test]
fn handshake_layout() {
    let info_hash = vec![0xAB; 20];
    let peer_id = b"00112233445566778899".to_vec();
    let hs = build_handshake(&info_hash, &peer_id);
    assert_eq!(hs.len(), 68);
    assert_eq!(hs[0], 19);
    assert_eq!(&hs[1..20], b"BitTorrent protocol");
    assert_eq!(&hs[20..28], &[0u8; 8]);
    assert_eq!(&hs[28..48], &info_hash[..]);
    assert_eq!(&hs[48..68], &peer_id[..]);
}

#[test]
fn parse_handshake_accepts_own_layout() {
    let hs = build_handshake(&vec![1; 20], &vec![2; 20]);
    assert_eq!(parse_handshake(&hs).unwrap(), vec![2; 20]);
}

#[test]
fn parse_handshake_rejects_bad_replies() {
    assert!(parse_handshake(&vec![19; 67]).is_none());
    let mut hs = build_handshake(&vec![1; 20], &vec![2; 20]);
    hs[0] = 18;
    assert!(parse_handshake(&hs).is_none());
    let mut hs = build_handshake(&vec![1; 20], &vec![2; 20]);
    hs[5] = b'X';
    assert!(parse_handshake(&hs).is_none());
}

#[test]
fn request_payload_layout() {
    assert_eq!(
        request_payload(1, 0x4000, 3),
        vec![0, 0, 0, 1, 0, 0, 0x40, 0, 0, 0, 0, 3]
    );
}

#[test]
fn piece_payload_fields() {
    let mut payload = vec![0, 0, 0, 5, 0, 0, 0x40, 0];
    payload.extend_from_slice(&[9, 9, 9]);
    let (index, begin, block) = parse_piece_payload(&payload).unwrap();
    assert_eq!(index, 5);
    assert_eq!(begin, 0x4000);
    assert_eq!(block, vec![9, 9, 9]);
    assert!(parse_piece_payload(&vec![0, 0, 0, 5, 0, 0, 0]).is_none());
}

#[test]
fn bitfield_is_most_significant_bit_first() {
    assert_eq!(parse_bitfield(&vec![0b1010_0000]), vec![0, 2]);
    assert_eq!(parse_bitfield(&vec![0, 0b1000_0000]), vec![8]);
    assert_eq!(parse_bitfield(&vec![0xFF]), vec![0, 1, 2, 3, 4, 5, 6, 7]);
    assert_eq!(parse_bitfield(&vec![0x01]), vec![7]);
    assert_eq!(parse_bitfield(&Vec::new()), Vec::<usize>::new());
}
