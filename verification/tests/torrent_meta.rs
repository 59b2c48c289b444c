use bittorrent::bencode::DecodeError;
use bittorrent::torrent::{MetaError, Torrent};
use sha1::{Digest, Sha1};

fn sample_info_bytes(pieces: &[u8]) -> Vec<u8> {
    let mut info = Vec::new();
    info.extend_from_slice(b"d6:lengthi33000e4:name10:sample.txt12:piece lengthi32768e6:pieces");
    info.extend_from_slice(format!("{}:", pieces.len()).as_bytes());
    info.extend_from_slice(pieces);
    info.push(b'e');
    info
}

fn sample_torrent_bytes(pieces: &[u8]) -> (Vec<u8>, Vec<u8>) {
    let info = sample_info_bytes(pieces);
    let mut data = Vec::new();
    data.extend_from_slice(b"d8:announce31:http://tracker.example/announce4:info");
    data.extend_from_slice(&info);
    data.push(b'e');
    (data, info)
}

fn sample_pieces() -> Vec<u8> {
    let mut pieces = Vec::new();
    for i in 0..40u8 {
        pieces.push(i);
    }
    pieces
}

#[test]
fn parse_metadata_fields() {
    let (data, _) = sample_torrent_bytes(&sample_pieces());
    let t = Torrent::from_bytes(&data).unwrap();
    assert_eq!(t.announce, b"http://tracker.example/announce".to_vec());
    assert_eq!(t.info.name, b"sample.txt".to_vec());
    assert_eq!(t.info.piece_length, 32768);
    assert_eq!(t.info.length(), 33000);
    assert_eq!(t.info.pieces.len(), 2);
    assert_eq!(t.info.pieces.get(0), &sample_pieces()[..20].to_vec());
    assert_eq!(t.info.pieces.get(1), &sample_pieces()[20..].to_vec());
}

#[test]
fn info_hash_matches_original_bytes() {
    let (data, info) = sample_torrent_bytes(&sample_pieces());
    let t = Torrent::from_bytes(&data).unwrap();
    let mut hasher = Sha1::new();
    hasher.update(&info);
    let expected: Vec<u8> = hasher.finalize().to_vec();
    assert_eq!(t.info_hash().as_bytes(), &expected);
}

#[test]
fn piece_hashes_are_lowercase_hex() {
    let (data, _) = sample_torrent_bytes(&sample_pieces());
    let t = Torrent::from_bytes(&data).unwrap();
    let hx = t.piece_hashes();
    assert_eq!(hx.len(), 2);
    assert_eq!(hx[0], hex::encode(&sample_pieces()[..20]));
    assert_eq!(hx[1], hex::encode(&sample_pieces()[20..]));
}

#[test]
fn piece_sizes_partition_the_length() {
    let (data, _) = sample_torrent_bytes(&sample_pieces());
    let t = Torrent::from_bytes(&data).unwrap();
    assert_eq!(t.piece_size(0), 32768);
    assert_eq!(t.piece_size(1), 33000 - 32768);
    assert_eq!(t.pieces_size(&vec![0, 1]), 33000);
    assert_eq!(t.pieces_size(&vec![1]), 232);
    assert_eq!(t.pieces_size(&Vec::new()), 0);
}

#[test]
fn free_piece_size_formula() {
    assert_eq!(bittorrent::torrent::piece_size(0, 33000, 32768), 32768);
    assert_eq!(bittorrent::torrent::piece_size(1, 33000, 32768), 232);
    assert_eq!(bittorrent::torrent::piece_size(2, 60, 20), 20);
}

#[test]
fn metadata_errors() {
    assert_eq!(
        Torrent::from_bytes(&b"garbage".to_vec()).unwrap_err(),
        MetaError::Encoding(DecodeError::MissingDelimiter)
    );
    assert_eq!(
        Torrent::from_bytes(&b"i5e".to_vec()).unwrap_err(),
        MetaError::Shape
    );
    assert_eq!(
        Torrent::from_bytes(&b"de".to_vec()).unwrap_err(),
        MetaError::Shape
    );
    // piece length of zero
    let data = b"d8:announce3:url4:infod6:lengthi10e4:name1:n12:piece lengthi0e6:pieces0:ee"
        .to_vec();
    assert_eq!(Torrent::from_bytes(&data).unwrap_err(), MetaError::BadNumber);
    // negative length
    let data = b"d8:announce3:url4:infod6:lengthi-1e4:name1:n12:piece lengthi4e6:pieces0:ee"
        .to_vec();
    assert_eq!(Torrent::from_bytes(&data).unwrap_err(), MetaError::BadNumber);
    // pieces blob not a multiple of 20
    let data = b"d8:announce3:url4:infod6:lengthi10e4:name1:n12:piece lengthi4e6:pieces3:abcee"
        .to_vec();
    assert_eq!(Torrent::from_bytes(&data).unwrap_err(), MetaError::BadPieces);
    // one hash for a length that needs three pieces
    let mut data = Vec::new();
    data.extend_from_slice(b"d8:announce3:url4:infod6:lengthi10e4:name1:n12:piece lengthi4e6:pieces20:");
    data.extend_from_slice(&[0u8; 20]);
    data.extend_from_slice(b"ee");
    assert_eq!(Torrent::from_bytes(&data).unwrap_err(), MetaError::Inconsistent);
}

#[test]
fn empty_file_has_no_pieces() {
    let data = b"d8:announce3:url4:infod6:lengthi0e4:name1:n12:piece lengthi4e6:pieces0:ee"
        .to_vec();
    let t = Torrent::from_bytes(&data).unwrap();
    assert_eq!(t.info.pieces.len(), 0);
    assert_eq!(t.info.length(), 0);
}

#[test]
fn sha1_digest_of_known_input() {
    let h = bittorrent::Hash::new(&b"abc".to_vec());
    assert_eq!(hex::encode(h.as_bytes()), "a9993e364706816aba3e25717850c26c9cd0d89d");
}
