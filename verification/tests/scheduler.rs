use bittorrent::download::{
    assemble, block_plan, block_size, check_piece, num_blocks, DownloadedPiece, DownloadError,
    WorkQueue, BLOCK_MAX,
};
use bittorrent::message::{Message, TAG_BITFIELD, TAG_PIECE, TAG_UNCHOKE};
use bittorrent::peer::{PeerSession, ProtocolError};
use bittorrent::torrent::piece_size;

#[test]
fn block_partition_covers_the_piece() {
    let s = 40000;
    assert_eq!(num_blocks(s), 3);
    let sizes: Vec<usize> = (0..3).map(|b| block_size(b, s)).collect();
    assert_eq!(sizes, vec![16384, 16384, 7232]);
    assert_eq!(sizes.iter().sum::<usize>(), s);
    assert!(sizes.iter().all(|&b| b <= BLOCK_MAX));
    assert_eq!(num_blocks(0), 0);
    assert_eq!(num_blocks(16384), 1);
    assert_eq!(num_blocks(16385), 2);
}

#[test]
fn block_plan_lists_offsets_in_order() {
    let plan = block_plan(3, 40000);
    assert_eq!(
        plan,
        vec![(3, 0, 16384), (3, 16384, 16384), (3, 32768, 7232)]
    );
}

#[test]
fn work_queue_rotates_unwanted_pieces() {
    let mut q = WorkQueue::new(vec![0, 1, 2]);
    let advertised = vec![1, 5];
    assert_eq!(q.next_for_peer(&advertised), Some(1));
    assert_eq!(q.len(), 2);
    // 0 was rotated to the back while 1 was taken
    assert_eq!(q.pop_front(), Some(2));
    assert_eq!(q.pop_front(), Some(0));
    assert_eq!(q.pop_front(), None);
}

#[test]
fn work_queue_unmatched_peer_leaves_queue_alone() {
    let mut q = WorkQueue::new(vec![0, 1, 2]);
    assert_eq!(q.next_for_peer(&vec![7]), None);
    assert_eq!(q.len(), 3);
    assert_eq!(q.pop_front(), Some(0));
    assert_eq!(q.pop_front(), Some(1));
    assert_eq!(q.pop_front(), Some(2));
}

#[test]
fn integrity_check_accepts_the_exact_bytes() {
    let data: Vec<u8> = (0u8..100).collect();
    let expected = bittorrent::Hash::new(&data).as_bytes().clone();
    assert!(check_piece(&data, &expected, 4).is_ok());
}

#[test]
fn corrupting_one_byte_is_an_integrity_error() {
    let data: Vec<u8> = (0u8..100).collect();
    let expected = bittorrent::Hash::new(&data).as_bytes().clone();
    let mut corrupted = data.clone();
    corrupted[41] ^= 1;
    let err = check_piece(&corrupted, &expected, 4).unwrap_err();
    assert_eq!(err, DownloadError::Integrity { piece: 4 });
    // distinct from every protocol or transport failure
    assert_ne!(err, DownloadError::Network);
    assert_ne!(err, DownloadError::Peer(ProtocolError::WrongBlock));
}

#[test]
fn assemble_orders_pieces_by_index() {
    let pieces = vec![
        DownloadedPiece { number: 1, blocks: b"world".to_vec() },
        DownloadedPiece { number: 0, blocks: b"hello ".to_vec() },
        DownloadedPiece { number: 2, blocks: b"!".to_vec() },
    ];
    assert_eq!(assemble(pieces), b"hello world!".to_vec());
}

const PIECE_LENGTH: usize = 30;
const FILE_LENGTH: usize = 100;

fn the_file() -> Vec<u8> {
    (0..FILE_LENGTH).map(|i| (i * 7 % 251) as u8).collect()
}

fn file_piece(file: &[u8], piece: usize) -> Vec<u8> {
    let lo = piece * PIECE_LENGTH;
    let hi = (lo + PIECE_LENGTH).min(file.len());
    file[lo..hi].to_vec()
}

fn piece_hashes(file: &[u8]) -> Vec<Vec<u8>> {
    (0..4).map(|p| bittorrent::Hash::new(&file_piece(file, p)).as_bytes().clone()).collect()
}

fn ready_session(bitfield: u8) -> PeerSession {
    let mut s = PeerSession::new();
    let hs = PeerSession::handshake_message(&vec![7; 20]);
    s.on_handshake_reply(&hs).unwrap();
    s.on_bitfield(&Message { tag: TAG_BITFIELD, payload: vec![bitfield] }).unwrap();
    s.on_unchoke(&Message { tag: TAG_UNCHOKE, payload: Vec::new() }).unwrap();
    s
}

/// Serve one block of the file the way a well-behaved remote peer would.
fn serve_block(file: &[u8], piece: u32, begin: u32, length: u32) -> Message {
    let mut payload = Vec::new();
    payload.extend_from_slice(&piece.to_be_bytes());
    payload.extend_from_slice(&begin.to_be_bytes());
    let lo = piece as usize * PIECE_LENGTH + begin as usize;
    payload.extend_from_slice(&file[lo..lo + length as usize]);
    Message { tag: TAG_PIECE, payload }
}

/// One worker's loop: pull viable pieces from the queue, fetch them block
/// by block through the session, verify, and emit completed pieces.
fn run_worker(
    session: &PeerSession,
    queue: &mut WorkQueue,
    file: &[u8],
    hashes: &[Vec<u8>],
    done: &mut Vec<DownloadedPiece>,
    fetched: &mut Vec<usize>,
) {
    loop {
        let piece = match queue.next_for_peer(&session.advertised) {
            Some(p) => p,
            None => break,
        };
        assert!(session.has_piece(piece));
        let size = piece_size(piece, FILE_LENGTH, PIECE_LENGTH);
        let mut blocks: Vec<u8> = Vec::new();
        for (p, begin, len) in block_plan(piece as u32, size) {
            let request = session.request_message(p, begin, len);
            assert_eq!(request.tag, 6);
            let reply = serve_block(file, p, begin, len);
            let block = session.on_piece(&reply, p, begin).unwrap();
            blocks.extend_from_slice(&block);
        }
        check_piece(&blocks, &hashes[piece], piece).unwrap();
        fetched.push(piece);
        done.push(DownloadedPiece { number: piece, blocks });
    }
}

#[test]
fn two_peers_with_disjoint_pieces_rebuild_the_file() {
    let file = the_file();
    let hashes = piece_hashes(&file);
    // peer a advertises pieces 0 and 2, peer b pieces 1 and 3
    let peer_a = ready_session(0b1010_0000);
    let peer_b = ready_session(0b0101_0000);

    for order in [[0, 1], [1, 0]] {
        let mut queue = WorkQueue::new(vec![0, 1, 2, 3]);
        let mut done: Vec<DownloadedPiece> = Vec::new();
        let mut fetched_a: Vec<usize> = Vec::new();
        let mut fetched_b: Vec<usize> = Vec::new();
        for who in order {
            if who == 0 {
                run_worker(&peer_a, &mut queue, &file, &hashes, &mut done, &mut fetched_a);
            } else {
                run_worker(&peer_b, &mut queue, &file, &hashes, &mut done, &mut fetched_b);
            }
        }
        assert!(queue.is_empty());
        // every piece came from a peer that advertised it, exactly once
        fetched_a.sort();
        fetched_b.sort();
        assert_eq!(fetched_a, vec![0, 2]);
        assert_eq!(fetched_b, vec![1, 3]);
        // the output is byte-identical to the source, whoever went first
        assert_eq!(assemble(done), file);
    }
}
