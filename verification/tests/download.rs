//! Piece-assembly behavior: block buffering, bitfield bookkeeping, piece
//! sizing, request pipelining, and SHA-1 verification.

use il_pleut::download::{
    on_piece_message, DownloadErrorKind, DownloadState, PieceBuffer, PieceStep,
};
use il_pleut::wire::PeerMessage;

/// SHA-1 of the three bytes `abc`.
const ABC_SHA1: [u8; 20] = [
    0xa9, 0x99, 0x3e, 0x36, 0x47, 0x06, 0x81, 0x6a, 0xba, 0x3e, 0x25, 0x71, 0x78, 0x50, 0xc2,
    0x6c, 0x9c, 0xd0, 0xd8, 0x9d,
];

fn state_for(piece_length: u32, total: u64, hashes: Vec<Vec<u8>>) -> DownloadState {
    DownloadState::new(piece_length, total, hashes).unwrap()
}

#[test]
fn piece_buffer_accumulates_blocks() {
    let mut buf = PieceBuffer::new(6);
    assert!(!buf.is_complete());
    assert!(!buf.add_block(0, vec![1, 2, 3]));
    assert!(buf.add_block(3, vec![4, 5, 6]));
    assert!(buf.is_complete());
    assert_eq!(buf.assemble(), vec![1, 2, 3, 4, 5, 6]);
}

#[test]
fn duplicate_blocks_are_idempotent() {
    let mut buf = PieceBuffer::new(6);
    assert!(!buf.add_block(0, vec![1, 2, 3]));
    // the same begin offset again does not raise the received count
    assert!(!buf.add_block(0, vec![9, 9, 9]));
    assert!(!buf.is_complete());
    assert!(buf.add_block(3, vec![4, 5, 6]));
    // the first block's data was kept
    assert_eq!(buf.assemble(), vec![1, 2, 3, 4, 5, 6]);
}

#[test]
fn assemble_lays_blocks_at_offsets() {
    let mut buf = PieceBuffer::new(8);
    buf.add_block(4, vec![5, 6, 7, 8]);
    buf.add_block(0, vec![1, 2, 3, 4]);
    assert_eq!(buf.assemble(), vec![1, 2, 3, 4, 5, 6, 7, 8]);
}

#[test]
fn blocks_past_the_piece_end_are_not_laid() {
    let mut buf = PieceBuffer::new(4);
    // this block would run past the buffer: it counts as received bytes
    // but is skipped during assembly
    buf.add_block(2, vec![7, 7, 7]);
    buf.add_block(0, vec![1, 2]);
    assert!(buf.is_complete());
    assert_eq!(buf.assemble(), vec![1, 2, 0, 0]);
}

#[test]
fn descriptor_invariant_is_checked() {
    // 2 * 16384 < 40000 <= 3 * 16384: three pieces
    assert!(DownloadState::new(16384, 40000, vec![vec![0; 20]; 3]).is_some());
    // wrong piece count
    assert!(DownloadState::new(16384, 40000, vec![vec![0; 20]; 2]).is_none());
    assert!(DownloadState::new(16384, 40000, vec![vec![0; 20]; 4]).is_none());
    // zero piece length
    assert!(DownloadState::new(0, 40000, vec![vec![0; 20]; 3]).is_none());
    // a digest that is not 20 bytes
    assert!(DownloadState::new(16384, 40000, vec![vec![0; 20], vec![0; 19], vec![0; 20]]).is_none());
}

#[test]
fn piece_sizing() {
    // 81920 = 2 * 32768 + 16384: three pieces, the last one short
    let s = state_for(32768, 81920, vec![vec![0; 20]; 3]);
    assert_eq!(s.get_piece_size(0), 32768);
    assert_eq!(s.get_piece_size(1), 32768);
    assert_eq!(s.get_piece_size(2), 16384);
    assert_eq!(s.piece_offset(2), 65536);
    // an exact multiple: the last piece is full-sized
    let s = state_for(32768, 65536, vec![vec![0; 20]; 2]);
    assert_eq!(s.get_piece_size(1), 32768);
}

#[test]
fn bitfield_semantics() {
    // bit p lives at byte p/8, bit 7 - (p%8), MSB first
    let mut s = state_for(16384, 16384 * 10 - 1, vec![vec![0; 20]; 10]);
    assert!(!s.can_download_piece(0));
    s.on_init_message(&PeerMessage::Bitfield(vec![0b10100000, 0b01000000]));
    assert!(s.can_download_piece(0));
    assert!(!s.can_download_piece(1));
    assert!(s.can_download_piece(2));
    assert!(!s.can_download_piece(8));
    assert!(s.can_download_piece(9));
    // a Have sets exactly its bit
    s.update_peer_has_piece(1);
    assert!(s.can_download_piece(1));
    assert!(s.can_download_piece(0));
    assert!(!s.can_download_piece(3));
    // out of the bitfield's range: ignored
    s.update_peer_has_piece(100);
    assert!(!s.can_download_piece(100));
}

#[test]
fn initialization_messages() {
    let mut s = state_for(16384, 16384, vec![vec![0; 20]]);
    assert!(s.is_choked());
    assert!(!s.on_init_message(&PeerMessage::Bitfield(vec![0x80])));
    assert!(!s.on_init_message(&PeerMessage::KeepAlive));
    assert!(!s.on_init_message(&PeerMessage::Have(0)));
    assert!(s.is_choked());
    assert!(s.on_init_message(&PeerMessage::Unchoke));
    assert!(!s.is_choked());
    assert!(!s.on_init_message(&PeerMessage::Choke));
    assert!(s.is_choked());
}

#[test]
fn block_requests_are_pipelined() {
    // a 20000-byte piece needs two blocks: 16384 and 3616 bytes
    let s = state_for(20000, 20000, vec![vec![0; 20]]);
    let reqs = s.block_requests(0);
    assert_eq!(reqs.len(), 2);
    assert_eq!(reqs[0], PeerMessage::Request { index: 0, begin: 0, length: 16384 });
    assert_eq!(reqs[1], PeerMessage::Request { index: 0, begin: 16384, length: 3616 });
}

#[test]
fn piece_messages_drive_the_buffer() {
    let mut buf = PieceBuffer::new(4);
    let step = on_piece_message(
        &mut buf,
        3,
        PeerMessage::Piece { index: 3, begin: 0, block: vec![1, 2] },
    );
    assert_eq!(step, PieceStep::Stored);
    // a block of another piece is dropped
    let step = on_piece_message(
        &mut buf,
        3,
        PeerMessage::Piece { index: 4, begin: 2, block: vec![9, 9] },
    );
    assert_eq!(step, PieceStep::OtherPiece);
    // a keep-alive is ignored; a choke is fatal
    assert_eq!(on_piece_message(&mut buf, 3, PeerMessage::KeepAlive), PieceStep::Ignored);
    assert_eq!(on_piece_message(&mut buf, 3, PeerMessage::Choke), PieceStep::Choked);
    let step = on_piece_message(
        &mut buf,
        3,
        PeerMessage::Piece { index: 3, begin: 2, block: vec![3, 4] },
    );
    assert_eq!(step, PieceStep::Completed);
    assert_eq!(buf.assemble(), vec![1, 2, 3, 4]);
}

#[test]
fn piece_verification() {
    // a piece whose blocks concatenate to `abc`, with the matching digest
    let mut s = state_for(3, 3, vec![ABC_SHA1.to_vec()]);
    let mut buf = PieceBuffer::new(3);
    buf.add_block(0, b"ab".to_vec());
    buf.add_block(2, b"c".to_vec());
    assert!(buf.is_complete());
    let data = buf.assemble();
    assert_eq!(data, b"abc".to_vec());
    assert_eq!(s.piece_offset(0), 0);
    assert_eq!(s.get_progress(), (0, 1));
    s.verify_and_complete(0, &data).unwrap();
    assert_eq!(s.get_progress(), (1, 1));
}

#[test]
fn piece_verification_rejects_corruption() {
    let mut s = state_for(3, 3, vec![ABC_SHA1.to_vec()]);
    // one mutated byte fails the hash check
    let err = s.verify_and_complete(0, b"abd").unwrap_err();
    assert_eq!(err.kind, DownloadErrorKind::HashMismatch(0));
    assert_eq!(s.get_progress(), (0, 1));
}
