//! Torrent descriptor interpretation: field extraction, the info-hash,
//! and the rejection taxonomy.

use il_pleut::download::DownloadState;
use il_pleut::torrent::{
    parse_torrent_file, TorrentErrorKind, TorrentField, TorrentFiles,
};

/// A single-file descriptor: piece length 32768, length 81920, and three
/// 20-byte digests.
fn single_file_torrent() -> Vec<u8> {
    let mut data = Vec::new();
    data.extend_from_slice(b"d8:announce20:http://tracker/align4:infod");
    data.extend_from_slice(b"6:lengthi81920e4:name4:test12:piece lengthi32768e6:pieces60:");
    data.extend_from_slice(&[0x11; 60]);
    data.extend_from_slice(b"ee");
    data
}

#[test]
fn single_file_descriptor() {
    let data = single_file_torrent();
    let t = parse_torrent_file(&data).unwrap();
    assert_eq!(t.announce, "http://tracker/align");
    assert_eq!(t.info.name, "test");
    assert_eq!(t.info.piece_length, 32768);
    assert_eq!(t.info.pieces.len(), 3);
    assert_eq!(t.info.pieces[0], vec![0x11; 20]);
    assert_eq!(t.info.files, TorrentFiles::Single { length: 81920 });
    assert_eq!(t.total_size(), 81920);
    assert!(t.announce_list.is_none());
    // the last piece is 81920 - 2 * 32768 = 16384 bytes
    let s = DownloadState::new(t.info.piece_length, t.total_size(), t.info.pieces).unwrap();
    assert_eq!(s.get_piece_size(2), 16384);
}

/// SHA-1 of the info sub-dictionary bytes of `single_file_torrent`,
/// computed by an independent implementation.
const INFO_SHA1: [u8; 20] = [
    0xbd, 0xac, 0xfe, 0x52, 0x8b, 0x18, 0x45, 0x32, 0x9a, 0x96, 0x91, 0x5c, 0x58, 0x34, 0xf0,
    0x10, 0x3b, 0xef, 0xea, 0x13,
];

#[test]
fn info_hash_is_sha1_of_info_bytes() {
    let data = single_file_torrent();
    let t = parse_torrent_file(&data).unwrap();
    // the descriptor is canonically ordered, so the info-hash is the SHA-1
    // of the raw info sub-value bytes as they appear in the stream
    assert_eq!(t.info_hash, INFO_SHA1.to_vec());
}

#[test]
fn multi_file_descriptor() {
    let mut data = Vec::new();
    data.extend_from_slice(b"d8:announce3:url4:infod5:filesl");
    data.extend_from_slice(b"d6:lengthi100e4:pathl1:a3:deeee");
    data.extend_from_slice(b"d6:lengthi200e4:pathl1:bee");
    data.extend_from_slice(b"e4:name1:n12:piece lengthi300e6:pieces20:");
    data.extend_from_slice(&[0x22; 20]);
    data.extend_from_slice(b"ee");
    let t = parse_torrent_file(&data).unwrap();
    match &t.info.files {
        TorrentFiles::Multiple { files } => {
            assert_eq!(files.len(), 2);
            assert_eq!(files[0].length, 100);
            assert_eq!(files[0].path, vec!["a".to_string(), "dee".to_string()]);
            assert_eq!(files[1].length, 200);
            assert_eq!(files[1].path, vec!["b".to_string()]);
        }
        TorrentFiles::Single { .. } => panic!("expected a multi-file layout"),
    }
    assert_eq!(t.total_size(), 300);
}

#[test]
fn announce_list_is_decoded() {
    let mut data = Vec::new();
    data.extend_from_slice(b"d8:announce3:url13:announce-listll2:t12:t2el2:t3ee4:infod");
    data.extend_from_slice(b"6:lengthi300e4:name1:n12:piece lengthi300e6:pieces20:");
    data.extend_from_slice(&[0x33; 20]);
    data.extend_from_slice(b"ee");
    let t = parse_torrent_file(&data).unwrap();
    let tiers = t.announce_list.unwrap();
    assert_eq!(tiers.len(), 2);
    assert_eq!(tiers[0], vec!["t1".to_string(), "t2".to_string()]);
    assert_eq!(tiers[1], vec!["t3".to_string()]);
}

#[test]
fn rejection_taxonomy() {
    // not bencode
    let err = parse_torrent_file(b"garbage").unwrap_err();
    assert!(matches!(err.kind, TorrentErrorKind::Bencode(_)));
    // not a dictionary
    let err = parse_torrent_file(b"i42e").unwrap_err();
    assert_eq!(err.kind, TorrentErrorKind::TypeMismatch(TorrentField::Root));
    // missing announce
    let err = parse_torrent_file(b"de").unwrap_err();
    assert_eq!(err.kind, TorrentErrorKind::MissingField(TorrentField::Announce));
    // missing info
    let err = parse_torrent_file(b"d8:announce3:urle").unwrap_err();
    assert_eq!(err.kind, TorrentErrorKind::MissingField(TorrentField::Info));
    // missing name inside info
    let err = parse_torrent_file(b"d8:announce3:url4:infodee").unwrap_err();
    assert_eq!(err.kind, TorrentErrorKind::MissingField(TorrentField::Name));
    // a pieces string that is not a multiple of 20 bytes
    let mut data = Vec::new();
    data.extend_from_slice(b"d8:announce3:url4:infod6:lengthi10e4:name1:n12:piece lengthi5e6:pieces7:");
    data.extend_from_slice(&[0u8; 7]);
    data.extend_from_slice(b"ee");
    let err = parse_torrent_file(&data).unwrap_err();
    assert_eq!(err.kind, TorrentErrorKind::BadPiecesLength);
    // neither length nor files
    let mut data = Vec::new();
    data.extend_from_slice(b"d8:announce3:url4:infod4:name1:n12:piece lengthi5e6:pieces20:");
    data.extend_from_slice(&[0u8; 20]);
    data.extend_from_slice(b"ee");
    let err = parse_torrent_file(&data).unwrap_err();
    assert_eq!(err.kind, TorrentErrorKind::InconsistentFiles);
    // both length and files
    let mut data = Vec::new();
    data.extend_from_slice(b"d8:announce3:url4:infod5:filesle6:lengthi10e4:name1:n12:piece lengthi5e6:pieces20:");
    data.extend_from_slice(&[0u8; 20]);
    data.extend_from_slice(b"ee");
    let err = parse_torrent_file(&data).unwrap_err();
    assert_eq!(err.kind, TorrentErrorKind::InconsistentFiles);
    // a non-positive piece length
    let mut data = Vec::new();
    data.extend_from_slice(b"d8:announce3:url4:infod6:lengthi10e4:name1:n12:piece lengthi0e6:pieces20:");
    data.extend_from_slice(&[0u8; 20]);
    data.extend_from_slice(b"ee");
    let err = parse_torrent_file(&data).unwrap_err();
    assert_eq!(err.kind, TorrentErrorKind::TypeMismatch(TorrentField::PieceLength));
}
