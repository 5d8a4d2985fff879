//! Wire protocol behavior: handshake bytes and every message's
//! encode/decode round trip.

use il_pleut::wire::{Handshake, PeerMessage, WireError};

fn round_trip(msg: PeerMessage) {
    let frame = msg.serialize();
    assert!(frame.len() >= 4);
    let len = il_pleut::wire::u32_from_be(frame[0], frame[1], frame[2], frame[3]) as usize;
    assert_eq!(len, frame.len() - 4);
    let decoded = PeerMessage::deserialize(&frame[4..]).unwrap();
    assert_eq!(decoded, msg);
}

#[test]
fn handshake_serialized_bytes() {
    let h = Handshake::new(vec![0x01; 20], vec![0x02; 20]);
    let bytes = h.serialize();
    assert_eq!(bytes.len(), 68);
    assert_eq!(bytes[0], 19);
    assert_eq!(&bytes[1..20], b"BitTorrent protocol");
    assert_eq!(&bytes[20..28], &[0u8; 8]);
    assert_eq!(&bytes[28..48], &[0x01; 20]);
    assert_eq!(&bytes[48..68], &[0x02; 20]);
}

#[test]
fn handshake_round_trip() {
    let h = Handshake::new(vec![0x11; 20], vec![0x22; 20]);
    let bytes = h.serialize();
    let back = Handshake::deserialize(&bytes).unwrap();
    assert_eq!(back, h);
}

#[test]
fn handshake_rejections() {
    let h = Handshake::new(vec![0x01; 20], vec![0x02; 20]);
    let mut bytes = h.serialize();
    // flipped length byte
    bytes[0] = 18;
    assert!(Handshake::deserialize(&bytes).is_none());
    bytes[0] = 19;
    // wrong protocol string
    bytes[1] = b'b';
    assert!(Handshake::deserialize(&bytes).is_none());
    bytes[1] = b'B';
    assert!(Handshake::deserialize(&bytes).is_some());
    // wrong length
    assert!(Handshake::deserialize(&bytes[..67]).is_none());
}

#[test]
fn message_round_trips() {
    round_trip(PeerMessage::KeepAlive);
    round_trip(PeerMessage::Choke);
    round_trip(PeerMessage::Unchoke);
    round_trip(PeerMessage::Interested);
    round_trip(PeerMessage::NotInterested);
    round_trip(PeerMessage::Have(0x01020304));
    round_trip(PeerMessage::Bitfield(vec![0b10100000, 0xff]));
    round_trip(PeerMessage::Request { index: 1, begin: 16384, length: 16384 });
    round_trip(PeerMessage::Piece { index: 7, begin: 32768, block: vec![1, 2, 3, 4, 5] });
    round_trip(PeerMessage::Cancel { index: 1, begin: 2, length: 3 });
    round_trip(PeerMessage::Port(6881));
}

#[test]
fn serialized_frames_match_the_wire_format() {
    assert_eq!(PeerMessage::KeepAlive.serialize(), vec![0, 0, 0, 0]);
    assert_eq!(PeerMessage::Choke.serialize(), vec![0, 0, 0, 1, 0]);
    assert_eq!(PeerMessage::Unchoke.serialize(), vec![0, 0, 0, 1, 1]);
    assert_eq!(PeerMessage::Interested.serialize(), vec![0, 0, 0, 1, 2]);
    assert_eq!(PeerMessage::NotInterested.serialize(), vec![0, 0, 0, 1, 3]);
    assert_eq!(
        PeerMessage::Have(9).serialize(),
        vec![0, 0, 0, 5, 4, 0, 0, 0, 9]
    );
    assert_eq!(
        PeerMessage::Request { index: 1, begin: 2, length: 3 }.serialize(),
        vec![0, 0, 0, 13, 6, 0, 0, 0, 1, 0, 0, 0, 2, 0, 0, 0, 3]
    );
    assert_eq!(
        PeerMessage::Port(0x1AE1).serialize(),
        vec![0, 0, 0, 3, 9, 0x1A, 0xE1]
    );
}

#[test]
fn decoder_rejects_bad_frames() {
    // short frame for a Have
    assert_eq!(
        PeerMessage::deserialize(&[4, 0, 0]),
        Err(WireError::ShortFrame)
    );
    // short frame for a Request
    assert_eq!(
        PeerMessage::deserialize(&[6, 0, 0, 0, 1]),
        Err(WireError::ShortFrame)
    );
    // unknown id
    assert_eq!(
        PeerMessage::deserialize(&[42]),
        Err(WireError::UnknownMessageId(42))
    );
    // empty payload is a keep-alive
    assert_eq!(PeerMessage::deserialize(&[]), Ok(PeerMessage::KeepAlive));
}
