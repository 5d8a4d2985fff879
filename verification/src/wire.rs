//! Peer wire protocol: the 68-byte handshake and the length-prefixed
//! message set, with byte-exact encode/decode contracts.

use vstd::prelude::*;

use crate::bencode::push_bytes;

verus! {

// ---------------------------------------------------------------------------
// Big-endian integers
// ---------------------------------------------------------------------------

/// The four big-endian bytes of a 32-bit integer.
pub open spec fn be32(n: u32) -> Seq<u8> {
    seq![(n >> 24) as u8, ((n >> 16) & 0xff) as u8, ((n >> 8) & 0xff) as u8, (n & 0xff) as u8]
}

/// The 32-bit value read from four big-endian bytes.
pub open spec fn be32_val(b0: u8, b1: u8, b2: u8, b3: u8) -> u32 {
    (((b0 as u32) << 24) | ((b1 as u32) << 16) | ((b2 as u32) << 8) | (b3 as u32)) as u32
}

/// The two big-endian bytes of a 16-bit integer.
pub open spec fn be16(n: u16) -> Seq<u8> {
    seq![(n >> 8) as u8, (n & 0xff) as u8]
}

/// The 16-bit value read from two big-endian bytes.
pub open spec fn be16_val(b0: u8, b1: u8) -> u16 {
    (((b0 as u16) << 8) | (b1 as u16)) as u16
}

proof fn lemma_be32_round_trip(n: u32)
    ensures
        be32_val(
            (n >> 24) as u8,
            ((n >> 16) & 0xff) as u8,
            ((n >> 8) & 0xff) as u8,
            (n & 0xff) as u8,
        ) == n,
{
    assert((((((n >> 24) as u8) as u32) << 24) | ((((n >> 16) & 0xff) as u8 as u32) << 16) | ((((n
        >> 8) & 0xff) as u8 as u32) << 8) | ((n & 0xff) as u8 as u32)) == n) by (bit_vector);
}

proof fn lemma_be16_round_trip(n: u16)
    ensures
        be16_val((n >> 8) as u8, (n & 0xff) as u8) == n,
{
    assert(((((n >> 8) as u8 as u16) << 8) | ((n & 0xff) as u8 as u16)) == n) by (bit_vector);
}

/// Append the four big-endian bytes of `n`.
pub fn push_be32(dst: &mut Vec<u8>, n: u32)
    ensures
        final(dst)@ == old(dst)@ + be32(n),
{
    proof {
        assert(n >> 24 < 256 && (n >> 16) & 0xff < 256 && (n >> 8) & 0xff < 256 && n & 0xff < 256)
            by (bit_vector);
    }
    dst.push((n >> 24) as u8);
    dst.push(((n >> 16) & 0xff) as u8);
    dst.push(((n >> 8) & 0xff) as u8);
    dst.push((n & 0xff) as u8);
    proof {
        assert(final(dst)@ =~= old(dst)@ + be32(n));
    }
}

/// Append the two big-endian bytes of `n`.
pub fn push_be16(dst: &mut Vec<u8>, n: u16)
    ensures
        final(dst)@ == old(dst)@ + be16(n),
{
    proof {
        assert(n >> 8 < 256 && n & 0xff < 256) by (bit_vector);
    }
    dst.push((n >> 8) as u8);
    dst.push((n & 0xff) as u8);
    proof {
        assert(final(dst)@ =~= old(dst)@ + be16(n));
    }
}

/// Read a 32-bit big-endian integer from four bytes.
pub fn u32_from_be(b0: u8, b1: u8, b2: u8, b3: u8) -> (n: u32)
    ensures
        n == be32_val(b0, b1, b2, b3),
{
    ((b0 as u32) << 24) | ((b1 as u32) << 16) | ((b2 as u32) << 8) | (b3 as u32)
}

/// Read a 16-bit big-endian integer from two bytes.
pub fn u16_from_be(b0: u8, b1: u8) -> (n: u16)
    ensures
        n == be16_val(b0, b1),
{
    ((b0 as u16) << 8) | (b1 as u16)
}

// ---------------------------------------------------------------------------
// Handshake
// ---------------------------------------------------------------------------

/// The 19 bytes of the protocol identifier string.
pub open spec fn proto_bytes() -> Seq<u8> {
    seq![66u8, 105, 116, 84, 111, 114, 114, 101, 110, 116, 32, 112, 114, 111, 116, 111, 99, 111,
        108]
}

/// The protocol identifier, as bytes: `BitTorrent protocol`.
pub fn protocol_id() -> (r: Vec<u8>)
    ensures
        r@ == proto_bytes(),
{
    let mut r: Vec<u8> = Vec::new();
    r.push(66);
    r.push(105);
    r.push(116);
    r.push(84);
    r.push(111);
    r.push(114);
    r.push(114);
    r.push(101);
    r.push(110);
    r.push(116);
    r.push(32);
    r.push(112);
    r.push(114);
    r.push(111);
    r.push(116);
    r.push(111);
    r.push(99);
    r.push(111);
    r.push(108);
    proof {
        assert(r@ =~= proto_bytes());
    }
    r
}

/// The 68 bytes of a handshake: length byte 19, the protocol identifier,
/// eight reserved zero bytes, the info-hash, and the peer id.
pub open spec fn spec_handshake_bytes(info_hash: Seq<u8>, peer_id: Seq<u8>) -> Seq<u8> {
    seq![19u8] + proto_bytes() + seq![0u8, 0, 0, 0, 0, 0, 0, 0] + info_hash + peer_id
}

/// A received handshake is accepted exactly when it is 68 bytes long,
/// starts with length byte 19, and carries the protocol identifier.
/// The reserved bytes are not inspected.
pub open spec fn spec_handshake_ok(b: Seq<u8>) -> bool {
    b.len() == 68 && b[0] == 19 && b.subrange(1, 20) == proto_bytes()
}

/// The opening exchange that fixes the torrent's identity and both peers'
/// ids on a connection.
#[derive(Debug, PartialEq)]
pub struct Handshake {
    pub info_hash: Vec<u8>,
    pub peer_id: Vec<u8>,
}

impl Handshake {
    /// Both identifiers are exactly 20 bytes.
    pub open spec fn wf(self) -> bool {
        self.info_hash@.len() == 20 && self.peer_id@.len() == 20
    }

    pub fn new(info_hash: Vec<u8>, peer_id: Vec<u8>) -> (h: Self)
        requires
            info_hash@.len() == 20,
            peer_id@.len() == 20,
        ensures
            h.wf(),
            h.info_hash@ == info_hash@,
            h.peer_id@ == peer_id@,
    {
        Handshake { info_hash, peer_id }
    }

    /// The 68 serialized bytes of this handshake.
    pub fn serialize(&self) -> (r: Vec<u8>)
        requires
            self.wf(),
        ensures
            r@ == spec_handshake_bytes(self.info_hash@, self.peer_id@),
            r@.len() == 68,
    {
        let mut r: Vec<u8> = Vec::new();
        r.push(19);
        let proto = protocol_id();
        push_bytes(&mut r, proto.as_slice());
        let mut k: usize = 0;
        while k < 8
            invariant
                0 <= k <= 8,
                r@ == seq![19u8] + proto_bytes() + seq![0u8, 0, 0, 0, 0, 0, 0, 0].subrange(
                    0,
                    k as int,
                ),
            decreases 8 - k,
        {
            r.push(0);
            proof {
                assert(seq![0u8, 0, 0, 0, 0, 0, 0, 0].subrange(0, k as int).push(0u8)
                    =~= seq![0u8, 0, 0, 0, 0, 0, 0, 0].subrange(0, k as int + 1));
                assert((seq![19u8] + proto_bytes() + seq![0u8, 0, 0, 0, 0, 0, 0, 0].subrange(
                    0,
                    k as int,
                )).push(0u8) =~= seq![19u8] + proto_bytes() + seq![0u8, 0, 0, 0, 0, 0, 0, 0].subrange(
                    0,
                    k as int + 1,
                ));
            }
            k = k + 1;
        }
        proof {
            assert(seq![0u8, 0, 0, 0, 0, 0, 0, 0].subrange(0, 8) =~= seq![0u8, 0, 0, 0, 0, 0, 0, 0]);
            assert(Seq::<u8>::empty().push(19u8) =~= seq![19u8]);
        }
        push_bytes(&mut r, self.info_hash.as_slice());
        push_bytes(&mut r, self.peer_id.as_slice());
        proof {
            assert(r@ =~= spec_handshake_bytes(self.info_hash@, self.peer_id@));
        }
        r
    }

    /// Read a handshake back from 68 bytes; `None` exactly when the length,
    /// the length byte, or the protocol identifier is wrong.
    pub fn deserialize(data: &[u8]) -> (r: Option<Handshake>)
        ensures
            r is Some <==> spec_handshake_ok(data@),
            r matches Some(h) ==> h.wf() && h.info_hash@ == data@.subrange(28, 48) && h.peer_id@
                == data@.subrange(48, 68),
    {
        if data.len() != 68 {
            return None;
        }
        if data[0] != 19 {
            return None;
        }
        let proto = protocol_id();
        if !crate::bencode::bytes_eq(
            vstd::slice::slice_subrange(data, 1, 20),
            proto.as_slice(),
        ) {
            return None;
        }
        let info_hash = vstd::slice::slice_to_vec(vstd::slice::slice_subrange(data, 28, 48));
        let peer_id = vstd::slice::slice_to_vec(vstd::slice::slice_subrange(data, 48, 68));
        Some(Handshake { info_hash, peer_id })
    }
}

/// Handshake round trip: serializing a handshake yields bytes that are
/// accepted and carry back the same info-hash and peer id.
pub proof fn lemma_handshake_round_trip(info_hash: Seq<u8>, peer_id: Seq<u8>)
    requires
        info_hash.len() == 20,
        peer_id.len() == 20,
    ensures
        spec_handshake_ok(spec_handshake_bytes(info_hash, peer_id)),
        spec_handshake_bytes(info_hash, peer_id).subrange(28, 48) == info_hash,
        spec_handshake_bytes(info_hash, peer_id).subrange(48, 68) == peer_id,
{
    let b = spec_handshake_bytes(info_hash, peer_id);
    assert(b.len() == 68);
    assert(b[0] == 19);
    assert(b.subrange(1, 20) =~= proto_bytes());
    assert(b.subrange(28, 48) =~= info_hash);
    assert(b.subrange(48, 68) =~= peer_id);
}


// ---------------------------------------------------------------------------
// Messages
// ---------------------------------------------------------------------------

/// A peer wire message.
#[derive(Debug, PartialEq)]
pub enum PeerMessage {
    KeepAlive,
    Choke,
    Unchoke,
    Interested,
    NotInterested,
    Have(u32),
    Bitfield(Vec<u8>),
    Request { index: u32, begin: u32, length: u32 },
    Piece { index: u32, begin: u32, block: Vec<u8> },
    Cancel { index: u32, begin: u32, length: u32 },
    Port(u16),
}

/// The mathematical shape of a peer wire message.
pub enum MessageModel {
    KeepAlive,
    Choke,
    Unchoke,
    Interested,
    NotInterested,
    Have(u32),
    Bitfield(Seq<u8>),
    Request { index: u32, begin: u32, length: u32 },
    Piece { index: u32, begin: u32, block: Seq<u8> },
    Cancel { index: u32, begin: u32, length: u32 },
    Port(u16),
}

/// A frame decode fault: a payload too short for its message id, or an
/// id outside the base message set.
#[derive(Debug, Clone, Copy, PartialEq, Eq, Structural)]
pub enum WireError {
    ShortFrame,
    UnknownMessageId(u8),
}

impl PeerMessage {
    /// The mathematical message this value represents.
    pub open spec fn model(self) -> MessageModel {
        match self {
            PeerMessage::KeepAlive => MessageModel::KeepAlive,
            PeerMessage::Choke => MessageModel::Choke,
            PeerMessage::Unchoke => MessageModel::Unchoke,
            PeerMessage::Interested => MessageModel::Interested,
            PeerMessage::NotInterested => MessageModel::NotInterested,
            PeerMessage::Have(i) => MessageModel::Have(i),
            PeerMessage::Bitfield(bits) => MessageModel::Bitfield(bits@),
            PeerMessage::Request { index, begin, length } => MessageModel::Request {
                index,
                begin,
                length,
            },
            PeerMessage::Piece { index, begin, block } => MessageModel::Piece {
                index,
                begin,
                block: block@,
            },
            PeerMessage::Cancel { index, begin, length } => MessageModel::Cancel {
                index,
                begin,
                length,
            },
            PeerMessage::Port(p) => MessageModel::Port(p),
        }
    }
}

/// The payload of a message: its id byte followed by its fields, with no
/// length prefix. A keep-alive has no payload at all.
pub open spec fn spec_msg_payload(m: MessageModel) -> Seq<u8> {
    match m {
        MessageModel::KeepAlive => Seq::empty(),
        MessageModel::Choke => seq![0u8],
        MessageModel::Unchoke => seq![1u8],
        MessageModel::Interested => seq![2u8],
        MessageModel::NotInterested => seq![3u8],
        MessageModel::Have(i) => seq![4u8] + be32(i),
        MessageModel::Bitfield(bits) => seq![5u8] + bits,
        MessageModel::Request { index, begin, length } => seq![6u8] + be32(index) + be32(begin)
            + be32(length),
        MessageModel::Piece { index, begin, block } => seq![7u8] + be32(index) + be32(begin)
            + block,
        MessageModel::Cancel { index, begin, length } => seq![8u8] + be32(index) + be32(begin)
            + be32(length),
        MessageModel::Port(p) => seq![9u8] + be16(p),
    }
}

/// The payload length fits the frame's 32-bit length prefix.
pub open spec fn msg_ok(m: MessageModel) -> bool {
    spec_msg_payload(m).len() <= u32::MAX
}

/// The full frame: 32-bit big-endian payload length, then the payload.
pub open spec fn spec_msg_bytes(m: MessageModel) -> Seq<u8> {
    be32(spec_msg_payload(m).len() as u32) + spec_msg_payload(m)
}

/// Decode a frame payload (without its length prefix). An empty payload is
/// a keep-alive; otherwise the first byte dispatches on the message id.
pub open spec fn spec_parse_msg(p: Seq<u8>) -> Result<MessageModel, WireError> {
    if p.len() == 0 {
        Ok(MessageModel::KeepAlive)
    } else if p[0] == 0 {
        Ok(MessageModel::Choke)
    } else if p[0] == 1 {
        Ok(MessageModel::Unchoke)
    } else if p[0] == 2 {
        Ok(MessageModel::Interested)
    } else if p[0] == 3 {
        Ok(MessageModel::NotInterested)
    } else if p[0] == 4 {
        if p.len() < 5 {
            Err(WireError::ShortFrame)
        } else {
            Ok(MessageModel::Have(be32_val(p[1], p[2], p[3], p[4])))
        }
    } else if p[0] == 5 {
        Ok(MessageModel::Bitfield(p.skip(1)))
    } else if p[0] == 6 {
        if p.len() < 13 {
            Err(WireError::ShortFrame)
        } else {
            Ok(
                MessageModel::Request {
                    index: be32_val(p[1], p[2], p[3], p[4]),
                    begin: be32_val(p[5], p[6], p[7], p[8]),
                    length: be32_val(p[9], p[10], p[11], p[12]),
                },
            )
        }
    } else if p[0] == 7 {
        if p.len() < 9 {
            Err(WireError::ShortFrame)
        } else {
            Ok(
                MessageModel::Piece {
                    index: be32_val(p[1], p[2], p[3], p[4]),
                    begin: be32_val(p[5], p[6], p[7], p[8]),
                    block: p.skip(9),
                },
            )
        }
    } else if p[0] == 8 {
        if p.len() < 13 {
            Err(WireError::ShortFrame)
        } else {
            Ok(
                MessageModel::Cancel {
                    index: be32_val(p[1], p[2], p[3], p[4]),
                    begin: be32_val(p[5], p[6], p[7], p[8]),
                    length: be32_val(p[9], p[10], p[11], p[12]),
                },
            )
        }
    } else if p[0] == 9 {
        if p.len() < 3 {
            Err(WireError::ShortFrame)
        } else {
            Ok(MessageModel::Port(be16_val(p[1], p[2])))
        }
    } else {
        Err(WireError::UnknownMessageId(p[0]))
    }
}

impl PeerMessage {
    /// The full frame for this message: length prefix, id, fields.
    pub fn serialize(&self) -> (r: Vec<u8>)
        requires
            msg_ok(self.model()),
        ensures
            r@ == spec_msg_bytes(self.model()),
    {
        let mut p: Vec<u8> = Vec::new();
        match self {
            PeerMessage::KeepAlive => {},
            PeerMessage::Choke => p.push(0),
            PeerMessage::Unchoke => p.push(1),
            PeerMessage::Interested => p.push(2),
            PeerMessage::NotInterested => p.push(3),
            PeerMessage::Have(i) => {
                p.push(4);
                push_be32(&mut p, *i);
            },
            PeerMessage::Bitfield(bits) => {
                p.push(5);
                push_bytes(&mut p, bits.as_slice());
            },
            PeerMessage::Request { index, begin, length } => {
                p.push(6);
                push_be32(&mut p, *index);
                push_be32(&mut p, *begin);
                push_be32(&mut p, *length);
            },
            PeerMessage::Piece { index, begin, block } => {
                p.push(7);
                push_be32(&mut p, *index);
                push_be32(&mut p, *begin);
                push_bytes(&mut p, block.as_slice());
            },
            PeerMessage::Cancel { index, begin, length } => {
                p.push(8);
                push_be32(&mut p, *index);
                push_be32(&mut p, *begin);
                push_be32(&mut p, *length);
            },
            PeerMessage::Port(port) => {
                p.push(9);
                push_be16(&mut p, *port);
            },
        }
        proof {
            assert(p@ =~= spec_msg_payload(self.model()));
        }
        let mut r: Vec<u8> = Vec::new();
        push_be32(&mut r, p.len() as u32);
        push_bytes(&mut r, p.as_slice());
        proof {
            assert(r@ =~= spec_msg_bytes(self.model()));
        }
        r
    }

    /// Decode a frame payload (the bytes after the 4-byte length prefix);
    /// an empty payload decodes to a keep-alive.
    pub fn deserialize(p: &[u8]) -> (r: Result<PeerMessage, WireError>)
        ensures
            match r {
                Ok(m) => spec_parse_msg(p@) == Result::<MessageModel, WireError>::Ok(m.model()),
                Err(e) => spec_parse_msg(p@) == Result::<MessageModel, WireError>::Err(e),
            },
    {
        if p.len() == 0 {
            return Ok(PeerMessage::KeepAlive);
        }
        let id = p[0];
        if id == 0 {
            Ok(PeerMessage::Choke)
        } else if id == 1 {
            Ok(PeerMessage::Unchoke)
        } else if id == 2 {
            Ok(PeerMessage::Interested)
        } else if id == 3 {
            Ok(PeerMessage::NotInterested)
        } else if id == 4 {
            if p.len() < 5 {
                Err(WireError::ShortFrame)
            } else {
                Ok(PeerMessage::Have(u32_from_be(p[1], p[2], p[3], p[4])))
            }
        } else if id == 5 {
            let bits = vstd::slice::slice_to_vec(vstd::slice::slice_subrange(p, 1, p.len()));
            Ok(PeerMessage::Bitfield(bits))
        } else if id == 6 {
            if p.len() < 13 {
                Err(WireError::ShortFrame)
            } else {
                Ok(
                    PeerMessage::Request {
                        index: u32_from_be(p[1], p[2], p[3], p[4]),
                        begin: u32_from_be(p[5], p[6], p[7], p[8]),
                        length: u32_from_be(p[9], p[10], p[11], p[12]),
                    },
                )
            }
        } else if id == 7 {
            if p.len() < 9 {
                Err(WireError::ShortFrame)
            } else {
                let block = vstd::slice::slice_to_vec(vstd::slice::slice_subrange(p, 9, p.len()));
                Ok(PeerMessage::Piece {
                    index: u32_from_be(p[1], p[2], p[3], p[4]),
                    begin: u32_from_be(p[5], p[6], p[7], p[8]),
                    block,
                })
            }
        } else if id == 8 {
            if p.len() < 13 {
                Err(WireError::ShortFrame)
            } else {
                Ok(
                    PeerMessage::Cancel {
                        index: u32_from_be(p[1], p[2], p[3], p[4]),
                        begin: u32_from_be(p[5], p[6], p[7], p[8]),
                        length: u32_from_be(p[9], p[10], p[11], p[12]),
                    },
                )
            }
        } else if id == 9 {
            if p.len() < 3 {
                Err(WireError::ShortFrame)
            } else {
                Ok(PeerMessage::Port(u16_from_be(p[1], p[2])))
            }
        } else {
            Err(WireError::UnknownMessageId(id))
        }
    }
}

/// Wire message round trip: the frame built for any message carries its
/// payload length in the prefix, and the payload decodes back to the
/// same message.
pub proof fn lemma_message_round_trip(m: MessageModel)
    requires
        msg_ok(m),
    ensures
        ({
            let b = spec_msg_bytes(m);
            &&& b.len() >= 4
            &&& be32_val(b[0], b[1], b[2], b[3]) == b.len() - 4
            &&& spec_parse_msg(b.skip(4)) == Result::<MessageModel, WireError>::Ok(m)
        }),
{
    let p = spec_msg_payload(m);
    let b = spec_msg_bytes(m);
    let n = p.len() as u32;
    lemma_be32_round_trip(n);
    assert(b[0] == be32(n)[0] && b[1] == be32(n)[1] && b[2] == be32(n)[2] && b[3] == be32(n)[3]);
    assert(b.skip(4) =~= p);
    match m {
        MessageModel::KeepAlive => {},
        MessageModel::Choke => {},
        MessageModel::Unchoke => {},
        MessageModel::Interested => {},
        MessageModel::NotInterested => {},
        MessageModel::Have(i) => {
            lemma_be32_round_trip(i);
            assert(p[1] == be32(i)[0] && p[2] == be32(i)[1] && p[3] == be32(i)[2] && p[4] == be32(
                i,
            )[3]);
        },
        MessageModel::Bitfield(bits) => {
            assert(p.skip(1) =~= bits);
        },
        MessageModel::Request { index, begin, length } => {
            lemma_be32_round_trip(index);
            lemma_be32_round_trip(begin);
            lemma_be32_round_trip(length);
            assert(p[1] == be32(index)[0] && p[2] == be32(index)[1] && p[3] == be32(index)[2] && p[4]
                == be32(index)[3]);
            assert(p[5] == be32(begin)[0] && p[6] == be32(begin)[1] && p[7] == be32(begin)[2] && p[8]
                == be32(begin)[3]);
            assert(p[9] == be32(length)[0] && p[10] == be32(length)[1] && p[11] == be32(length)[2]
                && p[12] == be32(length)[3]);
        },
        MessageModel::Piece { index, begin, block } => {
            lemma_be32_round_trip(index);
            lemma_be32_round_trip(begin);
            assert(p[1] == be32(index)[0] && p[2] == be32(index)[1] && p[3] == be32(index)[2] && p[4]
                == be32(index)[3]);
            assert(p[5] == be32(begin)[0] && p[6] == be32(begin)[1] && p[7] == be32(begin)[2] && p[8]
                == be32(begin)[3]);
            assert(p.skip(9) =~= block);
        },
        MessageModel::Cancel { index, begin, length } => {
            lemma_be32_round_trip(index);
            lemma_be32_round_trip(begin);
            lemma_be32_round_trip(length);
            assert(p[1] == be32(index)[0] && p[2] == be32(index)[1] && p[3] == be32(index)[2] && p[4]
                == be32(index)[3]);
            assert(p[5] == be32(begin)[0] && p[6] == be32(begin)[1] && p[7] == be32(begin)[2] && p[8]
                == be32(begin)[3]);
            assert(p[9] == be32(length)[0] && p[10] == be32(length)[1] && p[11] == be32(length)[2]
                && p[12] == be32(length)[3]);
        },
        MessageModel::Port(port) => {
            lemma_be16_round_trip(port);
            assert(p[1] == be16(port)[0] && p[2] == be16(port)[1]);
        },
    }
}

} // verus!
