//! Piece-assembly engine: the block buffer for one in-flight piece, piece
//! sizing, the peer bitfield bookkeeping, and the decision logic that a
//! session driver feeds with received messages.

use vstd::prelude::*;

use crate::hash::{sha1_of, verify_piece};
use crate::wire::{MessageModel, PeerMessage};

verus! {

broadcast use {
    vstd::seq::axiom_seq_index_decreases,
    vstd::seq::axiom_seq_subrange_decreases,
    vstd::slice::axiom_spec_len,
};

/// The fixed size of a requested block: 16 KiB.
pub const BLOCK_SIZE: u32 = 16384;

/// Why a download session failed.
#[derive(Debug, Clone, Copy, PartialEq, Eq, Structural)]
pub enum DownloadErrorKind {
    /// The initialization budget ran out while still choked.
    NeverUnchoked,
    /// The peer's bitfield lacks the piece we need next.
    PeerMissingPiece(u32),
    /// The peer choked us in the middle of a piece.
    ChokedMidPiece(u32),
    /// The receive budget ran out before the piece completed.
    IncompletePiece(u32),
    /// The assembled piece did not hash to the expected digest.
    HashMismatch(u32),
    /// The shared stop flag was raised.
    Cancelled,
}

/// A download session failure.
#[derive(Debug, Clone, Copy, PartialEq, Eq, Structural)]
pub struct DownloadError {
    pub kind: DownloadErrorKind,
}

// ---------------------------------------------------------------------------
// Piece buffer
// ---------------------------------------------------------------------------

/// The begin offsets and data of received blocks, as sequences.
pub open spec fn block_models_of(s: Seq<(u32, Vec<u8>)>) -> Seq<(u32, Seq<u8>)> {
    Seq::new(
        s.len(),
        |i: int|
            if 0 <= i < s.len() {
                (s[i].0, s[i].1@)
            } else {
                (0u32, Seq::empty())
            },
    )
}

/// Whether some stored block starts at `begin`.
pub open spec fn has_begin(bs: Seq<(u32, Seq<u8>)>, begin: u32) -> bool {
    exists|i: int| 0 <= i < bs.len() && bs[i].0 == begin
}

/// The total number of data bytes across the stored blocks.
pub open spec fn received_of(bs: Seq<(u32, Seq<u8>)>) -> nat
    decreases bs.len(),
{
    if bs.len() == 0 {
        0
    } else {
        received_of(bs.drop_last()) + bs.last().1.len()
    }
}

/// Write one block over a buffer at its begin offset; a block that would
/// run past the end of the buffer is skipped.
pub open spec fn lay_one(buf: Seq<u8>, blk: (u32, Seq<u8>)) -> Seq<u8> {
    if blk.0 + blk.1.len() <= buf.len() {
        Seq::new(
            buf.len(),
            |i: int|
                if blk.0 <= i < blk.0 + blk.1.len() {
                    blk.1[i - blk.0]
                } else {
                    buf[i]
                },
        )
    } else {
        buf
    }
}

/// A zero-filled buffer of the given length.
pub open spec fn zero_seq(n: nat) -> Seq<u8> {
    Seq::new(n, |i: int| 0u8)
}

/// Lay every stored block over the buffer, in storage order.
pub open spec fn lay_blocks(buf: Seq<u8>, bs: Seq<(u32, Seq<u8>)>) -> Seq<u8>
    decreases bs.len(),
{
    if bs.len() == 0 {
        buf
    } else {
        lay_blocks(lay_one(buf, bs[0]), bs.drop_first())
    }
}

/// Accumulates the distinct blocks of one in-flight piece.
pub struct PieceBuffer {
    blocks: Vec<(u32, Vec<u8>)>,
    total_size: u32,
    received_size: u64,
}

impl PieceBuffer {
    /// The stored blocks.
    pub closed spec fn blocks_model(self) -> Seq<(u32, Seq<u8>)> {
        block_models_of(self.blocks@)
    }

    /// The expected size of the piece.
    pub closed spec fn total(self) -> u32 {
        self.total_size
    }

    /// Begin offsets are distinct, and the received counter tracks the
    /// stored bytes (saturating at `u64::MAX`).
    pub closed spec fn wf(self) -> bool {
        &&& forall|i: int, j: int|
            0 <= i < j < self.blocks@.len() ==> #[trigger] self.blocks@[i].0 != #[trigger] self.blocks@[j].0
        &&& self.received_size == if received_of(self.blocks_model()) > u64::MAX {
            u64::MAX as nat
        } else {
            received_of(self.blocks_model())
        }
    }

    /// The piece is complete once at least `total` bytes have arrived.
    pub open spec fn complete(self) -> bool {
        received_of(self.blocks_model()) >= self.total()
    }

    pub fn new(piece_size: u32) -> (b: Self)
        ensures
            b.wf(),
            b.total() == piece_size,
            b.blocks_model() == Seq::<(u32, Seq<u8>)>::empty(),
    {
        let b = PieceBuffer { blocks: Vec::new(), total_size: piece_size, received_size: 0 };
        proof {
            assert(b.blocks_model() =~= Seq::<(u32, Seq<u8>)>::empty());
        }
        b
    }

    /// Whether a block starting at `begin` was already recorded.
    fn contains_begin(&self, begin: u32) -> (r: bool)
        ensures
            r == has_begin(self.blocks_model(), begin),
    {
        let ghost bs = self.blocks_model();
        let n = self.blocks.len();
        let mut i: usize = 0;
        while i < n
            invariant
                n == self.blocks@.len(),
                0 <= i <= n,
                bs == self.blocks_model(),
                forall|m: int| 0 <= m < i ==> #[trigger] bs[m].0 != begin,
            decreases n - i,
        {
            if vstd::slice::slice_index_get(self.blocks.as_slice(), i).0 == begin {
                proof {
                    assert(bs[i as int].0 == begin);
                }
                return true;
            }
            i = i + 1;
        }
        false
    }

    /// Record a block. A block whose begin offset was already received is
    /// dropped, so a duplicate never raises the received count; the result
    /// says whether the piece is now complete.
    pub fn add_block(&mut self, begin: u32, data: Vec<u8>) -> (r: bool)
        requires
            old(self).wf(),
        ensures
            final(self).wf(),
            final(self).total() == old(self).total(),
            if has_begin(old(self).blocks_model(), begin) {
                final(self).blocks_model() == old(self).blocks_model()
            } else {
                final(self).blocks_model() == old(self).blocks_model().push((begin, data@))
            },
            r == final(self).complete(),
    {
        let ghost bs = self.blocks_model();
        if !self.contains_begin(begin) {
            let len64 = data.len() as u64;
            if self.received_size <= u64::MAX - len64 {
                self.received_size = self.received_size + len64;
            } else {
                self.received_size = u64::MAX;
            }
            self.blocks.push((begin, data));
            proof {
                assert(self.blocks_model() =~= bs.push((begin, data@)));
                assert(self.blocks_model().drop_last() =~= bs);
                assert(received_of(self.blocks_model()) == received_of(bs) + data@.len());
                assert(forall|i: int, j: int|
                    0 <= i < j < self.blocks@.len() ==> #[trigger] self.blocks@[i].0
                        != #[trigger] self.blocks@[j].0) by {
                    assert(forall|i: int|
                        0 <= i < bs.len() ==> #[trigger] self.blocks@[i].0 == bs[i].0);
                    assert(self.blocks@[bs.len() as int].0 == begin);
                }
            }
        }
        self.is_complete()
    }

    /// Whether at least `total` bytes of blocks have been received.
    pub fn is_complete(&self) -> (r: bool)
        requires
            self.wf(),
        ensures
            r == self.complete(),
    {
        self.received_size >= self.total_size as u64
    }

    /// Lay the received blocks into a zero-initialized buffer of the
    /// expected size, each at its begin offset.
    #[verifier::loop_isolation(false)]
    pub fn assemble(&self) -> (r: Vec<u8>)
        requires
            self.wf(),
        ensures
            r@ == lay_blocks(zero_seq(self.total() as nat), self.blocks_model()),
            r@.len() == self.total(),
    {
        let total = self.total_size as usize;
        let mut buf: Vec<u8> = Vec::new();
        let mut z: usize = 0;
        while z < total
            invariant
                0 <= z <= total,
                buf@.len() == z,
                forall|i: int| 0 <= i < z ==> buf@[i] == 0u8,
            decreases total - z,
        {
            buf.push(0);
            z = z + 1;
        }
        proof {
            assert(buf@ =~= zero_seq(self.total() as nat));
        }
        let ghost bs = self.blocks_model();
        proof {
            assert(bs.skip(0) =~= bs);
        }
        let n = self.blocks.len();
        let mut k: usize = 0;
        while k < n
            invariant
                n == self.blocks@.len(),
                0 <= k <= n,
                bs == self.blocks_model(),
                buf@.len() == self.total(),
                lay_blocks(buf@, bs.skip(k as int)) == lay_blocks(
                    zero_seq(self.total() as nat),
                    bs,
                ),
            decreases n - k,
        {
            let ghost buf0 = buf@;
            proof {
                assert(bs.skip(k as int)[0] == bs[k as int]);
                assert(bs.skip(k as int).drop_first() =~= bs.skip(k as int + 1));
            }
            let blk = vstd::slice::slice_index_get(self.blocks.as_slice(), k);
            let begin = blk.0 as usize;
            let blen = blk.1.len();
            if begin <= buf.len() && blen <= buf.len() - begin {
                let mut j: usize = 0;
                while j < blen
                    invariant
                        0 <= j <= blen,
                        blen == blk.1@.len(),
                        begin + blen <= buf@.len(),
                        buf@.len() == buf0.len(),
                        blk.1@ == bs[k as int].1,
                        begin == bs[k as int].0,
                        forall|i: int|
                            0 <= i < buf@.len() && !(begin <= i < begin + j) ==> buf@[i] == buf0[i],
                        forall|i: int|
                            begin <= i < begin + j ==> buf@[i] == blk.1@[i - begin],
                    decreases blen - j,
                {
                    let b = blk.1[j];
                    buf[begin + j] = b;
                    j = j + 1;
                }
                proof {
                    assert(buf@ =~= lay_one(buf0, bs[k as int]));
                }
            } else {
                proof {
                    assert(buf@ == lay_one(buf0, bs[k as int]));
                }
            }
            k = k + 1;
        }
        proof {
            assert(bs.skip(n as int) =~= Seq::<(u32, Seq<u8>)>::empty());
        }
        buf
    }
}


// ---------------------------------------------------------------------------
// Bitfield semantics
// ---------------------------------------------------------------------------

/// Whether bit `p` is set: byte `p / 8`, bit `7 - (p % 8)`, MSB first.
pub open spec fn spec_bit(bits: Seq<u8>, p: nat) -> bool {
    p / 8 < bits.len() && (bits[(p / 8) as int] >> ((7 - (p % 8)) as u8)) & 1 == 1
}

/// The bitfield with bit `p` set; out-of-range bits leave it unchanged.
pub open spec fn set_bit_bytes(bits: Seq<u8>, p: nat) -> Seq<u8> {
    if p / 8 < bits.len() {
        bits.update((p / 8) as int, bits[(p / 8) as int] | (1u8 << ((7 - (p % 8)) as u8)))
    } else {
        bits
    }
}

proof fn lemma_or_bit_set(x: u8, s: u8)
    requires
        s < 8,
    ensures
        ((x | (1u8 << s)) >> s) & 1 == 1,
{
    assert(s < 8 ==> ((x | (1u8 << s)) >> s) & 1 == 1) by (bit_vector);
}

proof fn lemma_or_bit_other(x: u8, s: u8, t: u8)
    requires
        s < 8,
        t < 8,
        s != t,
    ensures
        ((x | (1u8 << s)) >> t) & 1 == (x >> t) & 1,
{
    assert(s < 8 && t < 8 && s != t ==> ((x | (1u8 << s)) >> t) & 1 == (x >> t) & 1)
        by (bit_vector);
}

/// Bitfield semantics: setting bit `p` sets exactly that bit — afterwards a
/// bit is set if and only if it was set before or it is the in-range bit `p`.
pub proof fn lemma_set_bit_semantics(bits: Seq<u8>, p: nat, q: nat)
    ensures
        spec_bit(set_bit_bytes(bits, p), q) == (spec_bit(bits, q) || (q == p && p / 8
            < bits.len())),
{
    if p / 8 < bits.len() {
        let nb = set_bit_bytes(bits, p);
        if q / 8 < bits.len() {
            let sp = (7 - (p % 8)) as u8;
            let sq = (7 - (q % 8)) as u8;
            if q / 8 == p / 8 {
                assert(nb[(q / 8) as int] == bits[(p / 8) as int] | (1u8 << sp));
                if q % 8 == p % 8 {
                    assert(q == 8 * (q / 8) + q % 8);
                    assert(p == 8 * (p / 8) + p % 8);
                    assert(q == p);
                    lemma_or_bit_set(bits[(p / 8) as int], sp);
                } else {
                    assert(sp != sq);
                    lemma_or_bit_other(bits[(p / 8) as int], sp, sq);
                }
            } else {
                assert(nb[(q / 8) as int] == bits[(q / 8) as int]);
            }
        }
    }
}

// ---------------------------------------------------------------------------
// Piece sizing
// ---------------------------------------------------------------------------

/// The size of piece `i`: the piece length, except for the last piece,
/// which holds the remainder of the total size (a full piece length when
/// the total divides evenly).
pub open spec fn spec_piece_size(total: nat, plen: nat, count: nat, i: nat) -> nat {
    if i + 1 == count {
        if total % plen == 0 {
            plen
        } else {
            total % plen
        }
    } else {
        plen
    }
}

/// The sum of the sizes of pieces `0 .. k`.
pub open spec fn sum_piece_sizes(total: nat, plen: nat, count: nat, k: nat) -> nat
    decreases k,
{
    if k == 0 {
        0
    } else {
        sum_piece_sizes(total, plen, count, (k - 1) as nat) + spec_piece_size(
            total,
            plen,
            count,
            (k - 1) as nat,
        )
    }
}

/// The descriptor sizing invariant: `count` is the number of pieces that
/// `total` bytes fill at `plen` bytes each, the last piece possibly short.
pub open spec fn sizes_consistent(total: nat, plen: nat, count: nat) -> bool {
    &&& plen >= 1
    &&& (total == 0 ==> count == 0)
    &&& (total > 0 ==> count >= 1 && (count - 1) * plen < total <= count * plen)
}

proof fn lemma_sum_full_pieces(total: nat, plen: nat, count: nat, k: nat)
    requires
        k + 1 <= count,
    ensures
        sum_piece_sizes(total, plen, count, k) == k * plen,
    decreases k,
{
    if k > 0 {
        lemma_sum_full_pieces(total, plen, count, (k - 1) as nat);
        assert(spec_piece_size(total, plen, count, (k - 1) as nat) == plen);
        assert(sum_piece_sizes(total, plen, count, k) == sum_piece_sizes(
            total,
            plen,
            count,
            (k - 1) as nat,
        ) + plen);
        assert(k * plen == ((k - 1) as nat) * plen + plen) by (nonlinear_arith)
            requires
                k >= 1,
        ;
    } else {
        assert(sum_piece_sizes(total, plen, count, 0) == 0);
        assert(k * plen == 0) by (nonlinear_arith)
            requires
                k == 0,
        ;
    }
}

/// Piece sizing law: every piece but the last has the full piece length,
/// and the piece sizes sum to the total size.
pub proof fn lemma_piece_sizes_sum(total: nat, plen: nat, count: nat)
    requires
        sizes_consistent(total, plen, count),
    ensures
        forall|i: nat| i + 1 < count ==> spec_piece_size(total, plen, count, i) == plen,
        sum_piece_sizes(total, plen, count, count) == total,
{
    if count == 0 {
        assert(total == 0);
    } else {
        lemma_sum_full_pieces(total, plen, count, (count - 1) as nat);
        let last = spec_piece_size(total, plen, count, (count - 1) as nat);
        assert(sum_piece_sizes(total, plen, count, count) == (count - 1) * plen + last);
        vstd::arithmetic::div_mod::lemma_fundamental_div_mod(total as int, plen as int);
        let q = total as int / plen as int;
        let r = total as int % plen as int;
        assert(total == q * plen + r);
        if r == 0 {
            assert(last == plen);
            assert(q == count) by (nonlinear_arith)
                requires
                    total == q * plen + r,
                    r == 0,
                    plen >= 1,
                    count >= 1,
                    (count - 1) * plen < total <= count * plen,
            ;
            assert((count - 1) * plen + plen == count * plen) by (nonlinear_arith);
        } else {
            assert(last == r);
            assert(q == count - 1) by (nonlinear_arith)
                requires
                    total == q * plen + r,
                    0 < r < plen,
                    plen >= 1,
                    count >= 1,
                    (count - 1) * plen < total <= count * plen,
            ;
        }
    }
}


// ---------------------------------------------------------------------------
// Download session state
// ---------------------------------------------------------------------------

/// What one received message means for the piece being downloaded.
#[derive(Debug, Clone, Copy, PartialEq, Eq, Structural)]
pub enum PieceStep {
    /// A block of this piece was stored; more are needed.
    Stored,
    /// A block of this piece was stored and the piece is now complete.
    Completed,
    /// A block of some other piece arrived; it was dropped.
    OtherPiece,
    /// The peer choked us: fatal for the session mid-piece.
    Choked,
    /// A keep-alive or unrelated message; nothing changed.
    Ignored,
}

/// The sequence of 20-byte piece digests, as sequences.
pub open spec fn hash_models_of(s: Seq<Vec<u8>>) -> Seq<Seq<u8>> {
    Seq::new(
        s.len(),
        |i: int|
            if 0 <= i < s.len() {
                s[i]@
            } else {
                Seq::empty()
            },
    )
}

/// How many pieces are marked complete.
pub open spec fn count_true(s: Seq<bool>) -> nat
    decreases s.len(),
{
    if s.len() == 0 {
        0
    } else {
        count_true(s.drop_last()) + if s.last() {
            1nat
        } else {
            0nat
        }
    }
}

/// The decision state of one download session: the descriptor's sizing
/// data and piece digests, the completion map, and the peer's advertised
/// bitfield and choke state.
pub struct DownloadState {
    piece_length: u32,
    total_size: u64,
    pieces: Vec<Vec<u8>>,
    completed: Vec<bool>,
    peer_bitfield: Option<Vec<u8>>,
    peer_choked: bool,
}

impl DownloadState {
    pub closed spec fn plen(self) -> u32 {
        self.piece_length
    }

    pub closed spec fn total(self) -> u64 {
        self.total_size
    }

    pub closed spec fn piece_hashes(self) -> Seq<Seq<u8>> {
        hash_models_of(self.pieces@)
    }

    pub closed spec fn completed_map(self) -> Seq<bool> {
        self.completed@
    }

    pub closed spec fn bitfield(self) -> Option<Seq<u8>> {
        match self.peer_bitfield {
            Some(b) => Some(b@),
            None => None,
        }
    }

    pub closed spec fn choked(self) -> bool {
        self.peer_choked
    }

    /// Digests are 20 bytes, the completion map covers every piece, and
    /// the piece count matches the total size.
    pub open spec fn wf(self) -> bool {
        &&& forall|i: int|
            0 <= i < self.piece_hashes().len() ==> #[trigger] self.piece_hashes()[i].len() == 20
        &&& self.completed_map().len() == self.piece_hashes().len()
        &&& sizes_consistent(
            self.total() as nat,
            self.plen() as nat,
            self.piece_hashes().len(),
        )
    }

    /// Build the session state for a descriptor. `None` exactly when the
    /// inputs break the descriptor invariant: a zero piece length, a digest
    /// that is not 20 bytes, or a piece count that does not match the
    /// total size.
    pub fn new(piece_length: u32, total_size: u64, piece_hashes: Vec<Vec<u8>>) -> (r: Option<
        DownloadState,
    >)
        ensures
            match r {
                Some(s) => {
                    &&& s.wf()
                    &&& s.plen() == piece_length
                    &&& s.total() == total_size
                    &&& s.piece_hashes() == hash_models_of(piece_hashes@)
                    &&& s.completed_map() == Seq::new(piece_hashes@.len(), |i: int| false)
                    &&& s.bitfield() is None
                    &&& s.choked()
                },
                None => !({
                    &&& piece_length >= 1
                    &&& (forall|i: int|
                        0 <= i < piece_hashes@.len() ==> #[trigger] piece_hashes@[i]@.len() == 20)
                    &&& sizes_consistent(
                        total_size as nat,
                        piece_length as nat,
                        piece_hashes@.len(),
                    )
                }),
            },
    {
        if piece_length == 0 {
            return None;
        }
        let count = piece_hashes.len();
        let mut i: usize = 0;
        while i < count
            invariant
                count == piece_hashes@.len(),
                0 <= i <= count,
                forall|k: int| 0 <= k < i ==> #[trigger] piece_hashes@[k]@.len() == 20,
            decreases count - i,
        {
            if vstd::slice::slice_index_get(piece_hashes.as_slice(), i).len() != 20 {
                return None;
            }
            i = i + 1;
        }
        // check the sizing invariant without overflowing
        if total_size == 0 {
            if count != 0 {
                return None;
            }
        } else {
            if count == 0 {
                return None;
            }
            let count64 = count as u64;
            let plen64 = piece_length as u64;
            match (count64 - 1).checked_mul(plen64) {
                None => {
                    // (count - 1) * plen exceeds u64::MAX >= total: inconsistent
                    return None;
                },
                Some(low) => {
                    if !(low < total_size) {
                        return None;
                    }
                },
            }
            match count64.checked_mul(plen64) {
                None => {
                    // count * plen exceeds u64::MAX >= total, so the upper
                    // bound holds
                },
                Some(high) => {
                    if !(total_size <= high) {
                        return None;
                    }
                },
            }
        }
        let mut completed: Vec<bool> = Vec::new();
        let mut z: usize = 0;
        while z < count
            invariant
                0 <= z <= count,
                completed@.len() == z,
                forall|k: int| 0 <= k < z ==> #[trigger] completed@[k] == false,
            decreases count - z,
        {
            completed.push(false);
            z = z + 1;
        }
        let s = DownloadState {
            piece_length,
            total_size,
            pieces: piece_hashes,
            completed,
            peer_bitfield: None,
            peer_choked: true,
        };
        proof {
            assert(s.completed_map() =~= Seq::new(s.pieces@.len(), |i: int| false));
        }
        Some(s)
    }

    /// How many pieces the torrent has.
    pub fn piece_count(&self) -> (r: usize)
        ensures
            r == self.piece_hashes().len(),
    {
        self.pieces.len()
    }

    /// Whether the peer currently has us choked.
    pub fn is_choked(&self) -> (r: bool)
        ensures
            r == self.choked(),
    {
        self.peer_choked
    }

    /// Whether the peer's bitfield advertises piece `piece_index`:
    /// byte `p / 8`, bit `7 - (p % 8)`. False while no bitfield arrived.
    pub fn can_download_piece(&self, piece_index: u32) -> (r: bool)
        ensures
            r == match self.bitfield() {
                Some(bits) => spec_bit(bits, piece_index as nat),
                None => false,
            },
    {
        match &self.peer_bitfield {
            None => false,
            Some(bits) => {
                let byte_index = (piece_index / 8) as usize;
                let bit_index: u32 = 7 - (piece_index % 8);
                if byte_index < bits.len() {
                    (bits[byte_index] >> (bit_index as u8)) & 1 == 1
                } else {
                    false
                }
            },
        }
    }

    /// Record a `Have` message: set that piece's bit in the recorded
    /// bitfield; nothing changes while no bitfield arrived or when the
    /// index is beyond it.
    pub fn update_peer_has_piece(&mut self, piece_index: u32)
        ensures
            final(self).bitfield() == match old(self).bitfield() {
                Some(bits) => Some(set_bit_bytes(bits, piece_index as nat)),
                None => None::<Seq<u8>>,
            },
            final(self).plen() == old(self).plen(),
            final(self).total() == old(self).total(),
            final(self).piece_hashes() == old(self).piece_hashes(),
            final(self).completed_map() == old(self).completed_map(),
            final(self).choked() == old(self).choked(),
    {
        match &mut self.peer_bitfield {
            None => {},
            Some(bits) => {
                let byte_index = (piece_index / 8) as usize;
                let bit_index: u32 = 7 - (piece_index % 8);
                if byte_index < bits.len() {
                    let ob = bits[byte_index];
                    bits[byte_index] = ob | (1u8 << (bit_index as u8));
                    proof {
                        assert(bits@ =~= set_bit_bytes(old(self).bitfield()->0, piece_index as nat));
                    }
                }
            },
        }
    }
}


impl DownloadState {
    /// The size of piece `piece_index`: the full piece length for all but
    /// the last piece, and the remainder of the total size for the last
    /// (a full piece length when the total divides evenly).
    pub fn get_piece_size(&self, piece_index: u32) -> (r: u32)
        requires
            self.wf(),
            piece_index < self.piece_hashes().len(),
        ensures
            r as nat == spec_piece_size(
                self.total() as nat,
                self.plen() as nat,
                self.piece_hashes().len(),
                piece_index as nat,
            ),
    {
        let count = self.pieces.len();
        if piece_index as usize == count - 1 {
            let remaining = self.total_size % (self.piece_length as u64);
            if remaining == 0 {
                self.piece_length
            } else {
                remaining as u32
            }
        } else {
            self.piece_length
        }
    }

    /// The byte offset of piece `piece_index` in the output file.
    pub fn piece_offset(&self, piece_index: u32) -> (r: u64)
        requires
            self.wf(),
            piece_index < self.piece_hashes().len(),
        ensures
            r == piece_index * self.plen(),
    {
        let count = self.pieces.len();
        proof {
            assert((piece_index as int) * (self.plen() as int) <= (count - 1) * (
            self.plen() as int)) by (nonlinear_arith)
                requires
                    0 <= piece_index as int <= count - 1,
                    self.plen() >= 1,
            ;
        }
        (piece_index as u64) * (self.piece_length as u64)
    }

    /// The pipelined requests for one piece: one `Request` per 16 KiB
    /// block, in ascending begin order, the last one possibly shorter.
    #[verifier::loop_isolation(false)]
    pub fn block_requests(&self, piece_index: u32) -> (r: Vec<PeerMessage>)
        requires
            self.wf(),
            piece_index < self.piece_hashes().len(),
        ensures
            ({
                let psize = spec_piece_size(
                    self.total() as nat,
                    self.plen() as nat,
                    self.piece_hashes().len(),
                    piece_index as nat,
                );
                &&& r@.len() == (psize + BLOCK_SIZE - 1) / (BLOCK_SIZE as int)
                &&& forall|k: int|
                    0 <= k < r@.len() ==> #[trigger] r@[k].model() == (MessageModel::Request {
                        index: piece_index,
                        begin: (k * BLOCK_SIZE) as u32,
                        length: if psize - k * BLOCK_SIZE < BLOCK_SIZE {
                            (psize - k * BLOCK_SIZE) as u32
                        } else {
                            BLOCK_SIZE
                        },
                    })
            }),
    {
        let psize = self.get_piece_size(piece_index);
        let num_blocks = ((psize as u64) + (BLOCK_SIZE as u64) - 1) / (BLOCK_SIZE as u64);
        let ghost ps = psize as nat;
        let mut r: Vec<PeerMessage> = Vec::new();
        let mut k: u64 = 0;
        proof {
            vstd::arithmetic::div_mod::lemma_fundamental_div_mod(
                ps as int + BLOCK_SIZE - 1,
                BLOCK_SIZE as int,
            );
        }
        while k < num_blocks
            invariant
                num_blocks == (ps + BLOCK_SIZE - 1) / (BLOCK_SIZE as int),
                ps <= u32::MAX,
                0 <= k <= num_blocks,
                (num_blocks - 1) * BLOCK_SIZE < ps,
                num_blocks * BLOCK_SIZE >= ps,
                r@.len() == k,
                forall|m: int|
                    0 <= m < k ==> #[trigger] r@[m].model() == (MessageModel::Request {
                        index: piece_index,
                        begin: (m * BLOCK_SIZE) as u32,
                        length: if ps - m * BLOCK_SIZE < BLOCK_SIZE {
                            (ps - m * BLOCK_SIZE) as u32
                        } else {
                            BLOCK_SIZE
                        },
                    }),
            decreases num_blocks - k,
        {
            proof {
                assert(k * BLOCK_SIZE < ps) by (nonlinear_arith)
                    requires
                        k <= num_blocks - 1,
                        (num_blocks - 1) * (BLOCK_SIZE as int) < ps,
                        BLOCK_SIZE >= 1,
                ;
            }
            let begin64 = k * (BLOCK_SIZE as u64);
            let begin = begin64 as u32;
            let rest = psize - begin;
            let length = if rest < BLOCK_SIZE {
                rest
            } else {
                BLOCK_SIZE
            };
            r.push(PeerMessage::Request { index: piece_index, begin, length });
            k = k + 1;
        }
        proof {
            if num_blocks == 0 {
                assert(ps == 0 || (0 - 1) * BLOCK_SIZE < ps);
            }
        }
        r
    }

    /// Digest one message of the initialization phase: record a bitfield,
    /// note choke state changes, fold `Have` into the bitfield, and ignore
    /// the rest. True exactly when an `Unchoke` arrived, which ends the
    /// phase.
    pub fn on_init_message(&mut self, msg: &PeerMessage) -> (r: bool)
        ensures
            final(self).plen() == old(self).plen(),
            final(self).total() == old(self).total(),
            final(self).piece_hashes() == old(self).piece_hashes(),
            final(self).completed_map() == old(self).completed_map(),
            match msg.model() {
                MessageModel::Bitfield(bits) => final(self).bitfield() == Some(bits) && final(self).choked() == old(self).choked() && r == false,
                MessageModel::Unchoke => final(self).bitfield() == old(self).bitfield() && !final(self).choked() && r == true,
                MessageModel::Choke => final(self).bitfield() == old(self).bitfield() && final(self).choked() && r == false,
                MessageModel::Have(i) => final(self).bitfield() == (match old(self).bitfield() {
                    Some(bits) => Some(set_bit_bytes(bits, i as nat)),
                    None => None::<Seq<u8>>,
                }) && final(self).choked() == old(self).choked() && r == false,
                _ => final(self).bitfield() == old(self).bitfield() && final(self).choked() == old(self).choked() && r == false,
            },
    {
        match msg {
            PeerMessage::Bitfield(bits) => {
                let mut copy: Vec<u8> = Vec::new();
                crate::bencode::push_bytes(&mut copy, bits.as_slice());
                proof {
                    assert(copy@ =~= bits@);
                }
                self.peer_bitfield = Some(copy);
                false
            },
            PeerMessage::Unchoke => {
                self.peer_choked = false;
                true
            },
            PeerMessage::Choke => {
                self.peer_choked = true;
                false
            },
            PeerMessage::Have(i) => {
                self.update_peer_has_piece(*i);
                false
            },
            _ => false,
        }
    }

    /// Check the assembled piece against its expected digest; on a match
    /// mark the piece complete, otherwise report a hash mismatch and leave
    /// the state unchanged.
    pub fn verify_and_complete(&mut self, piece_index: u32, data: &[u8]) -> (r: Result<
        (),
        DownloadError,
    >)
        requires
            old(self).wf(),
            piece_index < old(self).piece_hashes().len(),
        ensures
            final(self).wf(),
            final(self).plen() == old(self).plen(),
            final(self).total() == old(self).total(),
            final(self).piece_hashes() == old(self).piece_hashes(),
            final(self).bitfield() == old(self).bitfield(),
            final(self).choked() == old(self).choked(),
            r is Ok <==> sha1_of(data@) == old(self).piece_hashes()[piece_index as int],
            r is Ok ==> final(self).completed_map() == old(self).completed_map().update(
                piece_index as int,
                true,
            ),
            match r {
                Ok(_) => true,
                Err(e) => e.kind == DownloadErrorKind::HashMismatch(piece_index) && final(self).completed_map() == old(self).completed_map(),
            },
    {
        let expected = vstd::slice::slice_index_get(self.pieces.as_slice(), piece_index as usize);
        if !verify_piece(data, expected.as_slice()) {
            return Err(DownloadError { kind: DownloadErrorKind::HashMismatch(piece_index) });
        }
        self.completed[piece_index as usize] = true;
        Ok(())
    }

    /// How many pieces are complete, and how many there are in all.
    pub fn get_progress(&self) -> (r: (usize, usize))
        ensures
            r.0 == count_true(self.completed_map()),
            r.1 == self.completed_map().len(),
    {
        let ghost cm = self.completed_map();
        let n = self.completed.len();
        let mut done: usize = 0;
        let mut i: usize = 0;
        while i < n
            invariant
                n == cm.len(),
                cm == self.completed_map(),
                0 <= i <= n,
                done == count_true(cm.take(i as int)),
                done <= i,
            decreases n - i,
        {
            proof {
                assert(cm.take(i as int + 1).drop_last() =~= cm.take(i as int));
                assert(cm.take(i as int + 1).last() == cm[i as int]);
            }
            if self.completed[i] {
                done = done + 1;
            }
            i = i + 1;
        }
        proof {
            assert(cm.take(n as int) =~= cm);
        }
        (done, n)
    }
}

/// Digest one message while downloading piece `piece_index`: store a block
/// of this piece (duplicates ignored), note completion, treat a choke as
/// fatal, and drop blocks of other pieces and unrelated messages.
pub fn on_piece_message(buffer: &mut PieceBuffer, piece_index: u32, msg: PeerMessage) -> (r:
    PieceStep)
    requires
        old(buffer).wf(),
    ensures
        final(buffer).wf(),
        final(buffer).total() == old(buffer).total(),
        match msg.model() {
            MessageModel::Piece { index, begin, block } => {
                if index == piece_index {
                    &&& (if has_begin(old(buffer).blocks_model(), begin) {
                        final(buffer).blocks_model() == old(buffer).blocks_model()
                    } else {
                        final(buffer).blocks_model() == old(buffer).blocks_model().push(
                            (begin, block),
                        )
                    })
                    &&& r == (if final(buffer).complete() {
                        PieceStep::Completed
                    } else {
                        PieceStep::Stored
                    })
                } else {
                    final(buffer).blocks_model() == old(buffer).blocks_model() && r
                        == PieceStep::OtherPiece
                }
            },
            MessageModel::Choke => final(buffer).blocks_model() == old(buffer).blocks_model() && r
                == PieceStep::Choked,
            _ => final(buffer).blocks_model() == old(buffer).blocks_model() && r
                == PieceStep::Ignored,
        },
{
    match msg {
        PeerMessage::Piece { index, begin, block } => {
            if index == piece_index {
                if buffer.add_block(begin, block) {
                    PieceStep::Completed
                } else {
                    PieceStep::Stored
                }
            } else {
                PieceStep::OtherPiece
            }
        },
        PeerMessage::Choke => PieceStep::Choked,
        _ => PieceStep::Ignored,
    }
}

} // verus!
