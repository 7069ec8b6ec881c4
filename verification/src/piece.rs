//! The decisions of downloading one piece from a peer, after the handshake: wait for
//! the peer's bitfield, say that we are interested, wait to be unchoked, then request
//! the piece block by block, check each block, and check the piece against its hash.
//! Each received message is an event; the answer is the next message to send, the
//! verified piece, or the reason to stop.
use vstd::prelude::*;
use crate::be_bytes::{be_u32_bytes, be_u32_value, lemma_be_u32_roundtrip, u32_from_be};
use crate::message::{Message, MessageTag};
use crate::peer::Request;
use crate::primitives::{sha1_digest, sha1_hash};
use crate::torrent::Torrent;

verus! {

/// The largest block that is requested at once.
pub const BLOCK_MAX: usize = 16384;

/// The length of piece `pindex` of `npieces`: the piece length, except for the last
/// piece, which holds what is left of the total (a full piece where nothing is left).
pub open spec fn spec_piece_length(total: nat, plength: nat, npieces: nat, pindex: nat) -> nat {
    if pindex + 1 == npieces {
        if total % plength == 0 {
            plength
        } else {
            total % plength
        }
    } else {
        plength
    }
}

/// The number of blocks of a piece of `piece_length` bytes.
pub open spec fn spec_block_count(piece_length: nat) -> nat {
    ((piece_length + BLOCK_MAX - 1) / (BLOCK_MAX as int)) as nat
}

/// The length of block `block` of `nblocks`: `BLOCK_MAX`, except for the last block,
/// which holds the rest of the piece.
pub open spec fn spec_block_length(piece_length: nat, nblocks: nat, block: nat) -> nat {
    if block + 1 == nblocks {
        (piece_length - block * BLOCK_MAX) as nat
    } else {
        BLOCK_MAX as nat
    }
}

/// How many bytes of a piece of `piece_length` bytes lie in block `block`, where
/// block `k` covers the bytes from `k * BLOCK_MAX` up to `(k + 1) * BLOCK_MAX`.
pub open spec fn bytes_in_block(piece_length: nat, block: nat) -> nat {
    if piece_length <= block * BLOCK_MAX {
        0
    } else if piece_length - block * BLOCK_MAX < BLOCK_MAX {
        (piece_length - block * BLOCK_MAX) as nat
    } else {
        BLOCK_MAX as nat
    }
}

/// How many bytes of a piece of `piece_length` bytes lie in its first `n` blocks.
pub open spec fn bytes_in_blocks(piece_length: nat, n: nat) -> nat
    decreases n,
{
    if n == 0 {
        0
    } else {
        bytes_in_blocks(piece_length, (n - 1) as nat) + bytes_in_block(piece_length, (n - 1) as nat)
    }
}

/// The payload of the request for a block: piece index, offset and length, each
/// truncated to 32 bits and written big-endian.
pub open spec fn request_payload(pindex: nat, begin: nat, length: nat) -> Seq<u8> {
    be_u32_bytes(pindex as u32) + be_u32_bytes(begin as u32) + be_u32_bytes(length as u32)
}

/// How far the download has come.
#[derive(Debug, PartialEq, Eq, Structural, Clone, Copy)]
pub enum Stage {
    AwaitBitfield,
    AwaitUnchoke,
    AwaitBlock,
    Finished,
}

/// Why a piece download stops.
#[derive(Debug, PartialEq, Eq, Clone, Copy)]
pub enum DownloadError {
    /// The first message was not a bitfield; it had this tag.
    ExpectedBitfield(MessageTag),
    /// The answer to `interested` was not an unchoke; it had this tag.
    ExpectedUnchoke(MessageTag),
    /// The unchoke message carried a payload.
    UnchokeHasPayload,
    /// The piece index is not below the number of pieces.
    PieceIndexOutOfRange,
    /// The answer to a request was not a piece message; it had this tag.
    ExpectedPiece(MessageTag),
    /// The piece message's payload has fewer than 8 bytes; it had this many.
    PayloadTooShort(usize),
    /// The piece message is for another piece.
    IndexMismatch,
    /// The piece message is for another offset.
    BeginMismatch,
    /// The block has the first number of bytes where the second was requested.
    BlockLength(usize, usize),
    /// The piece's SHA-1 is the second hash where the torrent gives the first.
    HashMismatch([u8; 20], [u8; 20]),
    /// The download has already ended; it takes no more messages.
    AlreadyFinished,
}

/// Why a piece download stops, with hashes as sequences.
pub enum Failure {
    ExpectedBitfield(MessageTag),
    ExpectedUnchoke(MessageTag),
    UnchokeHasPayload,
    PieceIndexOutOfRange,
    ExpectedPiece(MessageTag),
    PayloadTooShort(nat),
    IndexMismatch,
    BeginMismatch,
    BlockLength(nat, nat),
    HashMismatch(Seq<u8>, Seq<u8>),
    AlreadyFinished,
}

/// What to do after a message.
pub enum Step {
    /// Send this message and wait for the next one.
    Send(Message),
    /// The piece has arrived and matches its hash.
    Done(Vec<u8>),
    /// Stop.
    Fail(DownloadError),
}

/// What to do after a message, as a mathematical value.
pub enum StepView {
    Send(MessageTag, Seq<u8>),
    Done(Seq<u8>),
    Fail(Failure),
}

pub open spec fn failure_of(e: DownloadError) -> Failure {
    match e {
        DownloadError::ExpectedBitfield(t) => Failure::ExpectedBitfield(t),
        DownloadError::ExpectedUnchoke(t) => Failure::ExpectedUnchoke(t),
        DownloadError::UnchokeHasPayload => Failure::UnchokeHasPayload,
        DownloadError::PieceIndexOutOfRange => Failure::PieceIndexOutOfRange,
        DownloadError::ExpectedPiece(t) => Failure::ExpectedPiece(t),
        DownloadError::PayloadTooShort(n) => Failure::PayloadTooShort(n as nat),
        DownloadError::IndexMismatch => Failure::IndexMismatch,
        DownloadError::BeginMismatch => Failure::BeginMismatch,
        DownloadError::BlockLength(a, b) => Failure::BlockLength(a as nat, b as nat),
        DownloadError::HashMismatch(a, b) => Failure::HashMismatch(a@, b@),
        DownloadError::AlreadyFinished => Failure::AlreadyFinished,
    }
}

pub open spec fn step_view(s: Step) -> StepView {
    match s {
        Step::Send(m) => StepView::Send(m.tag, m.payload@),
        Step::Done(v) => StepView::Done(v@),
        Step::Fail(e) => StepView::Fail(failure_of(e)),
    }
}

/// The state of a download as a mathematical value.
pub struct DownloadState {
    pub stage: Stage,
    pub piece_length: nat,
    pub nblocks: nat,
    pub block: nat,
    pub buf: Seq<u8>,
}

/// The download of piece `pindex` of a torrent.
pub struct PieceDownload {
    /// The piece to download.
    pub pindex: usize,
    /// The number of pieces of the torrent.
    pub npieces: usize,
    /// The torrent's total length.
    pub total_length: usize,
    /// The torrent's piece length.
    pub plength: usize,
    /// The hash of the piece, where `pindex` is below `npieces`.
    pub expected_hash: [u8; 20],
    pub stage: Stage,
    /// The length of the piece, once known.
    pub piece_length: usize,
    /// The number of blocks of the piece, once known.
    pub nblocks: usize,
    /// The block that was last requested.
    pub block: usize,
    /// The blocks received so far.
    pub buf: Vec<u8>,
}

impl PieceDownload {
    pub open spec fn state(&self) -> DownloadState {
        DownloadState {
            stage: self.stage,
            piece_length: self.piece_length as nat,
            nblocks: self.nblocks as nat,
            block: self.block as nat,
            buf: self.buf@,
        }
    }

    /// The configuration can be carried out: the last piece's length is computed
    /// modulo a nonzero piece length; while blocks arrive, the piece and its blocks
    /// are as planned and the buffer holds the blocks before the current one.
    pub open spec fn wf(&self) -> bool {
        &&& (self.pindex + 1 == self.npieces ==> self.plength > 0)
        &&& (self.stage == Stage::AwaitBitfield || self.stage == Stage::AwaitUnchoke ==> self.buf@.len() == 0)
        &&& (self.stage == Stage::AwaitBlock ==> {
            &&& self.pindex < self.npieces
            &&& self.piece_length == spec_piece_length(self.total_length as nat, self.plength as nat, self.npieces as nat, self.pindex as nat)
            &&& self.nblocks == spec_block_count(self.piece_length as nat)
            &&& self.block < self.nblocks
            &&& self.buf@.len() == self.block * BLOCK_MAX
        })
    }

    /// The state after the piece is complete: the piece, or the hash mismatch.
    pub open spec fn spec_finish(&self, buf: Seq<u8>) -> StepView {
        if sha1_hash(buf) == self.expected_hash@ {
            StepView::Done(buf)
        } else {
            StepView::Fail(Failure::HashMismatch(self.expected_hash@, sha1_hash(buf)))
        }
    }

    /// The request for `block` of a piece with `nblocks` blocks of `piece_length` bytes.
    pub open spec fn spec_request(&self, piece_length: nat, nblocks: nat, block: nat) -> StepView {
        StepView::Send(
            MessageTag::Request,
            request_payload(self.pindex as nat, block * (BLOCK_MAX as nat), spec_block_length(piece_length, nblocks, block)),
        )
    }

    /// What a message with tag `tag` and payload `p` leads to: the next state and what
    /// to do.
    pub open spec fn spec_on_message(&self, tag: MessageTag, p: Seq<u8>) -> (DownloadState, StepView) {
        let s = self.state();
        let finished = DownloadState { stage: Stage::Finished, ..s };
        match s.stage {
            Stage::AwaitBitfield => if tag != MessageTag::Bitfield {
                (finished, StepView::Fail(Failure::ExpectedBitfield(tag)))
            } else {
                (DownloadState { stage: Stage::AwaitUnchoke, ..s }, StepView::Send(MessageTag::Interested, Seq::empty()))
            },
            Stage::AwaitUnchoke => if tag != MessageTag::Unchoke {
                (finished, StepView::Fail(Failure::ExpectedUnchoke(tag)))
            } else if p.len() != 0 {
                (finished, StepView::Fail(Failure::UnchokeHasPayload))
            } else if self.pindex >= self.npieces {
                (finished, StepView::Fail(Failure::PieceIndexOutOfRange))
            } else {
                let pl = spec_piece_length(self.total_length as nat, self.plength as nat, self.npieces as nat, self.pindex as nat);
                let nb = spec_block_count(pl);
                if nb == 0 {
                    (DownloadState { stage: Stage::Finished, piece_length: pl, nblocks: nb, block: 0, buf: s.buf }, self.spec_finish(s.buf))
                } else {
                    (DownloadState { stage: Stage::AwaitBlock, piece_length: pl, nblocks: nb, block: 0, buf: s.buf }, self.spec_request(pl, nb, 0))
                }
            },
            Stage::AwaitBlock => {
                let expected_len = spec_block_length(s.piece_length, s.nblocks, s.block);
                if tag != MessageTag::Piece {
                    (finished, StepView::Fail(Failure::ExpectedPiece(tag)))
                } else if p.len() < 8 {
                    (finished, StepView::Fail(Failure::PayloadTooShort(p.len())))
                } else if be_u32_value(p[0], p[1], p[2], p[3]) != self.pindex as u32 {
                    (finished, StepView::Fail(Failure::IndexMismatch))
                } else if be_u32_value(p[4], p[5], p[6], p[7]) != (s.block * BLOCK_MAX) as u32 {
                    (finished, StepView::Fail(Failure::BeginMismatch))
                } else if p.len() - 8 != expected_len {
                    (finished, StepView::Fail(Failure::BlockLength((p.len() - 8) as nat, expected_len)))
                } else {
                    let buf = s.buf + p.skip(8);
                    if s.block + 1 == s.nblocks {
                        (DownloadState { stage: Stage::Finished, buf, ..s }, self.spec_finish(buf))
                    } else {
                        (DownloadState { block: s.block + 1, buf, ..s }, self.spec_request(s.piece_length, s.nblocks, s.block + 1))
                    }
                }
            },
            Stage::Finished => (s, StepView::Fail(Failure::AlreadyFinished)),
        }
    }

    /// Prepares the download of piece `pindex` of `t`.
    pub fn new(t: &Torrent, pindex: usize) -> (r: Self)
        requires
            t.spec_length() <= usize::MAX,
            pindex + 1 == t.info.pieces.0@.len() ==> t.info.plength > 0,
        ensures
            r.pindex == pindex,
            r.npieces == t.info.pieces.0@.len(),
            r.total_length == t.spec_length(),
            r.plength == t.info.plength,
            pindex < r.npieces ==> r.expected_hash == t.info.pieces.0@[pindex as int],
            r.stage == Stage::AwaitBitfield,
            r.buf@ == Seq::<u8>::empty(),
            r.wf(),
    {
        let npieces = t.info.pieces.0.len();
        let expected_hash = if pindex < npieces { t.info.pieces.0[pindex] } else { [0u8; 20] };
        PieceDownload {
            pindex,
            npieces,
            total_length: t.length(),
            plength: t.info.plength,
            expected_hash,
            stage: Stage::AwaitBitfield,
            piece_length: 0,
            nblocks: 0,
            block: 0,
            buf: Vec::new(),
        }
    }

    /// The request message for `block` of a piece with `nblocks` blocks of
    /// `piece_length` bytes.
    fn request(&self, piece_length: usize, nblocks: usize, block: usize) -> (m: Message)
        requires
            nblocks == spec_block_count(piece_length as nat),
            block < nblocks,
        ensures
            StepView::Send(m.tag, m.payload@) == self.spec_request(piece_length as nat, nblocks as nat, block as nat),
    {
        proof { lemma_block_in_piece(piece_length as nat, block as nat); }
        let begin = block * BLOCK_MAX;
        let length = if block == nblocks - 1 { piece_length - begin } else { BLOCK_MAX };
        let req = Request::new(self.pindex as u32, begin as u32, length as u32);
        Message { tag: MessageTag::Request, payload: req.as_bytes() }
    }

    /// Checks the complete piece against its hash.
    fn finish(&self, buf: Vec<u8>) -> (r: Step)
        ensures
            step_view(r) == self.spec_finish(buf@),
    {
        let actual = sha1_digest(buf.as_slice());
        let mut i: usize = 0;
        while i < 20
            invariant
                i <= 20,
                actual@ == sha1_hash(buf@),
                forall|j: int| 0 <= j < i ==> actual@[j] == self.expected_hash@[j],
            decreases 20 - i,
        {
            if actual[i] != self.expected_hash[i] {
                assert(actual@[i as int] != self.expected_hash@[i as int]);
                return Step::Fail(DownloadError::HashMismatch(self.expected_hash, actual));
            }
            i = i + 1;
        }
        assert(actual@ =~= self.expected_hash@);
        Step::Done(buf)
    }

    /// Takes the next message from the peer: gives the message to send back, the
    /// verified piece, or why the download stops.
    pub fn on_message(&mut self, msg: Message) -> (r: Step)
        requires
            old(self).wf(),
        ensures
            final(self).wf(),
            final(self).pindex == old(self).pindex,
            final(self).npieces == old(self).npieces,
            final(self).total_length == old(self).total_length,
            final(self).plength == old(self).plength,
            final(self).expected_hash == old(self).expected_hash,
            (final(self).state(), step_view(r)) == old(self).spec_on_message(msg.tag, msg.payload@),
    {
        match self.stage {
            Stage::AwaitBitfield => {
                if msg.tag != MessageTag::Bitfield {
                    self.stage = Stage::Finished;
                    return Step::Fail(DownloadError::ExpectedBitfield(msg.tag));
                }
                self.stage = Stage::AwaitUnchoke;
                let m = Message { tag: MessageTag::Interested, payload: Vec::new() };
                assert(m.payload@ =~= Seq::<u8>::empty());
                Step::Send(m)
            },
            Stage::AwaitUnchoke => {
                if msg.tag != MessageTag::Unchoke {
                    self.stage = Stage::Finished;
                    return Step::Fail(DownloadError::ExpectedUnchoke(msg.tag));
                }
                if msg.payload.len() != 0 {
                    self.stage = Stage::Finished;
                    return Step::Fail(DownloadError::UnchokeHasPayload);
                }
                if self.pindex >= self.npieces {
                    self.stage = Stage::Finished;
                    return Step::Fail(DownloadError::PieceIndexOutOfRange);
                }
                let pl = if self.pindex == self.npieces - 1 {
                    let rem = self.total_length % self.plength;
                    if rem == 0 { self.plength } else { rem }
                } else {
                    self.plength
                };
                let nb = pl / BLOCK_MAX + if pl % BLOCK_MAX != 0 { 1 } else { 0 };
                proof { lemma_block_count(pl as nat); }
                self.piece_length = pl;
                self.nblocks = nb;
                self.block = 0;
                if nb == 0 {
                    self.stage = Stage::Finished;
                    let buf = self.buf.clone();
                    return self.finish(buf);
                }
                self.stage = Stage::AwaitBlock;
                let m = self.request(pl, nb, 0);
                Step::Send(m)
            },
            Stage::AwaitBlock => {
                proof { lemma_block_in_piece(self.piece_length as nat, self.block as nat); }
                let begin = self.block * BLOCK_MAX;
                let expected_len = if self.block == self.nblocks - 1 {
                    self.piece_length - begin
                } else {
                    BLOCK_MAX
                };
                if msg.tag != MessageTag::Piece {
                    self.stage = Stage::Finished;
                    return Step::Fail(DownloadError::ExpectedPiece(msg.tag));
                }
                let n = msg.payload.len();
                if n < 8 {
                    self.stage = Stage::Finished;
                    return Step::Fail(DownloadError::PayloadTooShort(n));
                }
                let p = &msg.payload;
                let index = u32_from_be([p[0], p[1], p[2], p[3]]);
                let response_begin = u32_from_be([p[4], p[5], p[6], p[7]]);
                if index != self.pindex as u32 {
                    self.stage = Stage::Finished;
                    return Step::Fail(DownloadError::IndexMismatch);
                }
                if response_begin != begin as u32 {
                    self.stage = Stage::Finished;
                    return Step::Fail(DownloadError::BeginMismatch);
                }
                if n - 8 != expected_len {
                    self.stage = Stage::Finished;
                    return Step::Fail(DownloadError::BlockLength(n - 8, expected_len));
                }
                let mut data = crate::git::copy_range(msg.payload.as_slice(), 8, n);
                assert(data@ =~= msg.payload@.skip(8));
                self.buf.append(&mut data);
                if self.block == self.nblocks - 1 {
                    self.stage = Stage::Finished;
                    let buf = self.buf.clone();
                    return self.finish(buf);
                }
                self.block = self.block + 1;
                assert(self.buf@.len() == self.block * BLOCK_MAX) by (nonlinear_arith)
                    requires self.buf@.len() == (self.block - 1) * BLOCK_MAX + BLOCK_MAX;
                proof { lemma_block_in_piece(self.piece_length as nat, self.block as nat); }
                let m = self.request(self.piece_length, self.nblocks, self.block);
                Step::Send(m)
            },
            Stage::Finished => Step::Fail(DownloadError::AlreadyFinished),
        }
    }
}

/// The executable count of blocks is the rounded-up quotient.
proof fn lemma_block_count(pl: nat)
    ensures
        pl / (BLOCK_MAX as nat) + (if pl % (BLOCK_MAX as nat) != 0 { 1nat } else { 0nat }) == spec_block_count(pl),
{
    let b = BLOCK_MAX as int;
    let p = pl as int;
    assert(p == b * (p / b) + p % b) by (nonlinear_arith) requires b > 0;
    assert(0 <= p % b < b);
    assert((p + b - 1) / b == p / b + (if p % b != 0 { 1int } else { 0int })) by (nonlinear_arith)
        requires b > 0, p == b * (p / b) + p % b, 0 <= p % b < b, p >= 0;
}

/// A block below the block count starts inside the piece, and the last block ends at
/// the end of the piece.
proof fn lemma_block_in_piece(pl: nat, block: nat)
    requires
        block < spec_block_count(pl),
    ensures
        block * BLOCK_MAX < pl,
        pl - block * BLOCK_MAX <= BLOCK_MAX || block + 1 < spec_block_count(pl),
        block * BLOCK_MAX + BLOCK_MAX <= pl || block + 1 == spec_block_count(pl),
{
    let b = BLOCK_MAX as int;
    let p = pl as int;
    let k = block as int;
    let n = spec_block_count(pl) as int;
    assert(n == (p + b - 1) / b);
    assert(k * b < p) by (nonlinear_arith)
        requires b > 0, k < n, n == (p + b - 1) / b, p >= 0, k >= 0;
    assert(p - k * b <= b || k + 1 < n) by (nonlinear_arith)
        requires b > 0, k < n, n == (p + b - 1) / b, p >= 0, k >= 0;
    assert(k * b + b <= p || k + 1 == n) by (nonlinear_arith)
        requires b > 0, k < n, n == (p + b - 1) / b, p >= 0, k >= 0;
}

/// A piece that the download hands over has the length planned for it and the hash
/// that the torrent gives for it.
pub proof fn lemma_done_piece_is_verified(d: PieceDownload, tag: MessageTag, p: Seq<u8>)
    requires
        d.wf(),
    ensures
        d.spec_on_message(tag, p).1 matches StepView::Done(data) ==> {
            &&& sha1_hash(data) == d.expected_hash@
            &&& d.pindex < d.npieces
            &&& data.len() == spec_piece_length(d.total_length as nat, d.plength as nat, d.npieces as nat, d.pindex as nat)
        },
{
    if d.stage == Stage::AwaitBlock {
        lemma_block_in_piece(d.piece_length as nat, d.block as nat);
    } else if d.stage == Stage::AwaitUnchoke && tag == MessageTag::Unchoke && p.len() == 0 && d.pindex < d.npieces {
        let pl = spec_piece_length(d.total_length as nat, d.plength as nat, d.npieces as nat, d.pindex as nat);
        if spec_block_count(pl) == 0 {
            assert(pl == 0) by (nonlinear_arith)
                requires spec_block_count(pl) == 0, spec_block_count(pl) == ((pl + BLOCK_MAX - 1) / (BLOCK_MAX as int)) as nat;
        }
    }
}

/// The first `n` blocks of a piece hold `n * BLOCK_MAX` bytes, or the whole piece where
/// that is less.
proof fn lemma_bytes_in_blocks(pl: nat, n: nat)
    ensures
        bytes_in_blocks(pl, n) == if pl <= n * BLOCK_MAX { pl as int } else { n * BLOCK_MAX },
    decreases n,
{
    if n > 0 {
        lemma_bytes_in_blocks(pl, (n - 1) as nat);
        assert(((n - 1) as nat) * BLOCK_MAX == n * BLOCK_MAX - BLOCK_MAX);
    }
}

/// The blocks of a piece cover it exactly: the bytes in its blocks add up to the piece
/// length, and each block holds at least one byte.
pub proof fn lemma_blocks_cover_piece(pl: nat)
    ensures
        bytes_in_blocks(pl, spec_block_count(pl)) == pl,
        forall|b: nat| b < spec_block_count(pl) ==> #[trigger] bytes_in_block(pl, b) > 0,
{
    let n = spec_block_count(pl);
    assert(pl <= n * BLOCK_MAX) by (nonlinear_arith)
        requires n == ((pl + BLOCK_MAX - 1) / (BLOCK_MAX as int)) as nat;
    lemma_bytes_in_blocks(pl, n);
    assert forall|b: nat| b < spec_block_count(pl) implies #[trigger] bytes_in_block(pl, b) > 0 by {
        lemma_block_in_piece(pl, b);
    }
}

/// The payload of a request holds the index, the offset and the length, each
/// truncated to 32 bits, in big-endian order.
proof fn lemma_request_payload_fields(pindex: nat, begin: nat, length: nat)
    ensures
        request_payload(pindex, begin, length).len() == 12,
        ({
            let v = request_payload(pindex, begin, length);
            &&& be_u32_value(v[0], v[1], v[2], v[3]) == pindex as u32
            &&& be_u32_value(v[4], v[5], v[6], v[7]) == begin as u32
            &&& be_u32_value(v[8], v[9], v[10], v[11]) == length as u32
        }),
{
    lemma_be_u32_roundtrip(pindex as u32, 0, 0, 0, 0);
    lemma_be_u32_roundtrip(begin as u32, 0, 0, 0, 0);
    lemma_be_u32_roundtrip(length as u32, 0, 0, 0, 0);
}

/// Every request that the download sends asks for a block of the piece that it plans
/// to receive next: the piece's index, the block's offset, and as many bytes as lie in
/// that block, which is also the length that the block is checked against when it
/// arrives.
pub proof fn lemma_request_asks_for_block(d: PieceDownload, tag: MessageTag, p: Seq<u8>)
    requires
        d.wf(),
    ensures
        ({
            let (s2, step) = d.spec_on_message(tag, p);
            step matches StepView::Send(t, v) ==> (t == MessageTag::Request ==> {
                &&& s2.stage == Stage::AwaitBlock
                &&& s2.block < s2.nblocks
                &&& s2.nblocks == spec_block_count(s2.piece_length)
                &&& v.len() == 12
                &&& be_u32_value(v[0], v[1], v[2], v[3]) == d.pindex as u32
                &&& be_u32_value(v[4], v[5], v[6], v[7]) == (s2.block * BLOCK_MAX) as u32
                &&& be_u32_value(v[8], v[9], v[10], v[11]) as nat == bytes_in_block(s2.piece_length, s2.block)
                &&& spec_block_length(s2.piece_length, s2.nblocks, s2.block) == bytes_in_block(s2.piece_length, s2.block)
            })
        }),
{
    let (s2, step) = d.spec_on_message(tag, p);
    match step {
        StepView::Send(t, v) => {
            if t == MessageTag::Request {
                assert(s2.stage == Stage::AwaitBlock);
                lemma_block_in_piece(s2.piece_length, s2.block);
                let len = spec_block_length(s2.piece_length, s2.nblocks, s2.block);
                assert(len <= BLOCK_MAX);
                lemma_request_payload_fields(d.pindex as nat, s2.block * (BLOCK_MAX as nat), len);
            }
        },
        _ => {},
    }
}

/// Where `npieces` pieces of `plength` bytes are just enough for `total` bytes, every
/// piece but the last holds `plength` bytes and the last holds what is left, so that
/// together the pieces hold exactly `total` bytes.
pub proof fn lemma_pieces_tile(total: nat, plength: nat, npieces: nat)
    requires
        plength > 0,
        npieces > 0,
        (npieces - 1) * plength < total <= npieces * plength,
    ensures
        forall|i: nat| i + 1 < npieces ==> #[trigger] spec_piece_length(total, plength, npieces, i) == plength,
        spec_piece_length(total, plength, npieces, (npieces - 1) as nat) == total - (npieces - 1) * plength,
{
    let q = npieces - 1;
    let r = total - q * plength;
    assert(q * plength + plength == npieces * plength) by (nonlinear_arith)
        requires q == npieces - 1;
    if r == plength {
        vstd::arithmetic::div_mod::lemma_fundamental_div_mod_converse(total as int, plength as int, q + 1, 0);
    } else {
        vstd::arithmetic::div_mod::lemma_fundamental_div_mod_converse(total as int, plength as int, q, r);
    }
}

/// The download follows the order of the protocol: it answers the peer's bitfield, and
/// only that, by saying it is interested; it goes on after an unchoke without payload,
/// and only that; every failure ends it, and once ended it refuses every message and
/// stays as it is.
pub proof fn lemma_message_order(d: PieceDownload, tag: MessageTag, p: Seq<u8>)
    requires
        d.wf(),
    ensures
        ({
            let (s2, step) = d.spec_on_message(tag, p);
            &&& d.stage == Stage::AwaitBitfield ==> (step !is Fail <==> tag == MessageTag::Bitfield)
            &&& d.stage == Stage::AwaitBitfield && step !is Fail ==> step == StepView::Send(MessageTag::Interested, Seq::<u8>::empty())
                && s2.stage == Stage::AwaitUnchoke
            &&& d.stage == Stage::AwaitUnchoke && step !is Fail ==> tag == MessageTag::Unchoke && p.len() == 0
            &&& d.stage == Stage::AwaitUnchoke && tag == MessageTag::Unchoke && p.len() == 0 && d.pindex < d.npieces
                ==> step !is Fail || spec_block_count(s2.piece_length) == 0
            &&& step is Fail ==> s2.stage == Stage::Finished
            &&& d.stage == Stage::Finished ==> step == StepView::Fail(Failure::AlreadyFinished) && s2 == d.state()
        }),
{
}

/// A block is taken only from a piece message whose payload names the piece and the
/// offset that were requested and carries as many bytes as lie in that block; the
/// bytes after the index and offset are appended to what has arrived, and nothing else
/// changes but the block that is awaited next.
pub proof fn lemma_block_accepted(d: PieceDownload, tag: MessageTag, p: Seq<u8>)
    requires
        d.wf(),
        d.stage == Stage::AwaitBlock,
    ensures
        ({
            let (s2, step) = d.spec_on_message(tag, p);
            let accepted = {
                &&& tag == MessageTag::Piece
                &&& p.len() >= 8
                &&& be_u32_value(p[0], p[1], p[2], p[3]) == d.pindex as u32
                &&& be_u32_value(p[4], p[5], p[6], p[7]) == (d.block * BLOCK_MAX) as u32
                &&& p.len() - 8 == bytes_in_block(d.piece_length as nat, d.block as nat)
            };
            &&& accepted ==> s2.buf == d.buf@ + p.skip(8) && s2.piece_length == d.piece_length
                && s2.nblocks == d.nblocks
            &&& accepted && d.block + 1 < d.nblocks ==> s2.block == d.block + 1 && s2.stage == Stage::AwaitBlock
            &&& accepted && d.block + 1 == d.nblocks ==> s2.stage == Stage::Finished
            &&& !accepted ==> step is Fail && s2.stage == Stage::Finished && s2.buf == d.buf@
        }),
{
    lemma_block_in_piece(d.piece_length as nat, d.block as nat);
}

} // verus!
