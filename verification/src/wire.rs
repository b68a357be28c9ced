//! The peer wire protocol: length-prefixed message framing, the
//! post-handshake negotiation state machine, and the plan that splits a
//! piece into fixed-size block requests.

use vstd::prelude::*;
use vstd::slice::slice_subrange;
use vstd::slice::slice_to_vec;

use crate::bencode::push_bytes;
use crate::errors::TorrentError;
use crate::handshake::slices_eq;
use crate::sha1sum::sha1_digest;
use crate::sha1sum::sha1_of;

verus! {

broadcast use vstd::std_specs::vec::group_vec_axioms, vstd::seq::group_seq_axioms;

/// Blocks are requested in chunks of 16 KiB; the last one of a piece
/// may be shorter.
pub const BLOCK_SIZE: u32 = 16384;

pub const MSG_UNCHOKE: u8 = 1;

pub const MSG_INTERESTED: u8 = 2;

pub const MSG_BITFIELD: u8 = 5;

pub const MSG_REQUEST: u8 = 6;

pub const MSG_PIECE: u8 = 7;

/// The four big-endian bytes of `n`, most significant first.
pub open spec fn be32_bytes(n: int) -> Seq<u8> {
    seq![
        ((n / 0x1000000) % 256) as u8,
        ((n / 0x10000) % 256) as u8,
        ((n / 0x100) % 256) as u8,
        (n % 256) as u8,
    ]
}

/// The value of four big-endian bytes.
pub open spec fn be32_val(s: Seq<u8>) -> int {
    s[0] * 0x1000000 + s[1] * 0x10000 + s[2] * 0x100 + s[3]
}

/// Reading four big-endian bytes back gives the number they encode.
pub proof fn lemma_be32_round_trip(n: int)
    requires
        0 <= n < 0x100000000,
    ensures
        be32_val(be32_bytes(n)) == n,
{
    assert(be32_val(be32_bytes(n)) == n) by (nonlinear_arith)
        requires
            0 <= n < 0x100000000,
    ;
}

/// The four big-endian bytes of `n`.
pub fn u32_to_be(n: u32) -> (r: Vec<u8>)
    ensures
        r@ == be32_bytes(n as int),
        r@.len() == 4,
{
    let mut out: Vec<u8> = Vec::new();
    out.push(((n / 0x1000000) % 256) as u8);
    out.push(((n / 0x10000) % 256) as u8);
    out.push(((n / 0x100) % 256) as u8);
    out.push((n % 256) as u8);
    proof {
        assert(out@ =~= be32_bytes(n as int));
    }
    out
}

/// The value of the four big-endian bytes of `b`.
pub fn u32_from_be(b: &[u8]) -> (r: u32)
    requires
        b@.len() == 4,
    ensures
        r as int == be32_val(b@),
{
    (b[0] as u32) * 0x1000000 + (b[1] as u32) * 0x10000 + (b[2] as u32) * 0x100 + (b[3] as u32)
}

/// Frames one message: a four-byte big-endian length prefix covering
/// the id byte and the payload, then the id, then the payload.
pub fn frame_message(id: u8, payload: &Vec<u8>) -> (r: Vec<u8>)
    requires
        payload@.len() + 1 <= u32::MAX,
    ensures
        r@ == be32_bytes((payload@.len() + 1) as int) + seq![id] + payload@,
{
    let len: u32 = (payload.len() + 1) as u32;
    let mut out = u32_to_be(len);
    out.push(id);
    push_bytes(&mut out, payload.as_slice());
    proof {
        assert(out@ =~= be32_bytes((payload@.len() + 1) as int) + seq![id] + payload@);
    }
    out
}

/// Splits a framed message body into its id byte and payload. An empty
/// body (a keep-alive frame) has no id and is reported as
/// `WireProtocolError`; the caller skips keep-alives before calling.
pub fn split_message(message: &Vec<u8>) -> (r: Result<(u8, Vec<u8>), TorrentError>)
    ensures
        match r {
            Ok((id, payload)) => message@.len() >= 1 && id == message@[0] && payload@
                == message@.subrange(1, message@.len() as int),
            Err(e) => message@.len() == 0 && e == TorrentError::WireProtocolError,
        },
{
    if message.len() == 0 {
        return Err(TorrentError::WireProtocolError);
    }
    let id = message[0];
    let payload = slice_to_vec(slice_subrange(message.as_slice(), 1, message.len()));
    Ok((id, payload))
}

/// The 12-byte payload of a block request: piece index, begin offset
/// and block length, each four bytes big endian.
pub fn request_payload(index: u32, begin: u32, length: u32) -> (r: Vec<u8>)
    ensures
        r@ == be32_bytes(index as int) + be32_bytes(begin as int) + be32_bytes(length as int),
        r@.len() == 12,
{
    let mut out = u32_to_be(index);
    let b = u32_to_be(begin);
    let l = u32_to_be(length);
    push_bytes(&mut out, b.as_slice());
    push_bytes(&mut out, l.as_slice());
    out
}

/// A piece-message payload matches a request when it is long enough
/// and opens with the requested piece index and begin offset.
pub open spec fn piece_payload_matches(payload: Seq<u8>, index: int, begin: int, length: int) -> bool {
    &&& payload.len() >= 8 + length
    &&& be32_val(payload.subrange(0, 4)) == index
    &&& be32_val(payload.subrange(4, 8)) == begin
}

/// Extracts the block bytes from a piece-message payload. Succeeds
/// exactly when the payload matches the request; the block is
/// `payload[8 .. 8 + length]`.
pub fn parse_piece_payload(payload: &Vec<u8>, index: u32, begin: u32, length: u32) -> (r: Result<
    Vec<u8>,
    TorrentError,
>)
    ensures
        match r {
            Ok(block) => piece_payload_matches(payload@, index as int, begin as int, length as int)
                && block@ == payload@.subrange(8, 8 + length),
            Err(e) => !piece_payload_matches(payload@, index as int, begin as int, length as int)
                && e == TorrentError::WireProtocolError,
        },
{
    if payload.len() < 8 {
        return Err(TorrentError::WireProtocolError);
    }
    let got_index = u32_from_be(slice_subrange(payload.as_slice(), 0, 4));
    if got_index != index {
        return Err(TorrentError::WireProtocolError);
    }
    let got_begin = u32_from_be(slice_subrange(payload.as_slice(), 4, 8));
    if got_begin != begin {
        return Err(TorrentError::WireProtocolError);
    }
    if payload.len() - 8 < length as usize {
        return Err(TorrentError::WireProtocolError);
    }
    let block = slice_to_vec(slice_subrange(payload.as_slice(), 8, 8 + length as usize));
    Ok(block)
}

/// The negotiation states of one peer session, entered right after the
/// handshake: read the bitfield, declare interest, wait to be
/// unchoked, then request blocks.
#[derive(Clone, Copy, PartialEq, Eq, Structural, Debug)]
pub enum SessionState {
    AwaitingBitfield,
    AwaitingUnchoke,
    Ready,
    Closed,
}

/// What the driver must do after a message has been taken in.
#[derive(Clone, Copy, PartialEq, Eq, Structural, Debug)]
pub enum WireAction {
    /// Send an interested message, then read on.
    SendInterested,
    /// Read the next message.
    AwaitMore,
    /// The session is ready: block requests may be issued.
    StartRequesting,
}

/// The negotiation step for one received message: the first message
/// (the bitfield) is taken in and answered with interest; while
/// waiting to be unchoked, only an unchoke advances and nothing else
/// is fatal; a closed session stays closed.
pub open spec fn spec_advance(state: SessionState, message_id: u8) -> (SessionState, WireAction) {
    match state {
        SessionState::AwaitingBitfield => (SessionState::AwaitingUnchoke, WireAction::SendInterested),
        SessionState::AwaitingUnchoke => if message_id == MSG_UNCHOKE {
            (SessionState::Ready, WireAction::StartRequesting)
        } else {
            (SessionState::AwaitingUnchoke, WireAction::AwaitMore)
        },
        SessionState::Ready => (SessionState::Ready, WireAction::AwaitMore),
        SessionState::Closed => (SessionState::Closed, WireAction::AwaitMore),
    }
}

/// Advances the negotiation state machine on one received message.
pub fn advance_session(state: SessionState, message_id: u8) -> (r: (SessionState, WireAction))
    ensures
        r == spec_advance(state, message_id),
{
    match state {
        SessionState::AwaitingBitfield => (
            SessionState::AwaitingUnchoke,
            WireAction::SendInterested,
        ),
        SessionState::AwaitingUnchoke => if message_id == MSG_UNCHOKE {
            (SessionState::Ready, WireAction::StartRequesting)
        } else {
            (SessionState::AwaitingUnchoke, WireAction::AwaitMore)
        },
        SessionState::Ready => (SessionState::Ready, WireAction::AwaitMore),
        SessionState::Closed => (SessionState::Closed, WireAction::AwaitMore),
    }
}

/// The size of one piece: the full piece length, except that the last
/// piece holds only what remains of the file.
pub open spec fn spec_piece_size(torrent_length: int, piece_length: int, piece_index: int) -> int {
    let rem = torrent_length - piece_length * piece_index;
    if rem < piece_length {
        rem
    } else {
        piece_length
    }
}

/// Computes one piece's actual size. The piece must start within the
/// file: pieces past the end have no size.
pub fn piece_size(torrent_length: u64, piece_length: u64, piece_index: u64) -> (r: u64)
    requires
        piece_length * piece_index <= torrent_length,
    ensures
        r as int == spec_piece_size(torrent_length as int, piece_length as int, piece_index as int),
{
    let consumed = piece_length * piece_index;
    let rem = torrent_length - consumed;
    if rem < piece_length {
        rem
    } else {
        piece_length
    }
}

/// How many 16 KiB blocks cover `piece_size` bytes.
pub open spec fn spec_block_count(piece_size: int) -> int {
    (piece_size + 16383) / 16384
}

/// The block requests that cover one piece, in increasing offset
/// order: every block is 16 KiB except a shorter final one, offsets
/// rise in 16 KiB steps from zero, and the sizes sum to the piece.
pub fn block_plan(piece_size: u32) -> (r: Vec<(u32, u32)>)
    ensures
        r@.len() == spec_block_count(piece_size as int),
        forall|i: int|
            0 <= i < r@.len() ==> (#[trigger] r@[i]).0 == 16384 * i && r@[i].1 == (
            if piece_size - 16384 * i < 16384 {
                piece_size - 16384 * i
            } else {
                16384
            }),
{
    let mut out: Vec<(u32, u32)> = Vec::new();
    let mut begin: u32 = 0;
    let mut remaining: u32 = piece_size;
    while remaining > 0
        invariant
            out@.len() <= spec_block_count(piece_size as int),
            remaining == (if piece_size - 16384 * out@.len() > 0 {
                piece_size - 16384 * out@.len()
            } else {
                0
            }),
            begin == piece_size - remaining,
            out@.len() == 0 || 16384 * (out@.len() - 1) < piece_size,
            forall|i: int|
                0 <= i < out@.len() ==> (#[trigger] out@[i]).0 == 16384 * i && out@[i].1 == (
                if piece_size - 16384 * i < 16384 {
                    piece_size - 16384 * i
                } else {
                    16384
                }),
        decreases remaining,
    {
        let sz: u32 = if remaining < BLOCK_SIZE {
            remaining
        } else {
            BLOCK_SIZE
        };
        out.push((begin, sz));
        begin = begin + sz;
        remaining = remaining - sz;
    }
    proof {
        if piece_size == 0 {
            assert(spec_block_count(0) == 0);
        } else {
            assert(out@.len() == spec_block_count(piece_size as int));
        }
    }
    out
}

/// The concatenation of the blocks `blocks[i..]`, in order.
pub open spec fn concat_of(blocks: Seq<Vec<u8>>, i: int) -> Seq<u8>
    decreases blocks.len() - i,
{
    if i < 0 || i >= blocks.len() {
        Seq::empty()
    } else {
        blocks[i]@ + concat_of(blocks, i + 1)
    }
}

/// Reassembles a piece from its blocks, in order.
pub fn concat_blocks(blocks: &Vec<Vec<u8>>) -> (r: Vec<u8>)
    ensures
        r@ == concat_of(blocks@, 0),
{
    let mut out: Vec<u8> = Vec::new();
    let mut k: usize = 0;
    proof {
        assert(Seq::<u8>::empty() + concat_of(blocks@, 0) =~= concat_of(blocks@, 0));
    }
    while k < blocks.len()
        invariant
            k <= blocks.len(),
            out@ + concat_of(blocks@, k as int) == concat_of(blocks@, 0),
        decreases blocks.len() - k,
    {
        let ghost prev = out@;
        push_bytes(&mut out, blocks[k].as_slice());
        proof {
            assert(concat_of(blocks@, k as int) == blocks@[k as int]@ + concat_of(
                blocks@,
                k + 1,
            ));
            assert((prev + blocks@[k as int]@) + concat_of(blocks@, k + 1) =~= prev + (
            blocks@[k as int]@ + concat_of(blocks@, k + 1)));
        }
        k = k + 1;
    }
    proof {
        assert(concat_of(blocks@, blocks@.len() as int) =~= Seq::<u8>::empty());
        assert(out@ + Seq::<u8>::empty() =~= out@);
    }
    out
}

/// Checks a downloaded piece against its expected SHA-1 hash from the
/// torrent's piece table. Succeeds exactly when the digest matches;
/// a differing digest is `PieceHashMismatch`, and the piece bytes are
/// never passed off as good.
pub fn verify_piece(piece: &[u8], expected_hash: &[u8]) -> (r: Result<(), TorrentError>)
    ensures
        match r {
            Ok(()) => sha1_of(piece@) == expected_hash@,
            Err(e) => sha1_of(piece@) != expected_hash@ && e == TorrentError::PieceHashMismatch,
        },
{
    let digest = sha1_digest(piece);
    if slices_eq(digest.as_slice(), expected_hash) {
        Ok(())
    } else {
        Err(TorrentError::PieceHashMismatch)
    }
}

} // verus!
