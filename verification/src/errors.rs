use vstd::prelude::*;

verus! {

/// Failure taxonomy of the protocol stack. Every operation that can fail
/// reports one of these; none of them is recovered from internally.
#[derive(Clone, Copy, PartialEq, Eq, Structural, Debug)]
pub enum TorrentError {
    /// The input does not match the bencode grammar at the current position.
    MalformedEncoding,
    /// The torrent file lacks a required field or a field has the wrong type.
    InvalidTorrentFile,
    /// The concatenated piece-hash table is not a multiple of 20 bytes.
    CorruptPieceTable,
    /// The tracker transport failed or its response body is malformed.
    TrackerError,
    /// The peer handshake response is short or does not echo our parameters.
    HandshakeFailed,
    /// A peer wire frame is malformed or does not match the pending request.
    WireProtocolError,
    /// A downloaded piece does not hash to the expected value.
    PieceHashMismatch,
}

impl TorrentError {
    /// A short human-readable name for the error, for callers that print it.
    pub fn message(&self) -> &'static str {
        match self {
            TorrentError::MalformedEncoding => "malformed bencode data",
            TorrentError::InvalidTorrentFile => "invalid torrent file",
            TorrentError::CorruptPieceTable => "corrupt piece table",
            TorrentError::TrackerError => "tracker request failed",
            TorrentError::HandshakeFailed => "peer handshake failed",
            TorrentError::WireProtocolError => "peer wire protocol error",
            TorrentError::PieceHashMismatch => "piece hash mismatch",
        }
    }
}

} // verus!
