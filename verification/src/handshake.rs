//! The fixed 68-byte peer handshake: building the outgoing frame and
//! validating the peer's response.

use vstd::prelude::*;
use vstd::slice::slice_subrange;
use vstd::slice::slice_to_vec;

use crate::bencode::push_bytes;
use crate::errors::TorrentError;
use crate::textfmt::hex_chars;
use crate::textfmt::hex_encode;

verus! {

broadcast use vstd::std_specs::vec::group_vec_axioms, vstd::seq::group_seq_axioms;

/// The 19 bytes of the ASCII protocol name `BitTorrent protocol`.
pub open spec fn protocol_bytes() -> Seq<u8> {
    seq![
        66u8, 105u8, 116u8, 84u8, 111u8, 114u8, 114u8, 101u8, 110u8, 116u8, 32u8, 112u8, 114u8,
        111u8, 116u8, 111u8, 99u8, 111u8, 108u8,
    ]
}

/// The 68-byte handshake frame: the protocol name length (19), the
/// protocol name, eight reserved zero bytes, the info-hash and the
/// local peer id.
pub open spec fn spec_handshake_frame(info_hash: Seq<u8>, peer_id: Seq<u8>) -> Seq<u8> {
    seq![19u8] + protocol_bytes() + seq![0u8, 0u8, 0u8, 0u8, 0u8, 0u8, 0u8, 0u8] + info_hash
        + peer_id
}

/// A handshake response is accepted when it is at least 68 bytes long,
/// opens with the protocol name length and name, and echoes the
/// info-hash that was sent.
pub open spec fn response_accepted(resp: Seq<u8>, info_hash: Seq<u8>) -> bool {
    &&& resp.len() >= 68
    &&& resp.subrange(0, 20) == seq![19u8] + protocol_bytes()
    &&& resp.subrange(28, 48) == info_hash
}

/// One peer handshake: the parameters to send and, once a response has
/// been accepted, the remote peer id it carried, in hex.
pub struct Handshake {
    /// The 20 raw bytes of the torrent's info-hash.
    pub info_hash: Vec<u8>,
    /// The 20 bytes this client announces as its peer id.
    pub peer_id: [u8; 20],
    /// The remote peer id of the last accepted response, in hex.
    pub response_peer_id: Option<String>,
}

impl Handshake {
    /// A handshake for the given info-hash and local peer id.
    pub fn new(info_hash: Vec<u8>, peer_id: [u8; 20]) -> (r: Handshake)
        requires
            info_hash@.len() == 20,
        ensures
            r.info_hash@ == info_hash@,
            r.peer_id@ == peer_id@,
            r.response_peer_id is None,
    {
        Handshake { info_hash, peer_id, response_peer_id: None }
    }

    /// The 68 bytes to send: length byte, protocol name, reserved
    /// zeros, info-hash, local peer id.
    pub fn frame(&self) -> (r: Vec<u8>)
        requires
            self.info_hash@.len() == 20,
        ensures
            r@ == spec_handshake_frame(self.info_hash@, self.peer_id@),
            r@.len() == 68,
    {
        let header: [u8; 28] = [
            19, 66, 105, 116, 84, 111, 114, 114, 101, 110, 116, 32, 112, 114, 111, 116, 111, 99,
            111, 108, 0, 0, 0, 0, 0, 0, 0, 0,
        ];
        let mut out: Vec<u8> = Vec::new();
        push_bytes(&mut out, &header);
        push_bytes(&mut out, self.info_hash.as_slice());
        push_bytes(&mut out, &self.peer_id);
        proof {
            assert(header@ =~= seq![19u8] + protocol_bytes() + seq![
                0u8, 0u8, 0u8, 0u8, 0u8, 0u8, 0u8, 0u8,
            ]);
            assert(out@ =~= spec_handshake_frame(self.info_hash@, self.peer_id@));
        }
        out
    }

    /// Validates a handshake response. Succeeds exactly when the
    /// response is accepted (68 bytes, right header, echoed info-hash);
    /// it then returns the remote peer id, the last 20 bytes, and
    /// records its hex form. A short or mismatched response is
    /// `HandshakeFailed` and records nothing: a truncated peer id is
    /// never returned.
    pub fn parse_response(&mut self, resp: &[u8]) -> (r: Result<Vec<u8>, TorrentError>)
        ensures
            final(self).info_hash == old(self).info_hash,
            final(self).peer_id == old(self).peer_id,
            match r {
                Ok(pid) => response_accepted(resp@, old(self).info_hash@) && pid@
                    == resp@.subrange(48, 68) && (final(self).response_peer_id matches Some(h)
                    && h@ == hex_chars(resp@.subrange(48, 68), 0)),
                Err(e) => !response_accepted(resp@, old(self).info_hash@) && e
                    == TorrentError::HandshakeFailed && final(self).response_peer_id == old(
                    self,
                ).response_peer_id,
            },
    {
        if resp.len() < 68 {
            return Err(TorrentError::HandshakeFailed);
        }
        let expected_head: [u8; 20] = [
            19, 66, 105, 116, 84, 111, 114, 114, 101, 110, 116, 32, 112, 114, 111, 116, 111, 99,
            111, 108,
        ];
        proof {
            assert(expected_head@ =~= seq![19u8] + protocol_bytes());
        }
        let head = slice_subrange(resp, 0, 20);
        if !slices_eq(head, &expected_head) {
            return Err(TorrentError::HandshakeFailed);
        }
        let echoed = slice_subrange(resp, 28, 48);
        if !slices_eq(echoed, self.info_hash.as_slice()) {
            return Err(TorrentError::HandshakeFailed);
        }
        let pid = slice_to_vec(slice_subrange(resp, 48, 68));
        self.response_peer_id = Some(hex_encode(pid.as_slice()));
        Ok(pid)
    }
}

/// Byte-wise equality of two slices.
pub fn slices_eq(a: &[u8], b: &[u8]) -> (r: bool)
    ensures
        r == (a@ == b@),
{
    if a.len() != b.len() {
        return false;
    }
    let mut k: usize = 0;
    while k < a.len()
        invariant
            k <= a.len(),
            a@.len() == b@.len(),
            forall|j: int| 0 <= j < k ==> a@[j] == b@[j],
        decreases a.len() - k,
    {
        if a[k] != b[k] {
            return false;
        }
        k = k + 1;
    }
    proof {
        assert(a@ =~= b@);
    }
    true
}

} // verus!
