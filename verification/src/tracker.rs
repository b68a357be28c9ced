//! The tracker response model: the re-announce interval and the compact
//! peer list, expanded into `address:port` strings.

use vstd::prelude::*;

use crate::bencode::Bencode;
use crate::bencode::BencodeSpec;
use crate::bencode::decode_value;
use crate::bencode::pair_models_of;
use crate::bencode::spec_decode_at;
use crate::errors::TorrentError;
use crate::textfmt::chars_of_bytes;
use crate::textfmt::dec_chars;
use crate::textfmt::push_bytes_as_chars;
use crate::textfmt::push_char;
use crate::textfmt::push_dec;
use crate::urlenc::percent_chars;
use crate::urlenc::url_encoding;
use vstd::string::StringExecFns;
use crate::torrent::clone_bytes;
use crate::torrent::dict_get;
use crate::torrent::get_dict;

verus! {

broadcast use vstd::std_specs::vec::group_vec_axioms, vstd::seq::group_seq_axioms;

pub open spec fn key_interval() -> Seq<u8> {
    seq![105u8, 110u8, 116u8, 101u8, 114u8, 118u8, 97u8, 108u8]
}

pub open spec fn key_peers() -> Seq<u8> {
    seq![112u8, 101u8, 101u8, 114u8, 115u8]
}

/// The abstract content of a tracker response.
#[verifier::ext_equal]
pub struct TrackerModel {
    pub interval: int,
    pub peers: Seq<u8>,
}

/// A decoded tracker response: the re-announce interval in seconds and
/// the compact peer list, six bytes per peer.
#[derive(Debug)]
pub struct Tracker {
    pub interval: u64,
    pub peers: Vec<u8>,
}

impl View for Tracker {
    type V = TrackerModel;

    open spec fn view(&self) -> TrackerModel {
        TrackerModel { interval: self.interval as int, peers: self.peers@ }
    }
}

/// What parsing a tracker response yields: the body must decode to a
/// dictionary with a non-negative `interval` integer and a `peers`
/// byte string whose length is a multiple of six.
pub open spec fn spec_parse_tracker(s: Seq<u8>) -> Option<TrackerModel> {
    match spec_decode_at(s, 0) {
        None => None,
        Some((top, _end)) => match top {
            BencodeSpec::Dict(pairs) => match (
                dict_get(pairs, key_interval()),
                dict_get(pairs, key_peers()),
            ) {
                (Some(BencodeSpec::Int(iv)), Some(BencodeSpec::Bytes(ps))) => if iv < 0
                    || ps.len() % 6 != 0 {
                    None
                } else {
                    Some(TrackerModel { interval: iv, peers: ps })
                },
                _ => None,
            },
            _ => None,
        },
    }
}

/// Parses a tracker response body. Succeeds exactly when the bytes
/// decode to a dictionary with a well-shaped interval and peer list;
/// any other shape is `TrackerError`.
pub fn decode_tracker_data(data: &[u8]) -> (r: Result<Tracker, TorrentError>)
    ensures
        match r {
            Ok(t) => spec_parse_tracker(data@) == Some(t@),
            Err(e) => spec_parse_tracker(data@) is None && e == TorrentError::TrackerError,
        },
{
    let top = match decode_value(data, 0) {
        Ok((v, _consumed)) => v,
        Err(_) => {
            return Err(TorrentError::TrackerError);
        },
    };
    let pairs = match top {
        Bencode::Dict(p) => p,
        _ => {
            return Err(TorrentError::TrackerError);
        },
    };
    let key_interval_b: [u8; 8] = [105, 110, 116, 101, 114, 118, 97, 108];
    let key_peers_b: [u8; 5] = [112, 101, 101, 114, 115];
    proof {
        assert(key_interval_b@ =~= key_interval());
        assert(key_peers_b@ =~= key_peers());
    }
    let interval: u64 = match get_dict(&pairs, &key_interval_b) {
        Some(v) => match v {
            Bencode::Int(n) => {
                if *n < 0 {
                    return Err(TorrentError::TrackerError);
                }
                *n as u64
            },
            _ => {
                return Err(TorrentError::TrackerError);
            },
        },
        None => {
            return Err(TorrentError::TrackerError);
        },
    };
    let peers: Vec<u8> = match get_dict(&pairs, &key_peers_b) {
        Some(v) => match v {
            Bencode::Bytes(b) => {
                if b.len() % 6 != 0 {
                    return Err(TorrentError::TrackerError);
                }
                clone_bytes(b)
            },
            _ => {
                return Err(TorrentError::TrackerError);
            },
        },
        None => {
            return Err(TorrentError::TrackerError);
        },
    };
    let t = Tracker { interval, peers };
    proof {
        assert(spec_parse_tracker(data@) == Some(t@)) by {
            assert(spec_parse_tracker(data@) matches Some(m) && m =~= t@);
        }
    }
    Ok(t)
}

/// The port of the six-byte peer entry at `off`: the last two bytes,
/// big endian.
pub open spec fn spec_peer_port(peers: Seq<u8>, off: int) -> int {
    peers[off + 4] * 256 + peers[off + 5]
}

/// The `address:port` rendering of the six-byte peer entry at `off`:
/// the four address octets in decimal separated by dots, a colon, and
/// the port in decimal.
pub open spec fn spec_peer_str(peers: Seq<u8>, off: int) -> Seq<char> {
    dec_chars(peers[off] as int) + seq!['.'] + dec_chars(peers[off + 1] as int) + seq!['.']
        + dec_chars(peers[off + 2] as int) + seq!['.'] + dec_chars(peers[off + 3] as int)
        + seq![':'] + dec_chars(spec_peer_port(peers, off))
}

impl Tracker {
    /// Expands the compact peer list: one `address:port` string for
    /// each six-byte entry, in order.
    pub fn get_peers_ips(&self) -> (r: Vec<String>)
        requires
            self.peers@.len() % 6 == 0,
        ensures
            r@.len() == self.peers@.len() / 6,
            forall|i: int| 0 <= i < r@.len() ==> r@[i]@ == spec_peer_str(self.peers@, 6 * i),
    {
        let count = self.peers.len() / 6;
        let mut out: Vec<String> = Vec::new();
        let mut k: usize = 0;
        while k < count
            invariant
                k <= count,
                count == self.peers@.len() / 6,
                self.peers@.len() % 6 == 0,
                self.peers@.len() <= usize::MAX,
                out@.len() == k,
                forall|i: int| 0 <= i < k ==> out@[i]@ == spec_peer_str(self.peers@, 6 * i),
            decreases count - k,
        {
            proof {
                assert(6 * ((k as int) + 1) <= 6 * (self.peers@.len() / 6));
                assert(6 * (self.peers@.len() / 6) + self.peers@.len() % 6
                    == self.peers@.len());
            }
            let off = 6 * k;
            let mut s = String::new();
            push_dec(&mut s, self.peers[off] as u64);
            push_char(&mut s, '.');
            push_dec(&mut s, self.peers[off + 1] as u64);
            push_char(&mut s, '.');
            push_dec(&mut s, self.peers[off + 2] as u64);
            push_char(&mut s, '.');
            push_dec(&mut s, self.peers[off + 3] as u64);
            push_char(&mut s, ':');
            let port: u64 = (self.peers[off + 4] as u64) * 256 + (self.peers[off + 5] as u64);
            push_dec(&mut s, port);
            proof {
                assert(s@ =~= spec_peer_str(self.peers@, 6 * (k as int)));
            }
            out.push(s);
            k = k + 1;
        }
        out
    }
}

/// The full announce query: the announce URL, the percent-encoded raw
/// info-hash, the peer id, the listen port, zero uploaded and
/// downloaded counts, the bytes still wanted, and the compact flag.
pub open spec fn spec_announce_url(
    announce: Seq<u8>,
    info_hash: Seq<u8>,
    peer_id: Seq<u8>,
    port: int,
    left: int,
) -> Seq<char> {
    chars_of_bytes(announce) + "?info_hash="@ + percent_chars(info_hash, 0) + "&peer_id="@
        + chars_of_bytes(peer_id) + "&port="@ + dec_chars(port)
        + "&uploaded=0&downloaded=0&left="@ + dec_chars(left) + "&compact=1"@
}

/// Builds the tracker announce URL. The info-hash is percent-encoded
/// byte for byte; the other fields are written in decimal.
pub fn announce_url(
    announce: &[u8],
    info_hash: &[u8],
    peer_id: &[u8],
    port: u16,
    left: u64,
) -> (r: String)
    ensures
        r@ == spec_announce_url(announce@, info_hash@, peer_id@, port as int, left as int),
{
    let mut s = String::new();
    push_bytes_as_chars(&mut s, announce);
    s.append("?info_hash=");
    let enc = url_encoding(info_hash);
    s.append(enc.as_str());
    s.append("&peer_id=");
    push_bytes_as_chars(&mut s, peer_id);
    s.append("&port=");
    push_dec(&mut s, port as u64);
    s.append("&uploaded=0&downloaded=0&left=");
    push_dec(&mut s, left as u64);
    s.append("&compact=1");
    proof {
        assert(s@ =~= spec_announce_url(
            announce@,
            info_hash@,
            peer_id@,
            port as int,
            left as int,
        ));
    }
    s
}

} // verus!
