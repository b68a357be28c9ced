//! The torrent metadata model: a decoded torrent file with its typed
//! fields, the info-hash derived from the re-encoded info dictionary,
//! and the per-piece hash table.

use vstd::prelude::*;
use vstd::slice::slice_subrange;
use vstd::slice::slice_to_vec;

use crate::bencode::Bencode;
use crate::bencode::BencodeSpec;
use crate::bencode::decode_value;
use crate::bencode::encode;
use crate::bencode::pair_models_of;
use crate::bencode::lemma_pair_models_of;
use crate::bencode::spec_decode_at;
use crate::bencode::spec_encode;
use crate::errors::TorrentError;
use crate::sha1sum::sha1_digest;
use crate::sha1sum::sha1_of;
use crate::textfmt::hex_chars;
use crate::textfmt::hex_encode;

verus! {

broadcast use vstd::std_specs::vec::group_vec_axioms, vstd::seq::group_seq_axioms;

/// Looks the key up among `pairs[i..]`: the value of the first pair
/// whose key matches, or nothing.
pub open spec fn dict_get_from(
    pairs: Seq<(Seq<u8>, BencodeSpec)>,
    key: Seq<u8>,
    i: int,
) -> Option<BencodeSpec>
    decreases pairs.len() - i,
{
    if i < 0 || i >= pairs.len() {
        None
    } else if pairs[i].0 == key {
        Some(pairs[i].1)
    } else {
        dict_get_from(pairs, key, i + 1)
    }
}

/// The value of the first pair whose key is `key`, or nothing.
pub open spec fn dict_get(pairs: Seq<(Seq<u8>, BencodeSpec)>, key: Seq<u8>) -> Option<
    BencodeSpec,
> {
    dict_get_from(pairs, key, 0)
}

proof fn lemma_dict_get_hit(pairs: Seq<(Seq<u8>, BencodeSpec)>, key: Seq<u8>, i: int)
    requires
        0 <= i < pairs.len(),
        pairs[i].0 == key,
        forall|j: int| 0 <= j < i ==> pairs[j].0 != key,
    ensures
        dict_get(pairs, key) == Some(pairs[i].1),
    decreases i,
{
    lemma_dict_get_step(pairs, key, 0, i);
}

proof fn lemma_dict_get_step(pairs: Seq<(Seq<u8>, BencodeSpec)>, key: Seq<u8>, from: int, i: int)
    requires
        0 <= from <= i < pairs.len(),
        pairs[i].0 == key,
        forall|j: int| from <= j < i ==> pairs[j].0 != key,
    ensures
        dict_get_from(pairs, key, from) == Some(pairs[i].1),
    decreases i - from,
{
    if from < i {
        lemma_dict_get_step(pairs, key, from + 1, i);
    }
}

proof fn lemma_dict_get_miss(pairs: Seq<(Seq<u8>, BencodeSpec)>, key: Seq<u8>, from: int)
    requires
        0 <= from <= pairs.len(),
        forall|j: int| from <= j < pairs.len() ==> pairs[j].0 != key,
    ensures
        dict_get_from(pairs, key, from) is None,
    decreases pairs.len() - from,
{
    if from < pairs.len() {
        lemma_dict_get_miss(pairs, key, from + 1);
    }
}

/// Byte-wise equality of a vector and a slice.
fn bytes_eq(a: &Vec<u8>, b: &[u8]) -> (r: bool)
    ensures
        r == (a@ == b@),
{
    if a.len() != b.len() {
        return false;
    }
    let mut k: usize = 0;
    while k < a.len()
        invariant
            k <= a.len(),
            a@.len() == b@.len(),
            forall|j: int| 0 <= j < k ==> a@[j] == b@[j],
        decreases a.len() - k,
    {
        if a[k] != b[k] {
            return false;
        }
        k = k + 1;
    }
    proof {
        assert(a@ =~= b@);
    }
    true
}

/// The index of the first pair whose key is `key`, if any.
fn find_key(pairs: &Vec<(Vec<u8>, Bencode)>, key: &[u8]) -> (r: Option<usize>)
    ensures
        match r {
            Some(i) => i < pairs@.len() && pairs@[i as int].0@ == key@ && forall|j: int|
                0 <= j < i ==> pairs@[j].0@ != key@,
            None => forall|j: int| 0 <= j < pairs@.len() ==> pairs@[j].0@ != key@,
        },
{
    let mut k: usize = 0;
    while k < pairs.len()
        invariant
            k <= pairs.len(),
            forall|j: int| 0 <= j < k ==> pairs@[j].0@ != key@,
        decreases pairs.len() - k,
    {
        if bytes_eq(&pairs[k].0, key) {
            return Some(k);
        }
        k = k + 1;
    }
    None
}

/// The value of the first pair whose key is `key`, if any, matching
/// `dict_get` on the dictionary's model.
pub fn get_dict<'a>(pairs: &'a Vec<(Vec<u8>, Bencode)>, key: &[u8]) -> (r: Option<&'a Bencode>)
    ensures
        match r {
            Some(v) => dict_get(pair_models_of(pairs@, 0), key@) == Some(v@),
            None => dict_get(pair_models_of(pairs@, 0), key@) is None,
        },
{
    proof {
        lemma_pair_models_of(pairs@, 0);
    }
    let ghost ps = pair_models_of(pairs@, 0);
    match find_key(pairs, key) {
        Some(i) => {
            proof {
                lemma_dict_get_hit(ps, key@, i as int);
            }
            Some(&pairs[i].1)
        },
        None => {
            proof {
                lemma_dict_get_miss(ps, key@, 0);
            }
            None
        },
    }
}

/// A fresh copy of the given bytes.
pub fn clone_bytes(v: &Vec<u8>) -> (r: Vec<u8>)
    ensures
        r@ == v@,
{
    slice_to_vec(v.as_slice())
}

pub open spec fn key_announce() -> Seq<u8> {
    seq![97u8, 110u8, 110u8, 111u8, 117u8, 110u8, 99u8, 101u8]
}

pub open spec fn key_info() -> Seq<u8> {
    seq![105u8, 110u8, 102u8, 111u8]
}

pub open spec fn key_name() -> Seq<u8> {
    seq![110u8, 97u8, 109u8, 101u8]
}

pub open spec fn key_length() -> Seq<u8> {
    seq![108u8, 101u8, 110u8, 103u8, 116u8, 104u8]
}

pub open spec fn key_piece_length() -> Seq<u8> {
    seq![112u8, 105u8, 101u8, 99u8, 101u8, 32u8, 108u8, 101u8, 110u8, 103u8, 116u8, 104u8]
}

pub open spec fn key_pieces() -> Seq<u8> {
    seq![112u8, 105u8, 101u8, 99u8, 101u8, 115u8]
}

/// The abstract content of a parsed torrent file.
#[verifier::ext_equal]
pub struct TorrentModel {
    pub announce: Option<Seq<u8>>,
    pub name: Seq<u8>,
    pub length: int,
    pub piece_length: int,
    pub pieces: Seq<u8>,
    pub info: BencodeSpec,
}

/// The typed fields of the info dictionary, together with the decoded
/// dictionary itself, whose key order the info-hash depends on.
#[derive(Debug)]
pub struct Info {
    pub length: u64,
    pub name: Vec<u8>,
    pub piece_length: u64,
    pub pieces: Vec<u8>,
    /// The info dictionary exactly as decoded, key order preserved.
    pub dict: Bencode,
}

/// A parsed torrent file: the announce URL and the info dictionary.
#[derive(Debug)]
pub struct TorrentFile {
    pub announce: Option<Vec<u8>>,
    pub info: Info,
}

impl View for TorrentFile {
    type V = TorrentModel;

    open spec fn view(&self) -> TorrentModel {
        TorrentModel {
            announce: match self.announce {
                Some(a) => Some(a@),
                None => None,
            },
            name: self.info.name@,
            length: self.info.length as int,
            piece_length: self.info.piece_length as int,
            pieces: self.info.pieces@,
            info: self.info.dict@,
        }
    }
}

/// What parsing a torrent file yields: the file must decode to a
/// dictionary whose `info` entry is a dictionary holding `name`
/// (bytes), `length` and `piece length` (non-negative integers) and
/// `pieces` (bytes); `announce`, when present, must be a byte string.
pub open spec fn spec_parse_torrent(s: Seq<u8>) -> Option<TorrentModel> {
    match spec_decode_at(s, 0) {
        None => None,
        Some((top, _end)) => match top {
            BencodeSpec::Dict(pairs) => match dict_get(pairs, key_info()) {
                Some(BencodeSpec::Dict(ipairs)) => match (
                    dict_get(ipairs, key_name()),
                    dict_get(ipairs, key_length()),
                    dict_get(ipairs, key_piece_length()),
                    dict_get(ipairs, key_pieces()),
                ) {
                    (
                        Some(BencodeSpec::Bytes(nm)),
                        Some(BencodeSpec::Int(ln)),
                        Some(BencodeSpec::Int(pl)),
                        Some(BencodeSpec::Bytes(pcs)),
                    ) => if ln < 0 || pl < 0 {
                        None
                    } else {
                        match dict_get(pairs, key_announce()) {
                            Some(BencodeSpec::Bytes(a)) => Some(
                                TorrentModel {
                                    announce: Some(a),
                                    name: nm,
                                    length: ln,
                                    piece_length: pl,
                                    pieces: pcs,
                                    info: BencodeSpec::Dict(ipairs),
                                },
                            ),
                            None => Some(
                                TorrentModel {
                                    announce: None,
                                    name: nm,
                                    length: ln,
                                    piece_length: pl,
                                    pieces: pcs,
                                    info: BencodeSpec::Dict(ipairs),
                                },
                            ),
                            Some(_) => None,
                        }
                    },
                    _ => None,
                },
                _ => None,
            },
            _ => None,
        },
    }
}

/// Parses a torrent file. Succeeds exactly when the bytes decode to a
/// dictionary with the required fields of the right types; any other
/// shape is `InvalidTorrentFile`.
pub fn decode_torrent_file(data: &[u8]) -> (r: Result<TorrentFile, TorrentError>)
    ensures
        match r {
            Ok(tf) => spec_parse_torrent(data@) == Some(tf@),
            Err(e) => spec_parse_torrent(data@) is None && e == TorrentError::InvalidTorrentFile,
        },
{
    let top = match decode_value(data, 0) {
        Ok((v, _consumed)) => v,
        Err(_) => {
            return Err(TorrentError::InvalidTorrentFile);
        },
    };
    let mut pairs = match top {
        Bencode::Dict(p) => p,
        _ => {
            return Err(TorrentError::InvalidTorrentFile);
        },
    };
    let ghost ps = pair_models_of(pairs@, 0);
    proof {
        lemma_pair_models_of(pairs@, 0);
    }
    let key_announce_b: [u8; 8] = [97, 110, 110, 111, 117, 110, 99, 101];
    let key_info_b: [u8; 4] = [105, 110, 102, 111];
    let key_name_b: [u8; 4] = [110, 97, 109, 101];
    let key_length_b: [u8; 6] = [108, 101, 110, 103, 116, 104];
    let key_piece_length_b: [u8; 12] = [112, 105, 101, 99, 101, 32, 108, 101, 110, 103, 116, 104];
    let key_pieces_b: [u8; 6] = [112, 105, 101, 99, 101, 115];
    proof {
        assert(key_announce_b@ =~= key_announce());
        assert(key_info_b@ =~= key_info());
        assert(key_name_b@ =~= key_name());
        assert(key_length_b@ =~= key_length());
        assert(key_piece_length_b@ =~= key_piece_length());
        assert(key_pieces_b@ =~= key_pieces());
    }
    let announce: Option<Vec<u8>> = match get_dict(&pairs, &key_announce_b) {
        None => None,
        Some(a) => match a {
            Bencode::Bytes(ab) => Some(clone_bytes(ab)),
            _ => {
                return Err(TorrentError::InvalidTorrentFile);
            },
        },
    };
    let info_idx = match find_key(&pairs, &key_info_b) {
        Some(i) => i,
        None => {
            proof {
                lemma_dict_get_miss(ps, key_info(), 0);
            }
            return Err(TorrentError::InvalidTorrentFile);
        },
    };
    proof {
        lemma_dict_get_hit(ps, key_info(), info_idx as int);
    }
    let ival = pairs.remove(info_idx).1;
    let ip = match ival {
        Bencode::Dict(p) => p,
        _ => {
            return Err(TorrentError::InvalidTorrentFile);
        },
    };
    let name = match get_dict(&ip, &key_name_b) {
        Some(v) => match v {
            Bencode::Bytes(b) => clone_bytes(b),
            _ => {
                return Err(TorrentError::InvalidTorrentFile);
            },
        },
        None => {
            return Err(TorrentError::InvalidTorrentFile);
        },
    };
    let length: u64 = match get_dict(&ip, &key_length_b) {
        Some(v) => match v {
            Bencode::Int(n) => {
                if *n < 0 {
                    return Err(TorrentError::InvalidTorrentFile);
                }
                *n as u64
            },
            _ => {
                return Err(TorrentError::InvalidTorrentFile);
            },
        },
        None => {
            return Err(TorrentError::InvalidTorrentFile);
        },
    };
    let piece_length: u64 = match get_dict(&ip, &key_piece_length_b) {
        Some(v) => match v {
            Bencode::Int(n) => {
                if *n < 0 {
                    return Err(TorrentError::InvalidTorrentFile);
                }
                *n as u64
            },
            _ => {
                return Err(TorrentError::InvalidTorrentFile);
            },
        },
        None => {
            return Err(TorrentError::InvalidTorrentFile);
        },
    };
    let pieces = match get_dict(&ip, &key_pieces_b) {
        Some(v) => match v {
            Bencode::Bytes(b) => clone_bytes(b),
            _ => {
                return Err(TorrentError::InvalidTorrentFile);
            },
        },
        None => {
            return Err(TorrentError::InvalidTorrentFile);
        },
    };
    let tf = TorrentFile {
        announce,
        info: Info { length, name, piece_length, pieces, dict: Bencode::Dict(ip) },
    };
    proof {
        assert(spec_parse_torrent(data@) == Some(tf@)) by {
            assert(spec_parse_torrent(data@) matches Some(m) && m =~= tf@);
        }
    }
    Ok(tf)
}

impl Info {
    /// The 20 raw bytes of the info-hash: the SHA-1 digest of the
    /// re-encoded info dictionary, a pure function of the stored
    /// dictionary, so repeated calls yield the same value.
    pub fn info_hash_bytes(&self) -> (r: Vec<u8>)
        ensures
            r@ == sha1_of(spec_encode(self.dict@)),
            r@.len() == 20,
    {
        let enc = encode(&self.dict);
        sha1_digest(enc.as_slice())
    }

    /// The info-hash as a lowercase hex string of 40 characters.
    pub fn get_info_hash(&self) -> (r: String)
        ensures
            r@ == hex_chars(sha1_of(spec_encode(self.dict@)), 0),
    {
        let h = self.info_hash_bytes();
        hex_encode(h.as_slice())
    }

    /// The 20 raw bytes of the hash for piece `index`, straight from
    /// the pieces table, or nothing when the table is too short.
    pub fn piece_hash_bytes(&self, index: u64) -> (r: Option<Vec<u8>>)
        ensures
            match r {
                Some(h) => 20 * (index as int) + 20 <= self.pieces@.len() && h@
                    == self.pieces@.subrange(20 * (index as int), 20 * (index as int) + 20),
                None => 20 * (index as int) + 20 > self.pieces@.len(),
            },
    {
        let len: u64 = self.pieces.len() as u64;
        if index > len / 20 {
            proof {
                assert(20 * (index as int) >= 20 * (len as int / 20) + 20);
                assert(20 * (len as int / 20) + len as int % 20 == len as int);
            }
            return None;
        }
        proof {
            assert(20 * (index as int) <= 20 * (len as int / 20));
            assert(20 * (len as int / 20) + len as int % 20 == len as int);
        }
        let start64: u64 = 20 * index;
        if len - start64 < 20 {
            return None;
        }
        let start = start64 as usize;
        Some(slice_to_vec(slice_subrange(self.pieces.as_slice(), start, start + 20)))
    }

    /// The per-piece SHA-1 hashes as lowercase hex strings, in piece
    /// order: the pieces table split into 20-byte rows. Fails with
    /// `CorruptPieceTable` exactly when the table's length is not a
    /// multiple of 20.
    pub fn get_piece_hashes(&self) -> (r: Result<Vec<String>, TorrentError>)
        ensures
            match r {
                Ok(hs) => self.pieces@.len() % 20 == 0 && hs@.len() == self.pieces@.len() / 20
                    && forall|i: int|
                    0 <= i < hs@.len() ==> hs@[i]@ == hex_chars(
                        self.pieces@.subrange(20 * i, 20 * i + 20),
                        0,
                    ),
                Err(e) => self.pieces@.len() % 20 != 0 && e == TorrentError::CorruptPieceTable,
            },
    {
        if self.pieces.len() % 20 != 0 {
            return Err(TorrentError::CorruptPieceTable);
        }
        let count = self.pieces.len() / 20;
        let mut out: Vec<String> = Vec::new();
        let mut k: usize = 0;
        while k < count
            invariant
                k <= count,
                count == self.pieces@.len() / 20,
                self.pieces@.len() % 20 == 0,
                self.pieces@.len() <= usize::MAX,
                out@.len() == k,
                forall|i: int|
                    0 <= i < k ==> out@[i]@ == hex_chars(
                        self.pieces@.subrange(20 * i, 20 * i + 20),
                        0,
                    ),
            decreases count - k,
        {
            proof {
                assert(20 * ((k as int) + 1) <= 20 * (self.pieces@.len() / 20));
                assert(20 * (self.pieces@.len() / 20) + self.pieces@.len() % 20
                    == self.pieces@.len());
            }
            let chunk = slice_subrange(self.pieces.as_slice(), 20 * k, 20 * k + 20);
            let h = hex_encode(chunk);
            out.push(h);
            k = k + 1;
        }
        Ok(out)
    }
}

} // verus!
