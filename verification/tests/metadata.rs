use bittorrent::bencode::Bencode;
use bittorrent::errors::TorrentError;
use bittorrent::torrent::decode_torrent_file;
use bittorrent::torrent::Info;
use bittorrent::tracker::announce_url;
use bittorrent::tracker::decode_tracker_data;
use bittorrent::tracker::Tracker;
use bittorrent::urlenc::url_encoding;

use sha1::Digest;

fn bytes(s: &str) -> Vec<u8> {
    s.as_bytes().to_vec()
}

const INFO_DICT: &str = "d6:lengthi1000e4:name4:test12:piece lengthi400e6:pieces20:ABCDEFGHIJKLMNOPQRSTe";

fn sample_torrent() -> Vec<u8> {
    let mut v = bytes("d8:announce17:http://tracker:804:info");
    v.extend_from_slice(INFO_DICT.as_bytes());
    v.push(b'e');
    v
}

#[test]
fn parse_torrent_fields() {
    let tf = decode_torrent_file(&sample_torrent()).unwrap();
    assert_eq!(tf.announce, Some(bytes("http://tracker:80")));
    assert_eq!(tf.info.name, bytes("test"));
    assert_eq!(tf.info.length, 1000);
    assert_eq!(tf.info.piece_length, 400);
    assert_eq!(tf.info.pieces, bytes("ABCDEFGHIJKLMNOPQRST"));
}

#[test]
fn parse_torrent_without_announce() {
    let mut v = bytes("d4:info");
    v.extend_from_slice(INFO_DICT.as_bytes());
    v.push(b'e');
    let tf = decode_torrent_file(&v).unwrap();
    assert_eq!(tf.announce, None);
    assert_eq!(tf.info.length, 1000);
}

#[test]
fn parse_torrent_rejects_bad_shapes() {
    let cases: Vec<Vec<u8>> = vec![
        bytes(""),
        bytes("le"),
        bytes("de"),
        bytes("d4:infoi1ee"),
        bytes("d4:infod4:name4:testee"),
        bytes("d4:infod6:length4:much4:name4:test12:piece lengthi400e6:pieces0:ee"),
        bytes("d4:infod6:lengthi-1e4:name4:test12:piece lengthi400e6:pieces0:ee"),
    ];
    for input in cases {
        match decode_torrent_file(&input) {
            Err(TorrentError::InvalidTorrentFile) => {}
            other => panic!("{:?} should be invalid, got {:?}", input, other),
        }
    }
}

#[test]
fn info_hash_is_stable_across_calls() {
    let tf = decode_torrent_file(&sample_torrent()).unwrap();
    let a = tf.info.info_hash_bytes();
    let b = tf.info.info_hash_bytes();
    assert_eq!(a, b);
    assert_eq!(a.len(), 20);
    assert_eq!(tf.info.get_info_hash(), tf.info.get_info_hash());
}

#[test]
fn info_hash_matches_independent_encoding() {
    // hash the info dictionary bytes exactly as they stand in the file
    let tf = decode_torrent_file(&sample_torrent()).unwrap();
    let expected = sha1::Sha1::digest(INFO_DICT.as_bytes());
    assert_eq!(tf.info.info_hash_bytes(), expected.to_vec());
    let expected_hex: String = expected.iter().map(|b| format!("{:02x}", b)).collect();
    assert_eq!(tf.info.get_info_hash(), expected_hex);
}

#[test]
fn info_hash_depends_on_key_order() {
    // same logical content, different stored key order: different hash
    let a = decode_torrent_file(&bytes(
        "d4:infod6:lengthi1e4:name1:x12:piece lengthi1e6:pieces0:ee",
    ))
    .unwrap();
    let b = decode_torrent_file(&bytes(
        "d4:infod4:name1:x6:lengthi1e12:piece lengthi1e6:pieces0:ee",
    ))
    .unwrap();
    assert_ne!(a.info.info_hash_bytes(), b.info.info_hash_bytes());
}

#[test]
fn piece_hashes_split_the_table() {
    let info = Info {
        length: 40,
        name: bytes("x"),
        piece_length: 20,
        pieces: [vec![0x41u8; 20], vec![0x42u8; 20]].concat(),
        dict: Bencode::Dict(vec![]),
    };
    let hashes = info.get_piece_hashes().unwrap();
    assert_eq!(hashes.len(), 2);
    assert_eq!(hashes[0], "41".repeat(20));
    assert_eq!(hashes[1], "42".repeat(20));
}

#[test]
fn piece_hashes_reject_ragged_table() {
    let info = Info {
        length: 1,
        name: bytes("x"),
        piece_length: 1,
        pieces: vec![0u8; 21],
        dict: Bencode::Dict(vec![]),
    };
    assert!(matches!(
        info.get_piece_hashes(),
        Err(TorrentError::CorruptPieceTable)
    ));
}

#[test]
fn piece_hash_bytes_indexes_the_table() {
    let info = Info {
        length: 40,
        name: bytes("x"),
        piece_length: 20,
        pieces: [vec![0x41u8; 20], vec![0x42u8; 20]].concat(),
        dict: Bencode::Dict(vec![]),
    };
    assert_eq!(info.piece_hash_bytes(0), Some(vec![0x41u8; 20]));
    assert_eq!(info.piece_hash_bytes(1), Some(vec![0x42u8; 20]));
    assert_eq!(info.piece_hash_bytes(2), None);
}

#[test]
fn tracker_peer_expansion() {
    let tracker = Tracker {
        interval: 0,
        peers: vec![127, 0, 0, 1, 0x1A, 0xE1, 10, 0, 0, 5, 0x1A, 0xE1],
    };
    let ips = tracker.get_peers_ips();
    assert_eq!(ips, vec!["127.0.0.1:6881".to_string(), "10.0.0.5:6881".to_string()]);
}

#[test]
fn tracker_response_parses() {
    let mut body = bytes("d8:intervali1800e5:peers6:");
    body.extend_from_slice(&[192, 168, 1, 2, 0x00, 0x50]);
    body.push(b'e');
    let tracker = decode_tracker_data(&body).unwrap();
    assert_eq!(tracker.interval, 1800);
    assert_eq!(tracker.get_peers_ips(), vec!["192.168.1.2:80".to_string()]);
}

#[test]
fn tracker_response_rejects_bad_shapes() {
    let mut ragged = bytes("d8:intervali1800e5:peers5:");
    ragged.extend_from_slice(&[1, 2, 3, 4, 5]);
    ragged.push(b'e');
    let cases: Vec<Vec<u8>> = vec![
        bytes(""),
        bytes("le"),
        bytes("d8:intervali1800ee"),
        bytes("d5:peers0:e"),
        bytes("d8:intervali-1e5:peers0:e"),
        ragged,
    ];
    for input in cases {
        match decode_tracker_data(&input) {
            Err(TorrentError::TrackerError) => {}
            other => panic!("{:?} should be a tracker error, got {:?}", input, other),
        }
    }
}

#[test]
fn url_encoding_keeps_unreserved_bytes() {
    assert_eq!(url_encoding(b"AZaz09-._~"), "AZaz09-._~");
}

#[test]
fn url_encoding_escapes_everything_else() {
    assert_eq!(url_encoding(&[0x00, 0xFF, b' ', b'/', b':']), "%00%ff%20%2f%3a");
    // alphanumeric hash bytes are kept, binary ones escaped, byte for byte
    assert_eq!(url_encoding(&[0x4C, 0x1A, 0xE1]), "L%1a%e1");
}

#[test]
fn announce_url_layout() {
    let url = announce_url(
        b"http://t",
        &[0xAB; 20],
        b"00112233445566778899",
        6881,
        1000,
    );
    let expected = format!(
        "http://t?info_hash={}&peer_id=00112233445566778899&port=6881&uploaded=0&downloaded=0&left=1000&compact=1",
        "%ab".repeat(20)
    );
    assert_eq!(url, expected);
}
