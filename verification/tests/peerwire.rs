use bittorrent::errors::TorrentError;
use bittorrent::handshake::Handshake;
use bittorrent::wire::advance_session;
use bittorrent::wire::block_plan;
use bittorrent::wire::concat_blocks;
use bittorrent::wire::frame_message;
use bittorrent::wire::parse_piece_payload;
use bittorrent::wire::piece_size;
use bittorrent::wire::request_payload;
use bittorrent::wire::split_message;
use bittorrent::wire::u32_from_be;
use bittorrent::wire::u32_to_be;
use bittorrent::wire::verify_piece;
use bittorrent::wire::SessionState;
use bittorrent::wire::WireAction;

use sha1::Digest;

fn sample_handshake() -> Handshake {
    Handshake::new(vec![0xAA; 20], [1; 20])
}

fn sample_response(info_hash: [u8; 20], remote_id: [u8; 20]) -> Vec<u8> {
    let mut resp = vec![19u8];
    resp.extend_from_slice(b"BitTorrent protocol");
    resp.extend_from_slice(&[0u8; 8]);
    resp.extend_from_slice(&info_hash);
    resp.extend_from_slice(&remote_id);
    resp
}

#[test]
fn handshake_frame_layout() {
    let frame = sample_handshake().frame();
    assert_eq!(frame.len(), 68);
    assert_eq!(frame[0], 19);
    assert_eq!(&frame[1..20], b"BitTorrent protocol");
    assert_eq!(&frame[20..28], &[0u8; 8]);
    assert_eq!(&frame[28..48], &[0xAA; 20]);
    assert_eq!(&frame[48..68], &[1u8; 20]);
}

#[test]
fn handshake_rejects_short_response() {
    let mut hs = sample_handshake();
    let short = vec![0u8; 67];
    match hs.parse_response(&short) {
        Err(TorrentError::HandshakeFailed) => {}
        other => panic!("short response should fail, got {:?}", other),
    }
    assert_eq!(hs.response_peer_id, None);
}

#[test]
fn handshake_rejects_wrong_protocol_header() {
    let mut hs = sample_handshake();
    let mut resp = sample_response([0xAA; 20], [7; 20]);
    resp[1] = b'X';
    assert!(matches!(
        hs.parse_response(&resp),
        Err(TorrentError::HandshakeFailed)
    ));
}

#[test]
fn handshake_rejects_mismatched_info_hash() {
    let mut hs = sample_handshake();
    let resp = sample_response([0xBB; 20], [7; 20]);
    assert!(matches!(
        hs.parse_response(&resp),
        Err(TorrentError::HandshakeFailed)
    ));
    assert_eq!(hs.response_peer_id, None);
}

#[test]
fn handshake_accepts_valid_response() {
    let mut hs = sample_handshake();
    let resp = sample_response([0xAA; 20], [7; 20]);
    let pid = hs.parse_response(&resp).unwrap();
    assert_eq!(pid, vec![7u8; 20]);
    assert_eq!(hs.response_peer_id, Some("07".repeat(20)));
}

#[test]
fn piece_sizing() {
    assert_eq!(piece_size(1000, 400, 0), 400);
    assert_eq!(piece_size(1000, 400, 1), 400);
    assert_eq!(piece_size(1000, 400, 2), 200);
}

#[test]
fn block_splitting() {
    assert_eq!(block_plan(20000), vec![(0, 16384), (16384, 3616)]);
    assert_eq!(block_plan(16384), vec![(0, 16384)]);
    assert_eq!(block_plan(1), vec![(0, 1)]);
    assert_eq!(block_plan(0), vec![]);
    assert_eq!(
        block_plan(40000),
        vec![(0, 16384), (16384, 16384), (32768, 7232)]
    );
}

#[test]
fn big_endian_round_trip() {
    let b = u32_to_be(0x01020304);
    assert_eq!(b, vec![1, 2, 3, 4]);
    assert_eq!(u32_from_be(&b), 0x01020304);
    assert_eq!(u32_to_be(0xFFFFFFFF), vec![255, 255, 255, 255]);
}

#[test]
fn message_framing() {
    assert_eq!(frame_message(2, &vec![]), vec![0, 0, 0, 1, 2]);
    assert_eq!(
        frame_message(6, &vec![9, 8, 7]),
        vec![0, 0, 0, 4, 6, 9, 8, 7]
    );
}

#[test]
fn message_splitting() {
    let (id, payload) = split_message(&vec![5, 1, 2, 3]).unwrap();
    assert_eq!(id, 5);
    assert_eq!(payload, vec![1, 2, 3]);
    let (id, payload) = split_message(&vec![1]).unwrap();
    assert_eq!(id, 1);
    assert_eq!(payload, Vec::<u8>::new());
    assert!(matches!(
        split_message(&vec![]),
        Err(TorrentError::WireProtocolError)
    ));
}

#[test]
fn request_payload_layout() {
    assert_eq!(
        request_payload(1, 16384, 3616),
        vec![0, 0, 0, 1, 0, 0, 64, 0, 0, 0, 14, 32]
    );
}

#[test]
fn piece_payload_extraction() {
    let mut payload = vec![0, 0, 0, 1, 0, 0, 64, 0];
    payload.extend_from_slice(&[10, 20, 30]);
    let block = parse_piece_payload(&payload, 1, 16384, 3).unwrap();
    assert_eq!(block, vec![10, 20, 30]);
}

#[test]
fn piece_payload_rejects_mismatches() {
    let mut payload = vec![0, 0, 0, 1, 0, 0, 64, 0];
    payload.extend_from_slice(&[10, 20, 30]);
    assert!(matches!(
        parse_piece_payload(&payload, 2, 16384, 3),
        Err(TorrentError::WireProtocolError)
    ));
    assert!(matches!(
        parse_piece_payload(&payload, 1, 0, 3),
        Err(TorrentError::WireProtocolError)
    ));
    assert!(matches!(
        parse_piece_payload(&payload, 1, 16384, 4),
        Err(TorrentError::WireProtocolError)
    ));
    assert!(matches!(
        parse_piece_payload(&vec![1, 2], 1, 16384, 0),
        Err(TorrentError::WireProtocolError)
    ));
}

#[test]
fn session_negotiation_steps() {
    assert_eq!(
        advance_session(SessionState::AwaitingBitfield, 5),
        (SessionState::AwaitingUnchoke, WireAction::SendInterested)
    );
    assert_eq!(
        advance_session(SessionState::AwaitingUnchoke, 1),
        (SessionState::Ready, WireAction::StartRequesting)
    );
    // anything but an unchoke is kept out of the way, never fatal
    assert_eq!(
        advance_session(SessionState::AwaitingUnchoke, 4),
        (SessionState::AwaitingUnchoke, WireAction::AwaitMore)
    );
    assert_eq!(
        advance_session(SessionState::Ready, 0),
        (SessionState::Ready, WireAction::AwaitMore)
    );
    assert_eq!(
        advance_session(SessionState::Closed, 1),
        (SessionState::Closed, WireAction::AwaitMore)
    );
}

#[test]
fn blocks_reassemble_in_order() {
    let blocks = vec![vec![1, 2], vec![3], vec![], vec![4, 5]];
    assert_eq!(concat_blocks(&blocks), vec![1, 2, 3, 4, 5]);
}

#[test]
fn piece_verification() {
    let data = b"hello world";
    let digest = sha1::Sha1::digest(data);
    // the digest of this input is a published SHA-1 test value
    let hex: String = digest.iter().map(|b| format!("{:02x}", b)).collect();
    assert_eq!(hex, "2aae6c35c94fcfb415dbe95f408b9ce91ee846ed");
    assert!(verify_piece(data, digest.as_slice()).is_ok());
    let wrong = vec![0u8; 20];
    assert!(matches!(
        verify_piece(data, &wrong),
        Err(TorrentError::PieceHashMismatch)
    ));
}

#[test]
fn error_messages_name_the_failure() {
    assert_eq!(
        TorrentError::MalformedEncoding.message(),
        "malformed bencode data"
    );
    assert_eq!(
        TorrentError::PieceHashMismatch.message(),
        "piece hash mismatch"
    );
}
