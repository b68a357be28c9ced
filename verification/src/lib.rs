//! A verified core for a minimal BitTorrent client: the bencode codec,
//! the torrent-metadata model with info-hash computation, the tracker
//! announce/response handling, and the peer wire protocol framing and
//! piece-download planning. Network and file I/O live outside this crate
//! and hand plain byte values in and out.

pub mod bencode;
pub mod errors;
pub mod handshake;
pub mod sha1sum;
pub mod textfmt;
pub mod torrent;
pub mod tracker;
pub mod urlenc;
pub mod wire;
