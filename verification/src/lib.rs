//! A minimal BitTorrent client core: bencode codec, torrent metadata,
//! tracker announce protocol, peer wire protocol, and the piece-assembly
//! engine, with machine-checked contracts.

pub mod bencode;
pub mod download;
pub mod hash;
pub mod text;
pub mod torrent;
pub mod tracker;
pub mod wire;
