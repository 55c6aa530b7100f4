//! A BitTorrent client library.

pub mod ascii;
pub mod bencode;
pub mod bencode_laws;
pub mod decimal;
pub mod decimal_laws;
pub mod digest;
pub mod download;
pub mod download_laws;
pub mod network;
pub mod orchestrate;
pub mod orchestrate_laws;
pub mod peer;
pub mod peer_laws;
pub mod seed;
pub mod seed_laws;
pub mod text;
pub mod text_laws;
pub mod torrent;
pub mod torrent_laws;
pub mod wire;
