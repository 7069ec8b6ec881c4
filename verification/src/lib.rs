//! A BitTorrent client library, the git object format, and the decisions of a
//! few small file utilities, with their contracts proved by Verus.

pub mod be_bytes;
pub mod peer;
pub mod digits;
pub mod bencode;
pub mod message;
pub mod handshake;
pub mod primitives;
pub mod git;
pub mod torrent;
pub mod tracker;
pub mod download;
pub mod piece;
pub mod fileutils;
