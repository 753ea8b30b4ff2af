//! A verified core for reading BitTorrent metainfo files and performing a
//! single tracker announce exchange: a bencode codec with a byte-exact
//! encoding specification, a typed metainfo model with its info-hash, and
//! the announce request/response logic.
pub mod bencode;
pub mod torrent;
pub mod tracker;
