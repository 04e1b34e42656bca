//! The core of a BitTorrent client, verified with Verus: the bencode
//! codec, the metainfo binder with its SHA-1 info fingerprint, the
//! tracker announce protocol, and the peer wire handshake and message
//! framing.  Network and file transport stay outside; callers hand
//! bytes in and take bytes and typed values back.

pub mod bencode;
pub mod bencode_laws;
pub mod client;
pub mod connection;
pub mod file;
pub mod peer;
pub mod tracker;
pub mod util;
