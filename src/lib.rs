//! A leeching BitTorrent client library: bencode codec, metainfo model,
//! peer wire framing, peer session rules and the rarest-first piece scheduler.
pub mod bencode;
pub mod bencode_laws;
pub mod wire;
pub mod metainfo;
pub mod tracker;
pub mod scheduler;
pub mod session;
pub mod download;
