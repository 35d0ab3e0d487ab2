//! A verified core for a BitTorrent leecher client.
//!
//! The crate covers the bencode codec, torrent and magnet metadata, the
//! peer wire framing, the extension (ut_metadata) protocol, the peer
//! session state machine, the tracker query encoding, and the piece
//! download bookkeeping.  Network and file I/O live outside the crate;
//! every function here is pure computation with a proved contract.

pub mod decode;
pub mod encode;
pub mod engine;
pub mod hex;
pub mod json;
pub mod laws;
pub mod magnet;
pub mod metadata;
pub mod session;
pub mod torrent;
pub mod tracker;
pub mod utils;
pub mod value;
pub mod wire;

pub use value::Bencode;
