//! Metadata and handshake front-end of a peer-to-peer file-sharing client:
//! a bencode codec, an info-hash derivation, a compact peer-list decoder and
//! the fixed 68-byte handshake frame.

pub mod bencode;
pub mod bytes;
pub mod digits;
pub mod peers;
pub mod torrent;
