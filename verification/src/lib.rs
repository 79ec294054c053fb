//! A minimal BitTorrent client library: the peer wire protocol's messages and
//! handshake, piece availability, the shared work queue, torrent metadata and
//! the decisions a download worker takes while talking to a peer.

pub mod bytes;
pub mod download;
pub mod message;
pub mod peer;
pub mod queue;
pub mod torrent;
