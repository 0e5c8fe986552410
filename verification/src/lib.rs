//! A BitTorrent client library: bencode, the peer wire protocol, piece
//! bookkeeping, the on-disk store geometry and tracker announces.
pub mod bencode;
pub mod client;
pub mod codec;
pub mod config;
pub mod helpers;
pub mod messages;
pub mod metadata;
pub mod peer;
pub mod peer_manager;
pub mod piece_manager;
pub mod session;
pub mod requests;
pub mod status;
pub mod store;
pub mod swarm;
pub mod tracker;
pub mod wire_protocol;
