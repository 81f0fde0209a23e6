//! A small Tor onion-service chat: peer books, group membership, signed
//! invites, encrypted message envelopes, the length-prefixed wire frame and
//! the Tor control-port reply grammar, each with a machine-checked contract.

pub mod chat;
pub mod config;
pub mod crypto;
pub mod error;
pub mod identity;
pub mod json;
pub mod order;
pub mod storage;
pub mod text;
pub mod tor;
pub mod transport;
