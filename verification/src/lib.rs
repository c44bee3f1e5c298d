//! Core of a chat relay: clients register under a unique name with a public
//! key, share a room, and exchange per-recipient encrypted messages.
//!
//! The crate holds the verified heart of the system: the typed wire protocol
//! and its length-delimited framing, the room registry with its bounded
//! per-user outboxes, the server registry that keeps each user in at most one
//! room, the per-connection session state machine, and the contracts of the
//! asymmetric crypto adapter.

pub mod chatroom;
pub mod codec;
pub mod crypto;
pub mod server;
pub mod session;
pub mod types;
