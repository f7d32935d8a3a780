//! Core of a multi-process chat/presence service.
//!
//! Clients connect over persistent bidirectional streams, organize
//! themselves into named rooms, exchange text messages, and receive live
//! membership updates.  The library holds the verified logic: the shared
//! membership snapshot and the atomic mutation applied to it, the
//! per-connection protocol state machine, the process-local coordinator,
//! and the codecs for the wire frames and the cross-process envelope.
//! The runtime plumbing around it (the network endpoints, the shared
//! store, the task scheduling) lives outside the library and feeds it
//! plain values.

use vstd::prelude::*;

pub mod hub;
pub mod model;
pub mod codec;
pub mod config;
pub mod rooms;
pub mod server;
pub mod session;

verus! {

/// The well-known room every session belongs to for its whole lifetime.
pub const DEFAULT_ROOM: &'static str = "main";

} // verus!
