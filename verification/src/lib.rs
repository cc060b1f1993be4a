//! The core of a peer-to-peer RPC messaging layer: versioned envelopes,
//! length-delimited framing, the lifecycle of a connection, the correlation
//! of requests and responses, and the fan-out of notifications.
//!
//! The core decides and does no I/O: each operation takes what happened and
//! returns what is to be done. Every function here is verified against its
//! contract.
//!
//! Beside the messaging core stands [`audio`], the buffer logic of the
//! adapter that plays and captures audio tracks.

use vstd::prelude::*;

pub mod audio;
pub mod auth;
pub mod conn;
pub mod error;
pub mod message_stream;
pub mod notification;
pub mod peer;
pub mod pending;
pub mod proto;
pub mod replies;

verus! {

/// The protocol version this build speaks. Two peers must agree on it exactly.
pub const PROTOCOL_VERSION: u32 = 68;

} // verus!
