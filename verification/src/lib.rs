//! Core of a live world-state synchronization session: region-keyed caching
//! with dedup by observed value, a versioned binary chunk encoding, and the
//! decision logic of a per-connection event loop.
//!
//! All I/O (the websocket itself, region files on disk, filesystem change
//! notifications) happens outside this crate; the session logic here works on
//! plain values handed in by the surrounding application and returns the
//! actions (reads, watches, frames to send) that the application carries out.

pub mod bits;
pub mod block;
pub mod cache;
pub mod codec;
pub mod errors;
pub mod paths;
pub mod session;
pub mod wire;
pub mod keys;
pub mod lang;
pub mod world;

use vstd::prelude::*;

verus! {

/// Wire protocol version negotiated once per connection. It governs only the
/// chunk encoding, never the subscription semantics.
#[derive(Clone, Copy, PartialEq, Eq, Structural, Debug)]
pub enum ProtocolVersion {
    V3,
    V4,
}

} // verus!
