//! Control plane of a delay-tolerant-networking node: discovery of
//! neighboring nodes over an unreliable multicast transport, a directory of
//! known peers with a liveness-based expiry policy, a parser for statically
//! configured peer specifications, and a periodic dispatcher that re-attempts
//! forwarding of every bundle still queued for it.
//!
//! The sockets, timers and threads live with the embedding program; this
//! crate holds the decisions: what a datagram means, what the directory
//! holds afterwards, which peers expire, and in what order bundles are
//! retried.

use vstd::prelude::*;

pub mod peer;
pub mod directory;
pub mod codec;
pub mod registry;
pub mod eid;
pub mod helpers;
pub mod discovery;
pub mod dispatch;

verus! {

/// Seconds after the last announcement from a dynamic peer before it is
/// considered stale and eligible for removal by the expiry sweep.
pub const PEER_STALENESS_SECS: u64 = 20;

} // verus!
