//! Consensus liveness and peer discovery for a proof-of-stake node.
//!
//! Two state machines make up the crate.  The view-change collector keeps
//! a stalled chain moving: validators vote over the current tip, and once
//! a supermajority of stake has voted the votes aggregate into a proof
//! that lets the next leader take over.  The discovery behavior keeps the
//! node's view of its peers: a routing table of buckets keyed by XOR
//! distance over hashed identities, iterative lookups with bounded
//! parallelism, provider registration with periodic re-announcement, and
//! a bounded map from transport identities to node identities.

pub mod addresses;
pub mod behaviour;
pub mod chain;
pub mod collector;
pub mod crypto;
pub mod kad_key;
pub mod kbucket;
pub mod peer_map;
pub mod query;
pub mod utils;
