//! Simulation of a sharded, prefix-addressed network.
//!
//! A population of nodes is partitioned into non-overlapping address-space
//! segments ("sections"), keyed by bit-string prefixes.  Under churn the
//! segments split when they grow too large and merge when they grow too
//! small, while relocation messages are routed to the segment currently
//! responsible for a target address.  The heart of the library is the
//! tick-level convergence engine in [`network`]: each simulated round
//! resolves a batch of structural actions into one globally consistent
//! partition, tolerating benign races (duplicate or stale actions) while
//! treating actual partition corruption as fatal.

pub mod message;
pub mod network;
pub mod node;
pub mod params;
pub mod prefix;
pub mod section;
pub mod stats;
