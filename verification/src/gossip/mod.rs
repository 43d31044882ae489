//! Peer gossip: discovery, admission and wire types.
pub mod discovery;
pub mod ledger;
pub mod rate;
pub mod seen;
pub mod sybil;
pub mod types;
