//! kern: the knowledge-graph memory daemon's core logic.
use vstd::prelude::*;

pub mod boot;
pub mod clock;
pub mod gossip;
pub mod hub;
pub mod ingest;
pub mod json;
pub mod llm;
pub mod mcp;
pub mod memory_service;
pub mod quant;
pub mod retrieval;
pub mod text;
pub mod time;

verus! {

} // verus!
