//! The hub that starts one node daemon per project root.
pub mod node;
