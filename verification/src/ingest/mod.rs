//! Ingest: turning raw text into claims and chunks.
pub mod config;
pub mod distill;
pub mod file_watcher;
pub mod intake;
pub mod intake_status;
pub mod outcome;
pub mod split;
pub mod worker;
