//! MCP tool helpers.
pub mod acl;
pub mod tools_admin;
pub mod tools_mutate;
pub mod tools_query;
pub mod tools_setup;
