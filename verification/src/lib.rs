//! A role-aware authentication and authorization core for a web API.
//!
//! The crate issues and verifies signed session tokens, encodes a fixed-width
//! multi-role permission string, and gates access to protected operations
//! based on that encoding. It performs no I/O: request handling, persistence
//! and clock reads live with the caller, which hands plain values in and
//! receives plain values back.

pub mod b64;
pub mod gate;
pub mod payload;
pub mod roles;
pub mod secrets;
pub mod token;
pub mod users;
