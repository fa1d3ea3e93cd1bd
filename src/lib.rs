//! An authoritative-only DNS responder: a configuration stream reader that
//! builds an in-memory zone table, and a query handler that rewrites a
//! received datagram into its reply in place.

pub mod wire;
pub mod flags;
pub mod config;
pub mod stream;
pub mod handler;
pub mod laws;
