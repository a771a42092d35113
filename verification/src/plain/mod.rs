//! The plain game: without versions, map overview, anchor points and counters.

pub mod client;
pub mod laws;
pub mod pictures;
pub mod server;
