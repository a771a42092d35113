//! The server: who is sailing where, and what each of them is told.

pub mod anchorings;
pub mod handler;
pub mod laws;
pub mod miles;
pub mod separation;
pub mod spawn;
pub mod voyage;
