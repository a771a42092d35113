//! Black Sea: the rules of a terminal sailing game in the Stockholm archipelago.

pub mod admin;
pub mod axis;
pub mod client;
pub mod coords;
pub mod float;
pub mod laws;
pub mod listing;
pub mod map_loader;
pub mod plain;
pub mod progress;
pub mod protocol;
pub mod readings;
pub mod round_trip;
pub mod server;
pub mod text;
pub mod tiles;
pub mod transport;
