//! What client and server tell each other.

use vstd::prelude::*;

use crate::float::F32;
use crate::tiles::Tile;

verus! {

/// A position in tile-space coordinates.
#[derive(Debug, Clone, Copy)]
pub struct Position {
    pub x: F32,
    pub y: F32,
}

/// A named location in tile-space, typically a favourite anchoring spot.
///
/// Loaded by the server from a table at startup. `id` is assigned by the server and is stable for
/// a given row order within a run.
#[derive(Debug, Clone)]
pub struct AnchorPoint {
    pub id: u32,
    pub name: String,
    pub position: Position,
    pub note: Option<String>,
}

/// The full protocol between client and server.
///
/// | Variant | Direction |
/// |---|---|
/// | `RegisterEvent`, `MapChunkRequest` | client to server |
/// | `MoveEvent` | both ways; the server fills in `id` |
/// | `SayEvent` | both ways; the server fills in `position` |
/// | all others | server to client |
///
/// The order of the variants is the order of their codes on the wire, so new ones go to the end.
#[derive(Debug, Clone)]
pub enum GameEvent {
    /// First message of a client, to register the chosen name.
    RegisterEvent { name: String },
    /// A player said something.
    SayEvent { position: Option<Position>, text: String },
    /// Assigns its id and starting position to a newly connected client.
    HelloEvent { your_id: u64, start_position: Position },
    /// Snapshot of all other connected players.
    WorldStateEvent { boats: Vec<(u64, Position, String)> },
    /// Some client moved; `id` says who.
    MoveEvent { id: u64, position: Position },
    /// A new client joined under this name.
    NameEvent { id: u64, name: String },
    /// A client disconnected.
    ByeEvent { id: u64 },
    /// The map layout: full size in tiles, tiles per side of a chunk, real-world scale.
    WorldInfoEvent { tile_width: u32, tile_height: u32, chunk_size: u32, meters_per_tile: F32 },
    /// Asks for a single map chunk by its chunk-grid coordinates.
    MapChunkRequest { chunk_x: u32, chunk_y: u32 },
    /// Answers a `MapChunkRequest`: the tiles of the chunk, row by row from the north.
    MapChunkResponse { chunk_x: u32, chunk_y: u32, data: Vec<Tile> },
    /// Low-resolution overview of the entire map, row by row from the north.
    OverviewMapEvent { width: u32, height: u32, data: Vec<Tile> },
    /// Favourite anchoring points.
    AnchorPointsEvent { points: Vec<AnchorPoint> },
    /// Version of the server, sent before anything else.
    ServerVersionEvent { version: String },
}

} // verus!
