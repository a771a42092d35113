//! From the outlines of land to a map of tiles.

pub mod cells;
pub mod clipping;
pub mod download;
pub mod edges;
pub mod grids;
pub mod ground;
pub mod inside;
pub mod middle;
pub mod order;
pub mod parser;
pub mod polygon;
pub mod raster;
