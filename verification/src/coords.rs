//! World geometry: the bounding box, the sizes of the tile grids, and the conversion between
//! geographic coordinates and tile-space.
//!
//! Whoever speaks of a position must agree on these numbers.

use vstd::prelude::*;

use crate::float::{F32, F64};

verus! {

/// Southern border of the Stockholm inner and middle archipelago, in degrees: 58.8.
pub const BBOX_MIN_LAT: u64 = 0x404d_6666_6666_6666;

/// Northern border, in degrees: 59.8.
pub const BBOX_MAX_LAT: u64 = 0x404d_e666_6666_6666;

/// Western border, in degrees: 17.5.
pub const BBOX_MIN_LON: u64 = 0x4031_8000_0000_0000;

/// Eastern border, in degrees: 20.
pub const BBOX_MAX_LON: u64 = 0x4034_0000_0000_0000;

/// Width of the map in tiles.
pub const MAP_TILES_W: u32 = 8500;

/// Height of the map in tiles.
pub const MAP_TILES_H: u32 = 5500;

/// Width of the overview in tiles, a twentieth of that of the map.
pub const OVERVIEW_TILES_W: u32 = 425;

/// Height of the overview in tiles, a twentieth of that of the map.
pub const OVERVIEW_TILES_H: u32 = 275;

/// Tiles per side of a chunk.
pub const CHUNK_SIZE: u32 = 50;

/// Approximate metres per tile: twenty.
pub const METRES_PER_TILE: u32 = 0x41a0_0000;

/// How much of the way from `from` to `to` has been made at `at`.
pub open spec fn portion(at: F64, from: F64, to: F64) -> F64 {
    at.minus(from).over(to.minus(from))
}

/// The place of a point in tile-space: columns count from the west, rows from the north.
pub open spec fn tile_of(lat: F64, lon: F64) -> (F32, F32) {
    let north = F64 { bits: BBOX_MAX_LAT };
    let south = F64 { bits: BBOX_MIN_LAT };
    (
        portion(lon, F64 { bits: BBOX_MIN_LON }, F64 { bits: BBOX_MAX_LON }).times(
            F64::of_nat(MAP_TILES_W as nat),
        ).to_f32_number(),
        north.minus(lat).over(north.minus(south)).times(
            F64::of_nat(MAP_TILES_H as nat),
        ).to_f32_number(),
    )
}

/// The latitude and longitude of a place in tile-space.
pub open spec fn lat_lon_of(x: F32, y: F32) -> (F64, F64) {
    let north = F64 { bits: BBOX_MAX_LAT };
    let south = F64 { bits: BBOX_MIN_LAT };
    let west = F64 { bits: BBOX_MIN_LON };
    let east = F64 { bits: BBOX_MAX_LON };
    (
        north.minus(
            y.to_f64_number().over(F64::of_nat(MAP_TILES_H as nat)).times(north.minus(south)),
        ),
        west.plus(
            x.to_f64_number().over(F64::of_nat(MAP_TILES_W as nat)).times(east.minus(west)),
        ),
    )
}

/// Converts latitude and longitude in degrees to tile-space. The result may lie outside of the
/// grid.
pub fn lat_lon_to_tile(lat: F64, lon: F64) -> (r: (F32, F32))
    ensures
        r == tile_of(lat, lon),
{
    let north: F64 = F64 { bits: BBOX_MAX_LAT };
    let south: F64 = F64 { bits: BBOX_MIN_LAT };
    let west: F64 = F64 { bits: BBOX_MIN_LON };
    let east: F64 = F64 { bits: BBOX_MAX_LON };
    let x: F64 = lon.sub(west).div(east.sub(west)).mul(F64::from_u64(MAP_TILES_W as u64));
    let y: F64 = north.sub(lat).div(north.sub(south)).mul(F64::from_u64(MAP_TILES_H as u64));
    (x.to_f32(), y.to_f32())
}

/// Converts a place in tile-space back to latitude and longitude in degrees.
pub fn tile_to_lat_lon(x: F32, y: F32) -> (r: (F64, F64))
    ensures
        r == lat_lon_of(x, y),
{
    let north: F64 = F64 { bits: BBOX_MAX_LAT };
    let south: F64 = F64 { bits: BBOX_MIN_LAT };
    let west: F64 = F64 { bits: BBOX_MIN_LON };
    let east: F64 = F64 { bits: BBOX_MAX_LON };
    let lon: F64 = west.add(
        x.to_f64().div(F64::from_u64(MAP_TILES_W as u64)).mul(east.sub(west)),
    );
    let lat: F64 = north.sub(
        y.to_f64().div(F64::from_u64(MAP_TILES_H as u64)).mul(north.sub(south)),
    );
    (lat, lon)
}

} // verus!
