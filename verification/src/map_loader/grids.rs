//! From outlines to the two maps that the server works with.

use vstd::prelude::*;

use crate::coords::{
    CHUNK_SIZE, MAP_TILES_H, MAP_TILES_W, OVERVIEW_TILES_H, OVERVIEW_TILES_W,
};
use crate::float::F64;
use crate::tiles::{MapGrid, Tile};

use super::polygon::{Coord, Polygon};
use super::raster::{
    can_scan, is_raster, outlines, outlines_of, rasterize, rasterize_overview, scan_fits,
};

verus! {

/// Tolerance in degrees within which outlines are simplified before they are rasterized: 0.001.
pub const SIMPLIFY_EPSILON: u64 = 0x3f50_624d_d2f1_a9fc;

/// Minimum area in square degrees of what the overview shows: 0.0004, about sixteen of its tiles.
/// Small islets are left out, islands with a recognizable shape are kept.
pub const OVERVIEW_MIN_AREA_DEG2: u64 = 0x3f3a_36e2_eb1c_432d;

/// Whether an area is large enough for the overview.
pub open spec fn large(area: F64) -> bool {
    (F64 { bits: OVERVIEW_MIN_AREA_DEG2 }).at_most(area)
}

/// The outlines of those of the first polygons that are large enough for the overview.
pub open spec fn large_outlines(
    polygons: Seq<Polygon>,
    areas: Seq<F64>,
    n: int,
) -> Seq<Seq<Coord>>
    decreases n,
{
    if n <= 0 {
        Seq::empty()
    } else {
        let rest = large_outlines(polygons, areas, n - 1);
        if large(areas[n - 1]) {
            rest.push(polygons[n - 1].exterior@)
        } else {
            rest
        }
    }
}

/// Whether all polygons can be rasterized, in full size and where they are large in the size of
/// the overview.
pub open spec fn maps_fit(polygons: Seq<Polygon>, areas: Seq<F64>) -> bool {
    &&& forall|i: int|
        0 <= i < polygons.len() ==> scan_fits(
            (#[trigger] polygons[i]).exterior@,
            MAP_TILES_W as nat,
            MAP_TILES_H as nat,
        )
    &&& forall|i: int|
        0 <= i < polygons.len() && large(areas[i]) ==> scan_fits(
            (#[trigger] polygons[i]).exterior@,
            OVERVIEW_TILES_W as nat,
            OVERVIEW_TILES_H as nat,
        )
}

/// Whether all polygons can be rasterized.
pub fn can_load_map(polygons: &Vec<Polygon>, areas: &Vec<F64>) -> (r: bool)
    requires
        areas@.len() == polygons@.len(),
    ensures
        r == maps_fit(polygons@, areas@),
{
    let mut i: usize = 0;
    while i < polygons.len()
        invariant
            i <= polygons.len(),
            areas@.len() == polygons@.len(),
            forall|j: int|
                0 <= j < i ==> scan_fits(
                    (#[trigger] polygons@[j]).exterior@,
                    MAP_TILES_W as nat,
                    MAP_TILES_H as nat,
                ),
            forall|j: int|
                0 <= j < i && large(areas@[j]) ==> scan_fits(
                    (#[trigger] polygons@[j]).exterior@,
                    OVERVIEW_TILES_W as nat,
                    OVERVIEW_TILES_H as nat,
                ),
        decreases polygons.len() - i,
    {
        let poly: &Polygon = &polygons[i];
        if !can_scan(poly, MAP_TILES_W as usize, MAP_TILES_H as usize) {
            assert(!scan_fits(
                polygons@[i as int].exterior@,
                MAP_TILES_W as nat,
                MAP_TILES_H as nat,
            ));
            return false;
        }
        if (F64 { bits: OVERVIEW_MIN_AREA_DEG2 }).le(areas[i]) && !can_scan(
            poly,
            OVERVIEW_TILES_W as usize,
            OVERVIEW_TILES_H as usize,
        ) {
            assert(large(areas@[i as int]) && !scan_fits(
                polygons@[i as int].exterior@,
                OVERVIEW_TILES_W as nat,
                OVERVIEW_TILES_H as nat,
            ));
            return false;
        }
        i = i + 1;
    }
    true
}

/// The polygons that are large enough for the overview.
fn large_polygons<'a>(polygons: &'a Vec<Polygon>, areas: &Vec<F64>) -> (r: Vec<&'a Polygon>)
    requires
        areas@.len() == polygons@.len(),
        maps_fit(polygons@, areas@),
    ensures
        outlines(r@) == large_outlines(polygons@, areas@, polygons@.len() as int),
        forall|i: int|
            0 <= i < r@.len() ==> scan_fits(
                (#[trigger] r@[i]).exterior@,
                OVERVIEW_TILES_W as nat,
                OVERVIEW_TILES_H as nat,
            ),
{
    let mut r: Vec<&Polygon> = Vec::new();
    let mut i: usize = 0;
    assert(outlines(r@) =~= large_outlines(polygons@, areas@, 0));
    while i < polygons.len()
        invariant
            i <= polygons.len(),
            areas@.len() == polygons@.len(),
            maps_fit(polygons@, areas@),
            outlines(r@) == large_outlines(polygons@, areas@, i as int),
            forall|j: int|
                0 <= j < r@.len() ==> scan_fits(
                    (#[trigger] r@[j]).exterior@,
                    OVERVIEW_TILES_W as nat,
                    OVERVIEW_TILES_H as nat,
                ),
        decreases polygons.len() - i,
    {
        if (F64 { bits: OVERVIEW_MIN_AREA_DEG2 }).le(areas[i]) {
            let ghost before = r@;
            let poly: &Polygon = &polygons[i];
            assert(*poly == polygons@[i as int]);
            r.push(poly);
            assert(outlines(r@) =~= outlines(before).push(polygons@[i as int].exterior@));
        }
        i = i + 1;
    }
    r
}

/// The map and its overview, from outlines that were simplified and the area of each.
pub fn load_map(polygons: &Vec<Polygon>, areas: &Vec<F64>) -> (r: (MapGrid, MapGrid))
    requires
        areas@.len() == polygons@.len(),
        maps_fit(polygons@, areas@),
    ensures
        r.0.width == MAP_TILES_W,
        r.0.height == MAP_TILES_H,
        r.0.chunk_size == CHUNK_SIZE,
        is_raster(
            r.0.grid@,
            outlines_of(polygons@),
            MAP_TILES_W as nat,
            MAP_TILES_H as nat,
        ),
        r.1.width == OVERVIEW_TILES_W,
        r.1.height == OVERVIEW_TILES_H,
        r.1.chunk_size == OVERVIEW_TILES_H,
        is_raster(
            r.1.grid@,
            large_outlines(polygons@, areas@, polygons@.len() as int),
            OVERVIEW_TILES_W as nat,
            OVERVIEW_TILES_H as nat,
        ),
{
    let grid: Vec<Vec<Tile>> = rasterize(polygons);
    let overview_grid: Vec<Vec<Tile>> = rasterize_overview(&large_polygons(polygons, areas));
    (
        MapGrid { grid, width: MAP_TILES_W, height: MAP_TILES_H, chunk_size: CHUNK_SIZE },
        MapGrid {
            grid: overview_grid,
            width: OVERVIEW_TILES_W,
            height: OVERVIEW_TILES_H,
            chunk_size: OVERVIEW_TILES_H,
        },
    )
}

/// The tiles of the first rows, one row after the other.
pub open spec fn flat(grid: Seq<Vec<Tile>>, rows: int) -> Seq<Tile>
    decreases rows,
{
    if rows <= 0 {
        Seq::empty()
    } else {
        flat(grid, rows - 1) + grid[rows - 1]@
    }
}

/// The tiles of a grid, one row after the other.
pub fn flatten(grid: &Vec<Vec<Tile>>) -> (r: Vec<Tile>)
    ensures
        r@ == flat(grid@, grid@.len() as int),
{
    let mut r: Vec<Tile> = Vec::new();
    let mut row: usize = 0;
    while row < grid.len()
        invariant
            row <= grid.len(),
            r@ == flat(grid@, row as int),
        decreases grid.len() - row,
    {
        let ghost start = r@;
        let tiles: &Vec<Tile> = &grid[row];
        let mut col: usize = 0;
        assert(start =~= start + tiles@.take(0));
        while col < tiles.len()
            invariant
                col <= tiles.len(),
                r@ == start + tiles@.take(col as int),
            decreases tiles.len() - col,
        {
            r.push(tiles[col]);
            col = col + 1;
            assert(r@ =~= start + tiles@.take(col as int));
        }
        assert(tiles@.take(tiles@.len() as int) =~= tiles@);
        row = row + 1;
    }
    r
}

/// A grid of a given size has all its tiles in the flat list, each at its place.
pub proof fn lemma_flat(grid: Seq<Vec<Tile>>, w: nat, rows: int, row: int, col: int)
    requires
        0 <= rows <= grid.len(),
        forall|r: int| 0 <= r < grid.len() ==> (#[trigger] grid[r])@.len() == w,
        0 <= row < rows,
        0 <= col < w,
    ensures
        flat(grid, rows).len() == rows * w,
        row * w + col < flat(grid, rows).len(),
        flat(grid, rows)[row * w + col] == grid[row]@[col],
    decreases rows,
{
    lemma_flat_len(grid, w, rows);
    lemma_flat_len(grid, w, rows - 1);
    assert(row * w + col < rows * w) by (nonlinear_arith)
        requires
            0 <= row < rows,
            0 <= col < w,
    ;
    if row < rows - 1 {
        lemma_flat(grid, w, rows - 1, row, col);
        assert(flat(grid, rows)[row * w + col] == flat(grid, rows - 1)[row * w + col]);
    } else {
        assert(row * w == (rows - 1) * w);
        assert(grid[rows - 1]@.len() == w);
    }
}

/// The flat list of a grid has as many tiles as the grid.
pub proof fn lemma_flat_len(grid: Seq<Vec<Tile>>, w: nat, rows: int)
    requires
        0 <= rows <= grid.len(),
        forall|r: int| 0 <= r < grid.len() ==> (#[trigger] grid[r])@.len() == w,
    ensures
        flat(grid, rows).len() == rows * w,
    decreases rows,
{
    if rows > 0 {
        lemma_flat_len(grid, w, rows - 1);
        assert(grid[rows - 1]@.len() == w);
        assert((rows - 1) * w + w == rows * w) by (nonlinear_arith);
    } else {
        assert(0 * w == 0) by (nonlinear_arith);
    }
}

} // verus!
