//! A tile is land if its middle lies inside of an outline.

use vstd::arithmetic::power2::{lemma2_to64, lemma2_to64_rest, pow2};
use vstd::prelude::*;

use crate::coords::{BBOX_MAX_LAT, BBOX_MAX_LON, BBOX_MIN_LAT, BBOX_MIN_LON};
use crate::float::error::lemma_exact;
use crate::float::laws::{lemma_magnitude_monotone, lemma_nearest_scaled, lemma_zero};
use crate::float::model::Format;
use crate::float::order::{
    lemma_nearest_zero, lemma_negated_ordered, lemma_product_ordered, lemma_quotient_ordered,
    lemma_sum_ordered, lemma_truncated_ordered, lemma_whole_ordered,
};
use crate::float::F64;
use crate::round_trip::compass::{lemma_sides, lemma_sum_commutes};
use crate::round_trip::steps::{grain, holds, lemma_borders, lemma_grains, lemma_whole_double};
use crate::tiles::Tile;

use super::cells::{lemma_col_comes_back, lemma_row_of_its_latitude, lon_of_col};
use super::inside::{
    crossings_up_to, encloses, lemma_inside_is_land, lemma_last_column, on_map,
};
use super::polygon::{latitudes, Coord};
use super::raster::{
    crosses, crossings, first_row, last_row, lat_of_row, next_point, raster_tile, row_crossings,
    row_fits, row_of_lat,
};

verus! {

/// What lies farther north falls on no larger row.
pub proof fn lemma_rows_ordered(a: F64, b: F64, h: nat)
    requires
        a.at_most(b),
        2 <= h <= usize::MAX,
    ensures
        row_of_lat(b, h) <= row_of_lat(a, h),
{
    let f = Format::Double;
    let north = F64 { bits: BBOX_MAX_LAT };
    let span = north.minus(F64 { bits: BBOX_MIN_LAT });
    let side = F64::of_nat((h - 1) as nat);
    lemma_sides();
    lemma_borders();
    lemma_zero(f);
    lemma_last_column((h - 1) as nat);
    lemma_negated_ordered(f, a.parts(), b.parts());
    let (c, d) = (b.negative(), a.negative());
    assert(c.at_most(d));
    lemma_sum_ordered(f, c.parts(), d.parts(), north.parts());
    lemma_sum_commutes(c, north);
    lemma_sum_commutes(d, north);
    let (c, d) = (north.minus(b), north.minus(a));
    assert(c.at_most(d));
    lemma_quotient_ordered(f, c.parts(), d.parts(), span.parts());
    let (c, d) = (c.over(span), d.over(span));
    assert(c.at_most(d));
    lemma_product_ordered(f, c.parts(), d.parts(), side.parts());
    let (c, d) = (c.times(side), d.times(side));
    assert(c.at_most(d));
    lemma_whole_ordered(f, c.parts(), d.parts());
    let (c, d) = (c.nearest_whole(), d.nearest_whole());
    assert(c.at_most(d));
    lemma_truncated_ordered(f, c.parts(), d.parts(), usize::MAX as nat);
}

/// All points lie between the lowest and the highest latitude.
pub proof fn lemma_between_latitudes(points: Seq<Coord>, i: int)
    requires
        0 <= i < points.len(),
        forall|j: int| 0 <= j < points.len() ==> !(#[trigger] points[j]).y.is_nan_number(),
    ensures
        latitudes(points).0.at_most(points[i].y),
        points[i].y.at_most(latitudes(points).1),
        latitudes(points).0.at_most(latitudes(points).1),
    decreases points.len(),
{
    assert(!points.last().y.is_nan_number());
    if points.len() > 1 {
        let rest = points.drop_last();
        assert forall|j: int| 0 <= j < rest.len() implies !(#[trigger] rest[j]).y.is_nan_number() by {
            assert(rest[j] == points[j]);
        }
        let k = if i < rest.len() {
            i
        } else {
            0
        };
        lemma_between_latitudes(rest, k);
        assert(rest[k] == points[k]);
    }
}

/// Where there are crossings, some edge crosses the latitude.
proof fn lemma_some_edge_crosses(points: Seq<Coord>, lat: F64, edges: int) -> (i: int)
    requires
        0 <= edges <= points.len(),
        crossings(points, lat, edges).len() > 0,
    ensures
        0 <= i < edges,
        crosses(points[i], next_point(points, i), lat),
    decreases edges,
{
    if crosses(points[edges - 1], next_point(points, edges - 1), lat) {
        edges - 1
    } else {
        lemma_some_edge_crosses(points, lat, edges - 1)
    }
}

/// A row that an outline encloses anything on is looked at.
pub proof fn lemma_enclosed_row_is_seen(points: Seq<Coord>, h: nat, row: int, lon: F64)
    requires
        forall|j: int| 0 <= j < points.len() ==> !(#[trigger] points[j]).y.is_nan_number(),
        2 <= h <= 8500,
        0 <= row < h,
        encloses(points, h, row, lon),
    ensures
        first_row(points, h) <= row <= last_row(points, h),
        points.len() >= 2,
{
    let lat = lat_of_row(row as nat, h);
    if row_crossings(points, h, row).len() == 0 {
        assert(crossings_up_to(row_crossings(points, h, row), lon) == 0);
    }
    let i = lemma_some_edge_crosses(points, lat, points.len() as int);
    let n = points.len() as int;
    let j = (i + 1) % n;
    assert(0 <= j < n) by (nonlinear_arith)
        requires
            n > 0,
            j == (i + 1) % n,
    ;
    assert(next_point(points, i) == points[j]);
    lemma_between_latitudes(points, i);
    lemma_between_latitudes(points, j);
    let (low, high) = latitudes(points);
    assert(low.at_most(lat) && lat.at_most(high));
    lemma_row_of_its_latitude(row as nat, h);
    lemma_rows_ordered(low, lat, h);
    lemma_rows_ordered(lat, high, h);
}

/// A number of no more units is no larger.
proof fn lemma_in_units(a: F64, b: F64, m: nat, n: nat)
    requires
        holds(Format::Double, a.parts(), m),
        holds(Format::Double, b.parts(), n),
        m <= n,
    ensures
        a.at_most(b),
{
    let f = Format::Double;
    if b.parts().abs < a.parts().abs {
        lemma_magnitude_monotone(f, b.parts().abs as nat, a.parts().abs as nat);
    }
}

/// The first column lies on the western border and the last one on the eastern.
proof fn lemma_outer_columns(w: nat)
    requires
        2 <= w <= 8500,
    ensures
        (F64 { bits: BBOX_MIN_LON }).at_most(lon_of_col(0, w)),
        lon_of_col((w - 1) as nat, w).at_most(F64 { bits: BBOX_MAX_LON }),
{
    lemma2_to64();
    lemma2_to64_rest();
    let f = Format::Double;
    let n = (w - 1) as nat;
    let g = grain();
    let unit = pow2(1074);
    let half = pow2(1073);
    let west = F64 { bits: BBOX_MIN_LON };
    let east = F64 { bits: BBOX_MAX_LON };
    let span = east.minus(west);
    let side = F64::of_nat(n);
    lemma_sides();
    lemma_borders();
    lemma_zero(f);
    lemma_grains(5);
    lemma_grains(52);
    lemma_whole_double(0);
    lemma_whole_double(n);
    lemma_last_column(n);
    assert(n * unit > 0) by (nonlinear_arith)
        requires
            n > 0,
            unit > 0,
    ;

    // The first.
    assert(0 * unit == 0);
    lemma_nearest_zero(f, n * unit);
    lemma_nearest_zero(f, unit);
    let part = F64::of_nat(0).over(side);
    assert(holds(f, part.parts(), 0));
    assert(0 * (5 * half) == 0);
    assert(holds(f, part.times(span).parts(), 0));
    let tick = pow2(1026);
    lemma_exact(f, 0x11_8000_0000_0000, 1026);
    assert(0x11_8000_0000_0000nat * tick == 0x230_0000_0000_0000 * g) by (nonlinear_arith)
        requires
            tick == 32 * g,
    ;
    assert(holds(f, lon_of_col(0, w).parts(), 0x230_0000_0000_0000 * g));
    lemma_in_units(west, lon_of_col(0, w), 0x230_0000_0000_0000 * g, 0x230_0000_0000_0000 * g);

    // The last.
    lemma_exact(f, 1, 1074);
    assert(1 * unit == unit);
    lemma_nearest_scaled(f, unit, 1, n * unit);
    assert(unit * (n * unit) == (n * unit) * unit) by (nonlinear_arith);
    assert(1 * (n * unit) == n * unit);
    let part = side.over(side);
    assert(holds(f, part.parts(), unit));
    lemma_exact(f, 5, 1073);
    lemma_nearest_scaled(f, 5 * half, 1, unit);
    assert(unit * (5 * half) == (5 * half) * unit) by (nonlinear_arith);
    assert(holds(f, part.times(span).parts(), 5 * half));
    lemma_exact(f, 0x14_0000_0000_0000, 1026);
    assert(0x14_0000_0000_0000nat * tick == 0x280_0000_0000_0000 * g) by (nonlinear_arith)
        requires
            tick == 32 * g,
    ;
    assert(5 * half == 0x50_0000_0000_0000 * g);
    assert(holds(f, lon_of_col(n, w).parts(), 0x280_0000_0000_0000 * g));
    lemma_in_units(lon_of_col(n, w), east, 0x280_0000_0000_0000 * g, 0x280_0000_0000_0000 * g);
}

/// The middle of a column farther east lies no farther west.
proof fn lemma_middles_ordered(a: nat, b: nat, w: nat)
    requires
        a <= b < w,
        2 <= w <= 8500,
    ensures
        lon_of_col(a, w).at_most(lon_of_col(b, w)),
{
    let f = Format::Double;
    let west = F64 { bits: BBOX_MIN_LON };
    let span = F64 { bits: BBOX_MAX_LON }.minus(west);
    let side = F64::of_nat((w - 1) as nat);
    let unit = pow2(1074);
    lemma2_to64();
    lemma2_to64_rest();
    lemma_sides();
    lemma_borders();
    lemma_zero(f);
    lemma_last_column((w - 1) as nat);
    lemma_whole_double(a);
    lemma_whole_double(b);
    assert(a * unit <= b * unit) by (nonlinear_arith)
        requires
            a <= b,
    ;
    let (c, d) = (F64::of_nat(a), F64::of_nat(b));
    lemma_in_units(c, d, a * unit, b * unit);
    lemma_quotient_ordered(f, c.parts(), d.parts(), side.parts());
    let (c, d) = (c.over(side), d.over(side));
    assert(c.at_most(d));
    lemma_product_ordered(f, c.parts(), d.parts(), span.parts());
    let (c, d) = (c.times(span), d.times(span));
    assert(c.at_most(d));
    lemma_sum_ordered(f, c.parts(), d.parts(), west.parts());
    lemma_sum_commutes(c, west);
    lemma_sum_commutes(d, west);
}

/// The middle of every column lies on the map.
pub proof fn lemma_middle_on_map(col: nat, w: nat)
    requires
        col < w,
        2 <= w <= 8500,
    ensures
        on_map(lon_of_col(col, w)),
{
    lemma_outer_columns(w);
    lemma_middles_ordered(0, col, w);
    lemma_middles_ordered(col, (w - 1) as nat, w);
}

/// A tile whose middle lies inside of an outline is land, on a map of no more tiles a side than the
/// game is wide.
pub proof fn lemma_middle_inside_is_land(
    lines: Seq<Seq<Coord>>,
    i: int,
    w: nat,
    h: nat,
    row: int,
    col: int,
)
    requires
        0 <= i < lines.len(),
        forall|j: int| 0 <= j < lines[i].len() ==> !(#[trigger] lines[i][j]).y.is_nan_number(),
        row_fits(lines[i], w, h, row),
        2 <= w <= 8500,
        2 <= h <= 8500,
        0 <= row < h,
        0 <= col < w,
        encloses(lines[i], h, row, lon_of_col(col as nat, w)),
    ensures
        raster_tile(lines, w, h, row, col) == Tile::Land,
{
    let lon = lon_of_col(col as nat, w);
    lemma_enclosed_row_is_seen(lines[i], h, row, lon);
    lemma_middle_on_map(col as nat, w);
    lemma_col_comes_back(col as nat, w);
    lemma_inside_is_land(lines, i, w, h, row, lon);
}

} // verus!
