//! Land is what lies inside of the outlines: exact geometry on one side, tiles on the other.

use vstd::arithmetic::div_mod::{lemma_fundamental_div_mod, lemma_fundamental_div_mod_converse};
use vstd::arithmetic::power2::{lemma2_to64, lemma2_to64_rest, lemma_pow2_adds, lemma_pow2_pos, pow2};
use vstd::prelude::*;

use crate::coords::{BBOX_MAX_LON, BBOX_MIN_LON};
use crate::float::error::{distance, lemma_exact};
use crate::float::exact::{apart, size};
use crate::float::laws::{lemma_order_of_values, lemma_zero};
use crate::float::model::Format;
use crate::float::F64;
use crate::round_trip::steps::{
    grain, holds, lemma_borders, lemma_breadth, lemma_grains, lemma_over, lemma_times,
    lemma_whole_double,
};
use crate::tiles::Tile;

use super::cells::{lemma_col_comes_back, lemma_multiples, lemma_row_of_its_latitude, lon_of_col};
use super::edges::{
    edge_near, lemma_crossing_lies_on_edge, lemma_difference, lemma_size_of_product, off_line,
    on_globe, spans, tolerance,
};
use super::inside::{
    crossings_up_to, lemma_between_crossings_is_filled, lemma_columns_ordered,
    lemma_count_ascending, lemma_count_reordered, lemma_even_crossings, lemma_filled_between_pairs,
    on_map, pair_fills,
};
use super::middle::{
    lemma_between_latitudes, lemma_middle_inside_is_land, lemma_middle_on_map, lemma_rows_ordered,
};
use super::order::{ascending, lemma_as_many, lemma_in_order, lemma_rank_is_order};
use super::polygon::{latitudes, Coord};
use super::raster::{
    col_of_lon, covered, crosses, crossing, crossings, first_row, land, last_row, lat_of_row,
    next_point, raster_tile, row_crossings, row_fits,
};

verus! {

/// Whether an edge crosses a latitude at a longitude or west of it, in exact numbers.
pub open spec fn passes_west(a: Coord, b: Coord, lat: int, lon: int) -> bool {
    spans(a, b, lat) && if b.y.exact() > a.y.exact() {
        off_line(a, b, lat, lon) >= 0
    } else {
        off_line(a, b, lat, lon) <= 0
    }
}

/// How many of the first edges of an outline cross a latitude at a longitude or west of it.
pub open spec fn edges_west(points: Seq<Coord>, lat: int, lon: int, edges: int) -> nat
    decreases edges,
{
    if edges <= 0 {
        0
    } else {
        edges_west(points, lat, lon, edges - 1) + if passes_west(
            points[edges - 1],
            next_point(points, edges - 1),
            lat,
            lon,
        ) {
            1nat
        } else {
            0nat
        }
    }
}

/// Whether a place lies inside of an outline, in exact numbers: going west from it, one crosses the
/// outline an odd number of times.
pub open spec fn inside(points: Seq<Coord>, lat: int, lon: int) -> bool {
    edges_west(points, lat, lon, points.len() as int) % 2 == 1
}

/// Whether an outline crosses a latitude so near to a longitude, in exact numbers.
pub open spec fn outline_near(points: Seq<Coord>, lat: int, lon: int, off: int) -> bool {
    exists|i: int|
        0 <= i < points.len() && #[trigger] edge_near(
            points[i],
            next_point(points, i),
            lat,
            lon,
            off,
        )
}

/// Whether an edge crosses a latitude within half a column of a longitude, on a map of so many
/// columns: exact up to one part in a million.
pub open spec fn edge_on_column(a: Coord, b: Coord, lat: int, lon: int, w: nat) -> bool {
    spans(a, b, lat) && (4 * (w - 1)) * size(off_line(a, b, lat, lon)) <= (5 * pow2(1074) + pow2(
        1054,
    )) * size(b.y.exact() - a.y.exact())
}

/// Whether an outline crosses a latitude within half a column of a longitude.
pub open spec fn outline_on_column(points: Seq<Coord>, lat: int, lon: int, w: nat) -> bool {
    exists|i: int|
        0 <= i < points.len() && #[trigger] edge_on_column(
            points[i],
            next_point(points, i),
            lat,
            lon,
            w,
        )
}

/// Whether all points of an outline have coordinates of no more than a thousand degrees.
pub open spec fn all_on_globe(points: Seq<Coord>) -> bool {
    forall|i: int| 0 <= i < points.len() ==> on_globe(#[trigger] points[i])
}

/// The point after another is one of the points.
proof fn lemma_next_on_globe(points: Seq<Coord>, i: int)
    requires
        0 <= i < points.len(),
        all_on_globe(points),
    ensures
        on_globe(points[i]),
        on_globe(next_point(points, i)),
{
    let n = points.len() as int;
    vstd::arithmetic::div_mod::lemma_mod_bound(i + 1, n);
    assert(on_globe(points[(i + 1) % n]));
}

/// Off the outline, the crossings that are recorded are counted like the exact ones.
proof fn lemma_counted_alike(points: Seq<Coord>, lat: F64, lon: F64, edges: int)
    requires
        0 <= edges <= points.len(),
        all_on_globe(points),
        lat.is_finite_number(),
        lon.is_finite_number(),
        !outline_near(points, lat.exact(), lon.exact(), tolerance()),
    ensures
        crossings_up_to(crossings(points, lat, edges), lon) == edges_west(
            points,
            lat.exact(),
            lon.exact(),
            edges,
        ),
    decreases edges,
{
    if edges > 0 {
        lemma_counted_alike(points, lat, lon, edges - 1);
        let i = edges - 1;
        let (a, b) = (points[i], next_point(points, i));
        lemma_next_on_globe(points, i);
        lemma_crosses_is_spans(a, b, lat);
        let rest = crossings(points, lat, edges - 1);
        if crosses(a, b, lat) {
            let x = crossing(a, b, lat);
            lemma_crossing_lies_on_edge(a, b, lat);
            assert(rest.push(x).drop_last() =~= rest);
            assert(!edge_near(a, b, lat.exact(), lon.exact(), tolerance()));
            lemma_order_of_values(Format::Double, x.parts(), lon.parts());
            lemma_side_of_edge(a, b, lat.exact(), x.exact(), lon.exact());
        }
    }
}

/// Crossing a latitude is the same in exact numbers.
proof fn lemma_crosses_is_spans(a: Coord, b: Coord, lat: F64)
    requires
        on_globe(a),
        on_globe(b),
        lat.is_finite_number(),
    ensures
        crosses(a, b, lat) <==> spans(a, b, lat.exact()),
{
    let f = Format::Double;
    lemma_order_of_values(f, a.y.parts(), lat.parts());
    lemma_order_of_values(f, b.y.parts(), lat.parts());
    lemma_order_of_values(f, lat.parts(), a.y.parts());
    lemma_order_of_values(f, lat.parts(), b.y.parts());
}

/// What a longitude that differs makes of the way to a line.
proof fn lemma_line_shifts(a: Coord, b: Coord, lat: int, x: int, lon: int)
    ensures
        off_line(a, b, lat, lon) == off_line(a, b, lat, x) + (lon - x) * (b.y.exact() - a.y.exact()),
{
    let d = b.y.exact() - a.y.exact();
    let ax = a.x.exact();
    assert((lon - ax) * d == (x - ax) * d + (lon - x) * d) by (nonlinear_arith);
}

/// A longitude off an edge lies on the same side of it and of what was recorded for it.
proof fn lemma_side_of_edge(a: Coord, b: Coord, lat: int, x: int, lon: int)
    requires
        edge_near(a, b, lat, x, tolerance()),
        !edge_near(a, b, lat, lon, tolerance()),
    ensures
        x <= lon <==> passes_west(a, b, lat, lon),
{
    let d = b.y.exact() - a.y.exact();
    lemma_line_shifts(a, b, lat, x, lon);
    let way = (lon - x) * d;
    assert(x <= lon && d > 0 ==> way >= 0) by (nonlinear_arith)
        requires
            way == (lon - x) * d,
    ;
    assert(x <= lon && d < 0 ==> way <= 0) by (nonlinear_arith)
        requires
            way == (lon - x) * d,
    ;
    assert(x > lon && d > 0 ==> way <= 0) by (nonlinear_arith)
        requires
            way == (lon - x) * d,
    ;
    assert(x > lon && d < 0 ==> way >= 0) by (nonlinear_arith)
        requires
            way == (lon - x) * d,
    ;
}

/// All crossings that are recorded are numbers, and each lies on some edge.
proof fn lemma_recorded(points: Seq<Coord>, lat: F64, edges: int, j: int) -> (i: int)
    requires
        0 <= edges <= points.len(),
        all_on_globe(points),
        0 <= j < crossings(points, lat, edges).len(),
    ensures
        0 <= i < edges,
        lat.is_finite_number(),
        crossings(points, lat, edges)[j].is_finite_number(),
        edge_near(
            points[i],
            next_point(points, i),
            lat.exact(),
            crossings(points, lat, edges)[j].exact(),
            tolerance(),
        ),
    decreases edges,
{
    let i = edges - 1;
    let (a, b) = (points[i], next_point(points, i));
    let rest = crossings(points, lat, edges - 1);
    if j < rest.len() {
        lemma_recorded(points, lat, edges - 1, j)
    } else {
        lemma_next_on_globe(points, i);
        lemma_crossing_lies_on_edge(a, b, lat);
        i
    }
}

/// Every row of an outline on the globe can be filled.
pub proof fn lemma_rows_fit(points: Seq<Coord>, w: nat, h: nat, row: int)
    requires
        all_on_globe(points),
        w >= 1,
    ensures
        row_fits(points, w, h, row),
{
    let lat = lat_of_row(row as nat, h);
    let xs = row_crossings(points, h, row);
    assert forall|j: int| 0 <= j < xs.len() implies !(#[trigger] xs[j]).is_nan_number() by {
        let i = lemma_recorded(points, lat, points.len() as int, j);
    }
}

/// A tile is land if its middle lies inside of an outline, unless the outline runs right through
/// it: in exact numbers, on a map of no more tiles a side than the game is wide.
pub proof fn lemma_inside_is_land_exactly(
    lines: Seq<Seq<Coord>>,
    i: int,
    w: nat,
    h: nat,
    row: int,
    col: int,
)
    requires
        0 <= i < lines.len(),
        all_on_globe(lines[i]),
        2 <= w <= 8500,
        2 <= h <= 8500,
        0 <= row < h,
        0 <= col < w,
        inside(
            lines[i],
            lat_of_row(row as nat, h).exact(),
            lon_of_col(col as nat, w).exact(),
        ),
        !outline_near(
            lines[i],
            lat_of_row(row as nat, h).exact(),
            lon_of_col(col as nat, w).exact(),
            tolerance(),
        ),
    ensures
        raster_tile(lines, w, h, row, col) == Tile::Land,
{
    let points = lines[i];
    let lat = lat_of_row(row as nat, h);
    let lon = lon_of_col(col as nat, w);
    lemma_row_of_its_latitude(row as nat, h);
    lemma_col_comes_back(col as nat, w);
    lemma_counted_alike(points, lat, lon, points.len() as int);
    lemma_rows_fit(points, w, h, row);
    assert forall|j: int| 0 <= j < points.len() implies !(#[trigger] points[j]).y.is_nan_number() by {
        assert(on_globe(points[j]));
    }
    lemma_middle_inside_is_land(lines, i, w, h, row, col);
}

/// How far east of the border a longitude lies.
proof fn lemma_away(lon: F64) -> (c: nat)
    requires
        on_map(lon),
    ensures
        lon.is_finite_number(),
        0 <= lon.exact() - (F64 { bits: BBOX_MIN_LON }).exact() <= 0x50_0000_0000_0000 * grain(),
        holds(Format::Double, lon.minus(F64 { bits: BBOX_MIN_LON }).parts(), c),
        apart(c as int, lon.exact() - (F64 { bits: BBOX_MIN_LON }).exact()) <= 3 * grain(),
{
    let f = Format::Double;
    let west = F64 { bits: BBOX_MIN_LON };
    let east = F64 { bits: BBOX_MAX_LON };
    lemma2_to64();
    lemma2_to64_rest();
    lemma_borders();
    lemma_zero(f);
    lemma_grains(53);
    lemma_order_of_values(f, west.parts(), lon.parts());
    lemma_order_of_values(f, lon.parts(), east.parts());
    lemma_difference(lon, west);
    assert(!lon.minus(west).parts().neg);
    lon.minus(west).exact() as nat
}

/// As many tiles east of the border, up to rounding.
proof fn lemma_tiles_away(lon: F64, n: nat, c: nat) -> (e: nat)
    requires
        1 <= n <= 8500,
        holds(Format::Double, lon.minus(F64 { bits: BBOX_MIN_LON }).parts(), c),
        c <= 0x50_0000_0000_0003 * grain(),
    ensures
        ({
            let west = F64 { bits: BBOX_MIN_LON };
            let span = F64 { bits: BBOX_MAX_LON }.minus(west);
            holds(
                Format::Double,
                lon.minus(west).over(span).times(F64::of_nat(n)).parts(),
                e,
            )
        }),
        distance(5 * e, 2 * (n * c)) <= 0x4_0000 * grain(),
        e < 0x1000_0000 * pow2(1074),
{
    let west = F64 { bits: BBOX_MIN_LON };
    let span = F64 { bits: BBOX_MAX_LON }.minus(west);
    let side = F64::of_nat(n);
    lemma2_to64();
    lemma2_to64_rest();
    lemma_breadth();
    lemma_whole_double(n);
    lemma_zero(Format::Double);
    lemma_grains(1);
    lemma_grains(16);
    lemma_grains(52);
    lemma_grains(53);
    lemma_grains(54);
    lemma_pow2_adds(5, 64);
    assert(32nat * 0x1_0000_0000_0000_0000nat == 0x20_0000_0000_0000_0000nat) by (nonlinear_arith);
    lemma_grains(69);
    let g = grain();
    assert(pow2(1090) == 0x20_0000_0000_0000_0000 * g);
    let unit = pow2(1074);
    let half = pow2(1073);
    assert(c * unit == (2 * c) * half) by (nonlinear_arith)
        requires
            unit == 2 * half,
    ;
    let d = lemma_over(lon.minus(west), span, c, 5 * half, 2 * c, 5, half, 1022);
    assert(d * (n * unit) == (n * d) * unit) by (nonlinear_arith);
    assert(n * d < 0x20_0000_0000_0000_0000 * g) by (nonlinear_arith)
        requires
            n <= 8500,
            d <= 0x40_0000_0000_0000 * g,
            g > 0,
    {
        assert(n * d <= 8500 * d);
    }
    let e = lemma_times(lon.minus(west).over(span), side, d, n * unit, n * d, 1, unit, 1037);
    lemma_multiples(n, 5 * d, 2 * c, 5 * g);
    assert(n * (5 * d) == 5 * (n * d)) by (nonlinear_arith);
    assert(n * (2 * c) == 2 * (n * c)) by (nonlinear_arith);
    assert(n * (5 * g) <= 42500 * g) by (nonlinear_arith)
        requires
            n <= 8500,
    ;
    e
}

/// What falls on a column lies within half a column of its middle.
pub proof fn lemma_within_half_a_column(lon: F64, w: nat, col: nat)
    requires
        2 <= w <= 8500,
        col < w,
        on_map(lon),
        col_of_lon(lon, w) == col,
    ensures
        lon.is_finite_number(),
        (4 * (w - 1)) * apart(lon.exact(), lon_of_col(col, w).exact()) <= 5 * pow2(1074) + pow2(1042),
{
    let n = (w - 1) as nat;
    let g = grain();
    let unit = pow2(1074);
    let west = F64 { bits: BBOX_MIN_LON };
    let c = lemma_away(lon);
    let away = (lon.exact() - west.exact()) as nat;
    let e = lemma_tiles_away(lon, n, c);
    let tiles = lon.minus(west).over(F64 { bits: BBOX_MAX_LON }.minus(west)).times(F64::of_nat(n));
    let k = lemma_whole_of(tiles, e);
    assert(k == col);
    lemma_multiples(n, c, away, 3 * g);
    let ng = n * g;
    assert(n * (3 * g) == 3 * ng) by (nonlinear_arith)
        requires
            ng == n * g,
    ;
    assert(ng <= 8500 * g) by (nonlinear_arith)
        requires
            ng == n * g,
            n <= 8500,
    ;
    lemma2_to64();
    lemma_grains(21);
    let m = col * unit;
    assert(apart(4 * (n * away) as int, 10 * m as int) <= 5 * unit + 0xa_0000 * g);
    lemma_col_comes_back(col, w);
    let mid = lon_of_col(col, w).exact() - west.exact();
    let p = apart(lon.exact(), lon_of_col(col, w).exact());
    assert(n * away - n * mid == n * (away - mid)) by (nonlinear_arith);
    lemma_size_of_product(n as int, away - mid);
    assert((4 * n) * p == 4 * (n * p)) by (nonlinear_arith);
}

/// The integer nearest to a number.
proof fn lemma_whole_of(a: F64, m: nat) -> (k: nat)
    requires
        holds(Format::Double, a.parts(), m),
        m < 0x1000_0000 * pow2(1074),
    ensures
        k == a.nearest_whole().trunc(usize::MAX as nat),
        2 * (k * pow2(1074)) <= 2 * m + pow2(1074) < 2 * (k * pow2(1074)) + 2 * pow2(1074),
{
    lemma2_to64();
    lemma2_to64_rest();
    let f = Format::Double;
    let unit = pow2(1074);
    lemma_pow2_pos(1074);
    let k = (2 * m + unit) / (2 * unit);
    lemma_fundamental_div_mod((2 * m + unit) as int, (2 * unit) as int);
    vstd::arithmetic::div_mod::lemma_mod_bound((2 * m + unit) as int, (2 * unit) as int);
    assert((2 * unit) * k == 2 * (k * unit)) by (nonlinear_arith);
    assert(k <= 0x1000_0000) by (nonlinear_arith)
        requires
            2 * (k * unit) <= 2 * m + unit,
            m < 0x1000_0000 * unit,
            unit > 0,
    ;
    lemma_exact(f, k, 1074);
    lemma_fundamental_div_mod_converse((k * unit) as int, unit as int, k as int, 0);
    k
}

/// An edge that is near to a longitude is within half a column of one that is not farther away.
proof fn lemma_edge_on_column(a: Coord, b: Coord, lat: int, x: int, lon: int, w: nat)
    requires
        edge_near(a, b, lat, x, tolerance()),
        2 <= w <= 8500,
        (4 * (w - 1)) * apart(lon, x) <= 5 * pow2(1074) + pow2(1042),
    ensures
        edge_on_column(a, b, lat, lon, w),
{
    let d = b.y.exact() - a.y.exact();
    let n = 4 * (w - 1);
    let g = grain();
    lemma2_to64();
    lemma2_to64_rest();
    lemma_grains(17);
    lemma_grains(21);
    lemma_grains(33);
    lemma_line_shifts(a, b, lat, x, lon);
    lemma_size_of_product(lon - x, d);
    let (o, p, t) = (size(off_line(a, b, lat, lon)), apart(lon, x), tolerance());
    assert(o <= t * size(d) + p * size(d));
    let reach = 5 * pow2(1074) + pow2(1042);
    assert(n * o <= (reach + 0x8800 * t) * size(d)) by (nonlinear_arith)
        requires
            o <= t * size(d) + p * size(d),
            n * p <= reach,
            0 <= n <= 0x8800,
            t >= 0,
            size(d) >= 0,
    {
        assert(n * o <= n * (t * size(d) + p * size(d)));
        assert(n * (t * size(d) + p * size(d)) == n * (t * size(d)) + (n * p) * size(d));
        assert(t * size(d) >= 0);
        assert(n * (t * size(d)) <= 0x8800 * (t * size(d)));
        assert((n * p) * size(d) <= reach * size(d));
        assert((reach + 0x8800 * t) * size(d) == reach * size(d) + 0x8800 * (t * size(d)));
    }
    let full = 5 * pow2(1074) + pow2(1054);
    assert(reach + 0x8800 * t <= full);
    assert((reach + 0x8800 * t) * size(d) <= full * size(d)) by (nonlinear_arith)
        requires
            reach + 0x8800 * t <= full,
            size(d) >= 0,
    ;
}

/// Where a crossing that was recorded falls on a column, the outline crosses within half a column
/// of its middle.
proof fn lemma_crossing_on_column(points: Seq<Coord>, lat: F64, j: int, w: nat, col: nat)
    requires
        all_on_globe(points),
        2 <= w <= 8500,
        col < w,
        0 <= j < crossings(points, lat, points.len() as int).len(),
        on_map(crossings(points, lat, points.len() as int)[j]),
        col_of_lon(crossings(points, lat, points.len() as int)[j], w) == col,
    ensures
        outline_on_column(points, lat.exact(), lon_of_col(col, w).exact(), w),
{
    let n = points.len() as int;
    let x = crossings(points, lat, n)[j];
    let lon = lon_of_col(col, w).exact();
    let i = lemma_recorded(points, lat, n, j);
    lemma_within_half_a_column(x, w, col);
    lemma_edge_on_column(points[i], next_point(points, i), lat.exact(), x.exact(), lon, w);
    assert(edge_on_column(points[i], next_point(points, i), lat.exact(), lon, w));
}

/// Where an outline is near to a longitude, it is within half a column.
proof fn lemma_near_is_on_column(points: Seq<Coord>, lat: int, lon: int, w: nat)
    requires
        2 <= w <= 8500,
        outline_near(points, lat, lon, tolerance()),
    ensures
        outline_on_column(points, lat, lon, w),
{
    let i = choose|i: int|
        0 <= i < points.len() && #[trigger] edge_near(
            points[i],
            next_point(points, i),
            lat,
            lon,
            tolerance(),
        );
    lemma_pow2_pos(1042);
    lemma_pow2_pos(1074);
    assert((4 * (w - 1)) * 0 == 0) by (nonlinear_arith);
    lemma_edge_on_column(points[i], next_point(points, i), lat, lon, lon, w);
    assert(edge_on_column(points[i], next_point(points, i), lat, lon, w));
}

/// Between the two crossings of a pair, and off the outline, one is inside.
proof fn lemma_between_is_inside(points: Seq<Coord>, lat: F64, lon: F64, k: int)
    requires
        all_on_globe(points),
        lat.is_finite_number(),
        lon.is_finite_number(),
        !outline_near(points, lat.exact(), lon.exact(), tolerance()),
        ({
            let xs = ascending(crossings(points, lat, points.len() as int));
            &&& 0 <= k < xs.len() as int / 2
            &&& xs[2 * k].at_most(lon)
            &&& lon.at_most(xs[2 * k + 1])
        }),
    ensures
        inside(points, lat.exact(), lon.exact()),
{
    let f = Format::Double;
    let n = points.len() as int;
    let raw = crossings(points, lat, n);
    let xs = ascending(raw);
    let x1 = xs[2 * k + 1];
    lemma_as_many(raw);
    lemma_in_order(raw);
    assert forall|i: int| 0 <= i < xs.len() implies !(#[trigger] xs[i]).is_nan_number() by {
        assert(xs.contains(xs[i]));
        let j = choose|j: int| 0 <= j < raw.len() && raw[j] == xs[i];
        let e = lemma_recorded(points, lat, n, j);
    }
    lemma_count_reordered(raw, xs, lon);
    lemma_count_ascending(xs, lon);
    lemma_counted_alike(points, lat, lon, n);
    // The second crossing is not at the place itself.
    if x1.at_most(lon) {
        assert(xs.contains(x1));
        let j = choose|j: int| 0 <= j < raw.len() && raw[j] == x1;
        let i = lemma_recorded(points, lat, n, j);
        lemma_order_of_values(f, lon.parts(), x1.parts());
        lemma_order_of_values(f, x1.parts(), lon.parts());
        assert(x1.exact() == lon.exact());
        assert(edge_near(
            points[i],
            next_point(points, i),
            lat.exact(),
            lon.exact(),
            tolerance(),
        ));
    }
    assert(crossings_up_to(xs, lon) == 2 * k + 1);
}

/// A tile that an outline covers has its middle inside of the outline, or the outline crosses the
/// latitude of its row within half a column of the middle.
pub proof fn lemma_covered_is_inside(points: Seq<Coord>, w: nat, h: nat, row: int, col: int)
    requires
        all_on_globe(points),
        2 <= w <= 8500,
        2 <= h <= 8500,
        0 <= row < h,
        0 <= col < w,
        covered(points, w, h, row, col),
    ensures
        ({
            let lat = lat_of_row(row as nat, h).exact();
            let lon = lon_of_col(col as nat, w).exact();
            inside(points, lat, lon) || outline_on_column(points, lat, lon, w)
        }),
{
    let lat = lat_of_row(row as nat, h);
    let lon = lon_of_col(col as nat, w);
    let n = points.len() as int;
    lemma_row_of_its_latitude(row as nat, h);
    lemma_col_comes_back(col as nat, w);
    lemma_middle_on_map(col as nat, w);
    lemma_filled_between_pairs(points, w, h, row, col);
    let k = choose|k: int| #[trigger] pair_fills(points, w, h, row, k, col);
    let raw = crossings(points, lat, n);
    let xs = ascending(raw);
    lemma_as_many(raw);
    lemma_in_order(raw);
    let (x0, x1) = (xs[2 * k], xs[2 * k + 1]);
    assert(xs.contains(x0) && xs.contains(x1));
    let j0 = choose|j: int| 0 <= j < raw.len() && raw[j] == x0;
    let j1 = choose|j: int| 0 <= j < raw.len() && raw[j] == x1;
    let i0 = lemma_recorded(points, lat, n, j0);
    let i1 = lemma_recorded(points, lat, n, j1);
    let west = F64 { bits: BBOX_MIN_LON };
    let east = F64 { bits: BBOX_MAX_LON };
    if !x0.at_most(lon) {
        assert(x0.larger(west) == x0);
        lemma_columns_ordered(lon, x0, w);
        assert(on_map(x0));
        assert(col_of_lon(x0, w) == col);
        lemma_crossing_on_column(points, lat, j0, w, col as nat);
    } else if !lon.at_most(x1) {
        assert(x1.smaller(east) == x1);
        lemma_columns_ordered(x1, lon, w);
        assert(on_map(x1));
        assert(col_of_lon(x1, w) == col);
        lemma_crossing_on_column(points, lat, j1, w, col as nat);
    } else if outline_near(points, lat.exact(), lon.exact(), tolerance()) {
        lemma_near_is_on_column(points, lat.exact(), lon.exact(), w);
    } else {
        lemma_between_is_inside(points, lat, lon, k);
    }
}

/// A tile is land only if its middle lies inside of one of the outlines, or one of them crosses the
/// latitude of its row within half a column of the middle: in exact numbers, on a map of no more
/// tiles a side than the game is wide.
pub proof fn lemma_land_is_inside(lines: Seq<Seq<Coord>>, w: nat, h: nat, row: int, col: int)
    requires
        forall|i: int| 0 <= i < lines.len() ==> all_on_globe(#[trigger] lines[i]),
        2 <= w <= 8500,
        2 <= h <= 8500,
        0 <= row < h,
        0 <= col < w,
        raster_tile(lines, w, h, row, col) == Tile::Land,
    ensures
        ({
            let lat = lat_of_row(row as nat, h).exact();
            let lon = lon_of_col(col as nat, w).exact();
            exists|i: int|
                0 <= i < lines.len() && (inside(#[trigger] lines[i], lat, lon)
                    || outline_on_column(lines[i], lat, lon, w))
        }),
{
    let i = choose|i: int| 0 <= i < lines.len() && covered(#[trigger] lines[i], w, h, row, col);
    assert(all_on_globe(lines[i]));
    lemma_covered_is_inside(lines[i], w, h, row, col);
}

/// Whether an edge crosses a latitude within half a column of a longitude, on a map of so many
/// columns, and not at the very end of that half: exact up to one part in a million.
pub open spec fn edge_well_on_column(a: Coord, b: Coord, lat: int, lon: int, w: nat) -> bool {
    spans(a, b, lat) && (4 * (w - 1)) * size(off_line(a, b, lat, lon)) <= (5 * pow2(1074) - pow2(
        1056,
    )) * size(b.y.exact() - a.y.exact())
}

/// A row that an outline crosses is looked at.
proof fn lemma_crossed_row_is_seen(points: Seq<Coord>, h: nat, row: int, i: int)
    requires
        all_on_globe(points),
        2 <= h <= 8500,
        0 <= row < h,
        0 <= i < points.len(),
        spans(points[i], next_point(points, i), lat_of_row(row as nat, h).exact()),
    ensures
        first_row(points, h) <= row <= last_row(points, h),
        points.len() >= 2,
{
    let f = Format::Double;
    let lat = lat_of_row(row as nat, h);
    lemma_row_of_its_latitude(row as nat, h);
    lemma_next_on_globe(points, i);
    let n = points.len() as int;
    let j = (i + 1) % n;
    vstd::arithmetic::div_mod::lemma_mod_bound(i + 1, n);
    assert forall|k: int| 0 <= k < n implies !(#[trigger] points[k]).y.is_nan_number() by {
        assert(on_globe(points[k]));
    }
    lemma_crosses_is_spans(points[i], next_point(points, i), lat);
    lemma_between_latitudes(points, i);
    lemma_between_latitudes(points, j);
    let (low, high) = latitudes(points);
    assert(low.at_most(lat) && lat.at_most(high));
    lemma_rows_ordered(low, lat, h);
    lemma_rows_ordered(lat, high, h);
    if n == 1 {
        vstd::arithmetic::div_mod::lemma_small_mod(0, 1);
        assert(j == 0);
    }
}

/// What lies within half a column of the middle of a column falls on it.
proof fn lemma_falls_on_column(lon: F64, w: nat, col: nat)
    requires
        2 <= w <= 8500,
        col < w,
        on_map(lon),
        (4 * (w - 1)) * apart(lon.exact(), lon_of_col(col, w).exact()) <= 5 * pow2(1074) - pow2(1042),
    ensures
        col_of_lon(lon, w) == col,
{
    let n = (w - 1) as nat;
    let g = grain();
    let unit = pow2(1074);
    let west = F64 { bits: BBOX_MIN_LON };
    let c = lemma_away(lon);
    let away = (lon.exact() - west.exact()) as nat;
    let e = lemma_tiles_away(lon, n, c);
    let tiles = lon.minus(west).over(F64 { bits: BBOX_MAX_LON }.minus(west)).times(F64::of_nat(n));
    let k = lemma_whole_of(tiles, e);
    lemma_multiples(n, c, away, 3 * g);
    let ng = n * g;
    assert(n * (3 * g) == 3 * ng) by (nonlinear_arith)
        requires
            ng == n * g,
    ;
    assert(ng <= 8500 * g) by (nonlinear_arith)
        requires
            ng == n * g,
            n <= 8500,
    ;
    lemma2_to64();
    lemma_grains(21);
    lemma_pow2_pos(1074);
    let m = col * unit;
    lemma_col_comes_back(col, w);
    let mid = lon_of_col(col, w).exact() - west.exact();
    let p = apart(lon.exact(), lon_of_col(col, w).exact());
    assert(n * away - n * mid == n * (away - mid)) by (nonlinear_arith);
    lemma_size_of_product(n as int, away - mid);
    assert((4 * n) * p == 4 * (n * p)) by (nonlinear_arith);
    assert(apart(4 * (n * away) as int, 10 * m as int) <= 5 * unit - 0x10_0000 * g);
    assert(apart(2 * e as int, 2 * m as int) < unit);
    assert(k == col) by (nonlinear_arith)
        requires
            2 * (k * unit) <= 2 * e + unit < 2 * (k * unit) + 2 * unit,
            2 * e < 2 * m + unit,
            2 * m < 2 * e + unit,
            m == col * unit,
            unit > 0,
    {
        if k > col {
            assert(k * unit >= col * unit + unit);
        }
        if k < col {
            assert(k * unit + unit <= col * unit);
        }
    }
}

/// The crossing that is recorded for an edge that spans a latitude.
proof fn lemma_recorded_for(points: Seq<Coord>, lat: F64, edges: int, i: int) -> (j: int)
    requires
        0 <= i < edges <= points.len(),
        crosses(points[i], next_point(points, i), lat),
    ensures
        0 <= j < crossings(points, lat, edges).len(),
        crossings(points, lat, edges)[j] == crossing(points[i], next_point(points, i), lat),
    decreases edges,
{
    if i == edges - 1 {
        crossings(points, lat, edges - 1).len() as int
    } else {
        lemma_recorded_for(points, lat, edges - 1, i)
    }
}

/// Half a column and a little less.
proof fn lemma_well_within(a: Coord, b: Coord, lat: int, x: int, lon: int, w: nat)
    requires
        edge_near(a, b, lat, x, tolerance()),
        edge_well_on_column(a, b, lat, lon, w),
        2 <= w <= 8500,
    ensures
        (4 * (w - 1)) * apart(x, lon) <= 5 * pow2(1074) - pow2(1042),
{
    let d = b.y.exact() - a.y.exact();
    let n = 4 * (w - 1);
    lemma2_to64();
    lemma2_to64_rest();
    lemma_grains(17);
    lemma_grains(21);
    lemma_grains(35);
    lemma_line_shifts(a, b, lat, x, lon);
    lemma_size_of_product(lon - x, d);
    let (o, p, t) = (size(off_line(a, b, lat, lon)), apart(x, lon), tolerance());
    let s = size(d);
    assert(p * s <= o + t * s);
    let reach = 5 * pow2(1074) - pow2(1056);
    assert(n * p <= reach + 0x8800 * t) by (nonlinear_arith)
        requires
            p * s <= o + t * s,
            n * o <= reach * s,
            0 <= n <= 0x8800,
            t >= 0,
            s > 0,
    {
        assert(n * (p * s) <= n * (o + t * s));
        assert(n * (o + t * s) == n * o + n * (t * s));
        assert(t * s >= 0);
        assert(n * (t * s) <= 0x8800 * (t * s));
        assert((n * p) * s <= (reach + 0x8800 * t) * s);
        if n * p > reach + 0x8800 * t {
            assert((n * p) * s > (reach + 0x8800 * t) * s);
        }
    }
}

/// The outline itself is land: a tile is land if an outline crosses the latitude of its row within
/// half a column of its middle, whatever lies on either side. In exact numbers, for all columns but
/// the first and the last.
pub proof fn lemma_outline_is_land(
    lines: Seq<Seq<Coord>>,
    i: int,
    edge: int,
    w: nat,
    h: nat,
    row: int,
    col: int,
)
    requires
        0 <= i < lines.len(),
        all_on_globe(lines[i]),
        3 <= w <= 8500,
        2 <= h <= 8500,
        0 <= row < h,
        1 <= col < w - 1,
        0 <= edge < lines[i].len(),
        edge_well_on_column(
            lines[i][edge],
            next_point(lines[i], edge),
            lat_of_row(row as nat, h).exact(),
            lon_of_col(col as nat, w).exact(),
            w,
        ),
    ensures
        raster_tile(lines, w, h, row, col) == Tile::Land,
{
    let points = lines[i];
    let n = points.len() as int;
    let lat = lat_of_row(row as nat, h);
    let lon = lon_of_col(col as nat, w);
    let (a, b) = (points[edge], next_point(points, edge));
    lemma_crossed_row_is_seen(points, h, row, edge);
    lemma_row_of_its_latitude(row as nat, h);
    lemma_col_comes_back(col as nat, w);
    lemma_next_on_globe(points, edge);
    lemma_crosses_is_spans(a, b, lat);
    lemma_crossing_lies_on_edge(a, b, lat);
    let x = crossing(a, b, lat);
    lemma_well_within(a, b, lat.exact(), x.exact(), lon.exact(), w);
    lemma_between_columns(x, w, col as nat);
    lemma_falls_on_column(x, w, col as nat);
    let j = lemma_recorded_for(points, lat, n, edge);
    let raw = row_crossings(points, h, row);
    let xs = ascending(raw);
    lemma_as_many(raw);
    lemma_in_order(raw);
    assert(raw.contains(x));
    let k = lemma_still_there(raw, x);
    assert forall|m: int| 0 <= m < points.len() implies !(#[trigger] points[m]).y.is_nan_number() by {
        assert(on_globe(points[m]));
    }
    lemma_even_crossings(points, h, row);
    let pair = k / 2;
    assert forall|m: int| 0 <= m < xs.len() implies !(#[trigger] xs[m]).is_nan_number() by {
        assert(xs.contains(xs[m]));
        let r = choose|r: int| 0 <= r < raw.len() && raw[r] == xs[m];
        let e = lemma_recorded(points, lat, n, r);
    }
    lemma_rank_is_order(xs[2 * pair], xs[2 * pair + 1]);
    lemma_rank_is_order(xs[2 * pair], xs[k]);
    lemma_rank_is_order(xs[k], xs[2 * pair + 1]);
    lemma_between_crossings_is_filled(points, w, h, row, pair, x);
    assert(land(lines, w, h, row, col));
}

/// Putting numbers in order loses none.
proof fn lemma_still_there(raw: Seq<F64>, x: F64) -> (k: int)
    requires
        raw.contains(x),
    ensures
        0 <= k < ascending(raw).len(),
        ascending(raw)[k] == x,
{
    broadcast use vstd::seq_lib::group_to_multiset_ensures;

    lemma_in_order(raw);
    let xs = ascending(raw);
    assert(raw.to_multiset().count(x) > 0);
    assert(xs.to_multiset().count(x) > 0);
    assert(xs.contains(x));
    choose|k: int| 0 <= k < xs.len() && xs[k] == x
}

/// What lies within half a column of an inner column lies on the map.
proof fn lemma_between_columns(x: F64, w: nat, col: nat)
    requires
        x.is_finite_number(),
        3 <= w <= 8500,
        1 <= col < w - 1,
        (4 * (w - 1)) * apart(x.exact(), lon_of_col(col, w).exact()) <= 5 * pow2(1074) - pow2(1042),
    ensures
        on_map(x),
{
    let f = Format::Double;
    let n = (w - 1) as nat;
    let g = grain();
    let unit = pow2(1074);
    let west = F64 { bits: BBOX_MIN_LON };
    let east = F64 { bits: BBOX_MAX_LON };
    lemma2_to64();
    lemma2_to64_rest();
    lemma_borders();
    lemma_grains(21);
    lemma_grains(53);
    lemma_col_comes_back(col, w);
    let mid = lon_of_col(col, w).exact() - west.exact();
    let away = x.exact() - west.exact();
    let p = apart(x.exact(), lon_of_col(col, w).exact());
    assert((4 * n) * p == 4 * (n * p)) by (nonlinear_arith);
    lemma_size_of_product(n as int, away - mid);
    assert(n * away - n * mid == n * (away - mid)) by (nonlinear_arith);
    let ng = n * g;
    assert(ng <= 8500 * g) by (nonlinear_arith)
        requires
            ng == n * g,
            n <= 8500,
    ;
    let m = col * unit;
    assert(unit <= m) by (nonlinear_arith)
        requires
            m == col * unit,
            col >= 1,
    ;
    assert(m + unit <= n * unit) by (nonlinear_arith)
        requires
            m == col * unit,
            col + 1 <= n,
    ;
    let span = east.exact() - west.exact();
    assert(2 * span == 5 * unit);
    assert(2 * (n * span) == 5 * (n * unit)) by (nonlinear_arith)
        requires
            2 * span == 5 * unit,
    ;
    assert(n * away >= 0);
    assert(n * away <= n * span);
    assert(away >= 0) by (nonlinear_arith)
        requires
            n * away >= 0,
            n >= 1,
    ;
    assert(away <= span) by (nonlinear_arith)
        requires
            n * away <= n * span,
            n >= 1,
    ;
    lemma_order_of_values(f, west.parts(), x.parts());
    lemma_order_of_values(f, x.parts(), east.parts());
}

} // verus!
