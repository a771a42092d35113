//! Outlines are filled: what lies inside of them is land.

use vstd::arithmetic::div_mod::{
    lemma_fundamental_div_mod_converse, lemma_mod_self_0, lemma_small_mod,
};
use vstd::arithmetic::power2::{lemma2_to64, lemma2_to64_rest, lemma_pow2_adds, lemma_pow2_pos, pow2};
use vstd::prelude::*;
use vstd::seq_lib::group_to_multiset_ensures;

use crate::coords::{BBOX_MAX_LON, BBOX_MIN_LON};
use crate::float::error::lemma_exact;
use crate::float::laws::{lemma_nearest_monotone, lemma_zero};
use crate::float::model::{nearest, Format};
use crate::float::order::{
    lemma_nearest_zero, lemma_product_ordered, lemma_quotient_ordered, lemma_sum_ordered,
    lemma_truncated_ordered, lemma_whole_ordered,
};
use crate::float::F64;
use crate::round_trip::compass::lemma_sides;
use crate::tiles::Tile;

use super::order::{ascending, lemma_as_many, lemma_in_order, lemma_rank_is_order, rank};
use super::polygon::Coord;
use super::raster::{
    between_pairs, col_of_lon, columns, covered, crosses, crossings, first_row, land, last_row,
    lat_of_row, next_point, raster_tile, reaches_in, row_crossings, row_fits, row_intervals,
};

verus! {

/// Whether a longitude lies on the map.
pub open spec fn on_map(lon: F64) -> bool {
    (F64 { bits: BBOX_MIN_LON }).at_most(lon) && lon.at_most(F64 { bits: BBOX_MAX_LON })
}

/// How many of some crossings lie at a longitude or west of it.
pub open spec fn crossings_up_to(xs: Seq<F64>, lon: F64) -> nat
    decreases xs.len(),
{
    if xs.len() == 0 {
        0
    } else {
        crossings_up_to(xs.drop_last(), lon) + if xs.last().at_most(lon) {
            1nat
        } else {
            0nat
        }
    }
}

/// Whether a place on the latitude of a row lies inside of an outline: going west from it, one
/// crosses the outline an odd number of times.
pub open spec fn encloses(points: Seq<Coord>, h: nat, row: int, lon: F64) -> bool {
    crossings_up_to(row_crossings(points, h, row), lon) % 2 == 1
}

/// The last column of a map of any width is a positive number, but for that of a single column.
pub proof fn lemma_last_column(n: nat)
    requires
        1 <= n <= 0xffff_ffff_ffff_ffff,
    ensures
        !F64::of_nat(n).parts().neg,
        F64::of_nat(n).is_finite_number(),
        F64::of_nat(n).parts().abs > 0,
{
    lemma2_to64();
    lemma2_to64_rest();
    let f = Format::Double;
    let unit = pow2(1074);
    lemma_pow2_pos(1074);
    lemma_exact(f, 1, 1074);
    lemma_exact(f, 1, 1138);
    lemma_pow2_adds(64, 1074);
    assert(1 * unit <= n * unit <= 0x1_0000_0000_0000_0000 * unit) by (nonlinear_arith)
        requires
            1 <= n <= 0x1_0000_0000_0000_0000,
    ;
    assert(1 * pow2(1138) == 0x1_0000_0000_0000_0000 * unit);
    lemma_nearest_monotone(f, 1 * unit, n * unit, 1);
    lemma_nearest_monotone(f, n * unit, 1 * pow2(1138), 1);
    lemma_zero(f);
    assert(nearest(f, 1 * unit, 1) > 0);
}

/// Everything falls on a single column.
proof fn lemma_single_column(v: F64)
    ensures
        col_of_lon(v, 1) == 0,
{
    let f = Format::Double;
    let west = F64 { bits: BBOX_MIN_LON };
    let part = v.minus(west).over(F64 { bits: BBOX_MAX_LON }.minus(west));
    let side = F64::of_nat(0);
    lemma_zero(f);
    lemma_pow2_pos(1074);
    lemma_nearest_zero(f, 1);
    lemma_nearest_zero(f, pow2(1074));
    assert(0 * pow2(1074) == 0);
    assert(side.parts().abs == 0);
    assert(part.parts().magnitude(f) * 0 == 0);
    let tiles = part.times(side);
    assert(tiles.is_nan_number() || tiles.parts().abs == 0);
    if !tiles.is_nan_number() {
        let unit = pow2(1074);
        lemma_fundamental_div_mod_converse(unit as int, (2 * unit) as int, 0, unit as int);
        lemma_fundamental_div_mod_converse(0, unit as int, 0, 0);
        assert(tiles.nearest_whole().parts().abs == 0);
    }
}

/// What lies farther east falls on no smaller column.
pub proof fn lemma_columns_ordered(a: F64, b: F64, w: nat)
    requires
        a.at_most(b),
        1 <= w <= usize::MAX,
    ensures
        col_of_lon(a, w) <= col_of_lon(b, w) <= usize::MAX,
{
    let f = Format::Double;
    let west = F64 { bits: BBOX_MIN_LON };
    let span = F64 { bits: BBOX_MAX_LON }.minus(west);
    let side = F64::of_nat((w - 1) as nat);
    lemma_sides();
    lemma_zero(f);
    if w == 1 {
        lemma_single_column(a);
        lemma_single_column(b);
    } else {
        lemma_last_column((w - 1) as nat);
        lemma_sum_ordered(f, a.parts(), b.parts(), west.negative().parts());
        let (c, d) = (a.minus(west), b.minus(west));
        assert(c.at_most(d));
        lemma_quotient_ordered(f, c.parts(), d.parts(), span.parts());
        let (c, d) = (c.over(span), d.over(span));
        assert(c.at_most(d));
        lemma_product_ordered(f, c.parts(), d.parts(), side.parts());
        let (c, d) = (c.times(side), d.times(side));
        assert(c.at_most(d));
        lemma_whole_ordered(f, c.parts(), d.parts());
        let (c, d) = (c.nearest_whole(), d.nearest_whole());
        assert(c.at_most(d));
        lemma_truncated_ordered(f, c.parts(), d.parts(), usize::MAX as nat);
    }
}

/// The columns between the crossings of a pair are among those of the first pairs.
proof fn lemma_pair_listed(xs: Seq<F64>, w: nat, pairs: int, k: int)
    requires
        0 <= k < pairs,
        reaches_in(xs[2 * k], xs[2 * k + 1]),
        columns(xs[2 * k], xs[2 * k + 1], w).0 <= columns(xs[2 * k], xs[2 * k + 1], w).1,
    ensures
        between_pairs(xs, w, pairs).contains(columns(xs[2 * k], xs[2 * k + 1], w)),
    decreases pairs,
{
    let c = columns(xs[2 * k], xs[2 * k + 1], w);
    let rest = between_pairs(xs, w, pairs - 1);
    let all = between_pairs(xs, w, pairs);
    if k == pairs - 1 {
        assert(all[rest.len() as int] == c);
    } else {
        lemma_pair_listed(xs, w, pairs - 1, k);
        let i = choose|i: int| 0 <= i < rest.len() && rest[i] == c;
        assert(all[i] == c);
    }
}

/// Columns among those of the first pairs lie between the crossings of one.
proof fn lemma_listed_pair(xs: Seq<F64>, w: nat, pairs: int, i: int) -> (k: int)
    requires
        0 <= i < between_pairs(xs, w, pairs).len(),
    ensures
        0 <= k < pairs,
        reaches_in(xs[2 * k], xs[2 * k + 1]),
        between_pairs(xs, w, pairs)[i] == columns(xs[2 * k], xs[2 * k + 1], w),
    decreases pairs,
{
    let rest = between_pairs(xs, w, pairs - 1);
    if i < rest.len() {
        lemma_listed_pair(xs, w, pairs - 1, i)
    } else {
        pairs - 1
    }
}

/// Whether a column lies between the two crossings of a pair that reaches into the map: on the
/// column of the first crossing, on that of the second, or on one between them.
pub open spec fn pair_fills(
    points: Seq<Coord>,
    w: nat,
    h: nat,
    row: int,
    k: int,
    col: int,
) -> bool {
    let xs = ascending(row_crossings(points, h, row));
    let c = columns(xs[2 * k], xs[2 * k + 1], w);
    &&& 0 <= k < xs.len() as int / 2
    &&& reaches_in(xs[2 * k], xs[2 * k + 1])
    &&& c.0 <= col <= c.1
}

/// A tile is filled just where it lies between the two crossings of a pair.
pub proof fn lemma_filled_between_pairs(points: Seq<Coord>, w: nat, h: nat, row: int, col: int)
    requires
        points.len() >= 2,
        first_row(points, h) <= row <= last_row(points, h),
    ensures
        covered(points, w, h, row, col) <==> exists|k: int| #[trigger]
            pair_fills(points, w, h, row, k, col),
{
    let raw = row_crossings(points, h, row);
    let xs = ascending(raw);
    lemma_as_many(raw);
    let pairs = xs.len() as int / 2;
    let list = row_intervals(points, w, h, row);
    assert(list == between_pairs(xs, w, pairs));
    if covered(points, w, h, row, col) {
        let i = choose|i: int|
            0 <= i < row_intervals(points, w, h, row).len() && {
                let c = #[trigger] row_intervals(points, w, h, row)[i];
                c.0 <= col <= c.1
            };
        let k = lemma_listed_pair(xs, w, pairs, i);
        assert(pair_fills(points, w, h, row, k, col));
    }
    if exists|k: int| #[trigger] pair_fills(points, w, h, row, k, col) {
        let k = choose|k: int| #[trigger] pair_fills(points, w, h, row, k, col);
        lemma_pair_listed(xs, w, pairs, k);
        let c = columns(xs[2 * k], xs[2 * k + 1], w);
        let i = choose|i: int| 0 <= i < list.len() && list[i] == c;
        assert(row_intervals(points, w, h, row)[i] == c);
    }
}

/// What lies between the first and the second crossing of a row, the third and the fourth, and so
/// on, is filled, the crossings themselves with it.
pub proof fn lemma_between_crossings_is_filled(
    points: Seq<Coord>,
    w: nat,
    h: nat,
    row: int,
    k: int,
    lon: F64,
)
    requires
        points.len() >= 2,
        first_row(points, h) <= row <= last_row(points, h),
        1 <= w <= usize::MAX,
        on_map(lon),
        0 <= k < row_crossings(points, h, row).len() as int / 2,
        ascending(row_crossings(points, h, row))[2 * k].at_most(lon),
        lon.at_most(ascending(row_crossings(points, h, row))[2 * k + 1]),
    ensures
        covered(points, w, h, row, col_of_lon(lon, w) as int),
{
    let raw = row_crossings(points, h, row);
    let xs = ascending(raw);
    lemma_as_many(raw);
    let (x0, x1) = (xs[2 * k], xs[2 * k + 1]);
    let west = F64 { bits: BBOX_MIN_LON };
    let east = F64 { bits: BBOX_MAX_LON };
    lemma_columns_ordered(x0.larger(west), lon, w);
    lemma_columns_ordered(lon, x1.smaller(east), w);
    assert(reaches_in(x0, x1));
    lemma_filled_between_pairs(points, w, h, row, col_of_lon(lon, w) as int);
    assert(pair_fills(points, w, h, row, k, col_of_lon(lon, w) as int));
}

/// Whether a point lies north of a latitude.
spec fn above(p: Coord, lat: F64) -> bool {
    lat.below(p.y)
}

/// Going around, one crosses a latitude whenever one changes sides.
proof fn lemma_sides_change(points: Seq<Coord>, lat: F64, edges: int)
    requires
        points.len() > 0,
        0 <= edges <= points.len(),
        forall|i: int| 0 <= i < points.len() ==> !(#[trigger] points[i]).y.is_nan_number(),
        !lat.is_nan_number(),
    ensures
        crossings(points, lat, edges).len() % 2 == 1 <==> above(points[0], lat) != above(
            points[edges % (points.len() as int)],
            lat,
        ),
    decreases edges,
{
    let n = points.len() as int;
    if edges == 0 {
        lemma_small_mod(0, n as nat);
    } else {
        lemma_sides_change(points, lat, edges - 1);
        lemma_small_mod((edges - 1) as nat, n as nat);
        if edges < n {
            lemma_small_mod(edges as nat, n as nat);
        } else {
            lemma_mod_self_0(n);
        }
        let a = points[edges - 1];
        let b = next_point(points, edges - 1);
        assert(crosses(a, b, lat) <==> above(a, lat) != above(b, lat));
    }
}

/// Nothing crosses a latitude that is not a number.
proof fn lemma_no_latitude(points: Seq<Coord>, lat: F64, edges: int)
    requires
        lat.is_nan_number(),
    ensures
        crossings(points, lat, edges).len() == 0,
    decreases edges,
{
    if edges > 0 {
        lemma_no_latitude(points, lat, edges - 1);
    }
}

/// Whoever goes all the way around an outline crosses every latitude an even number of times.
pub proof fn lemma_even_crossings(points: Seq<Coord>, h: nat, row: int)
    requires
        points.len() > 0,
        forall|i: int| 0 <= i < points.len() ==> !(#[trigger] points[i]).y.is_nan_number(),
    ensures
        row_crossings(points, h, row).len() % 2 == 0,
{
    let lat = lat_of_row(row as nat, h);
    if lat.is_nan_number() {
        lemma_no_latitude(points, lat, points.len() as int);
    } else {
        lemma_sides_change(points, lat, points.len() as int);
        lemma_mod_self_0(points.len() as int);
    }
}

/// One crossing less.
proof fn lemma_count_remove(xs: Seq<F64>, j: int, lon: F64)
    requires
        0 <= j < xs.len(),
    ensures
        crossings_up_to(xs, lon) == crossings_up_to(xs.remove(j), lon) + if xs[j].at_most(lon) {
            1nat
        } else {
            0nat
        },
    decreases xs.len(),
{
    if j == xs.len() - 1 {
        assert(xs.remove(j) =~= xs.drop_last());
    } else {
        lemma_count_remove(xs.drop_last(), j, lon);
        assert(xs.remove(j).drop_last() =~= xs.drop_last().remove(j));
        assert(xs.remove(j).last() == xs.last());
    }
}

/// The order of crossings makes no difference to how many there are.
pub proof fn lemma_count_reordered(a: Seq<F64>, b: Seq<F64>, lon: F64)
    requires
        a.to_multiset() == b.to_multiset(),
    ensures
        crossings_up_to(a, lon) == crossings_up_to(b, lon),
    decreases a.len(),
{
    broadcast use group_to_multiset_ensures;

    assert(a.len() == a.to_multiset().len());
    assert(b.len() == b.to_multiset().len());
    if a.len() > 0 {
        let last = a.len() - 1;
        let x = a[last];
        assert(a.contains(x));
        assert(a.to_multiset().count(x) > 0);
        assert(b.to_multiset().count(x) > 0);
        assert(b.contains(x));
        let j = choose|j: int| 0 <= j < b.len() && b[j] == x;
        lemma_count_remove(a, last, lon);
        lemma_count_remove(b, j, lon);
        assert(a.remove(last).to_multiset() == b.remove(j).to_multiset());
        lemma_count_reordered(a.remove(last), b.remove(j), lon);
    }
}

/// In ascending order, the crossings up to a longitude come first.
pub proof fn lemma_count_ascending(xs: Seq<F64>, lon: F64)
    requires
        forall|i: int| 0 <= i < xs.len() ==> !(#[trigger] xs[i]).is_nan_number(),
        forall|i: int, j: int|
            0 <= i <= j < xs.len() ==> rank(#[trigger] xs[i]) <= rank(#[trigger] xs[j]),
        !lon.is_nan_number(),
    ensures
        crossings_up_to(xs, lon) <= xs.len(),
        forall|i: int|
            0 <= i < xs.len() ==> ((#[trigger] xs[i]).at_most(lon) <==> i < crossings_up_to(xs, lon)),
    decreases xs.len(),
{
    if xs.len() > 0 {
        let init = xs.drop_last();
        let last = xs.len() - 1;
        lemma_count_ascending(init, lon);
        assert forall|i: int| 0 <= i < xs.len() implies ((#[trigger] xs[i]).at_most(lon) <==> i
            < crossings_up_to(xs, lon)) by {
            if xs[last].at_most(lon) {
                if last > 0 {
                    lemma_rank_is_order(xs[last - 1], xs[last]);
                    assert(init[last - 1].at_most(lon));
                }
            }
            if i < last {
                assert(init[i] == xs[i]);
            }
        }
    }
}

/// Outlines are solid: a place inside of one, on the latitude of a row that is looked at, lies on
/// a tile that is filled.
pub proof fn lemma_inside_is_filled(points: Seq<Coord>, w: nat, h: nat, row: int, lon: F64)
    requires
        points.len() >= 2,
        forall|i: int| 0 <= i < points.len() ==> !(#[trigger] points[i]).y.is_nan_number(),
        first_row(points, h) <= row <= last_row(points, h),
        row_fits(points, w, h, row),
        1 <= w <= usize::MAX,
        on_map(lon),
        encloses(points, h, row, lon),
    ensures
        covered(points, w, h, row, col_of_lon(lon, w) as int),
{
    let raw = row_crossings(points, h, row);
    let xs = ascending(raw);
    lemma_as_many(raw);
    lemma_in_order(raw);
    lemma_even_crossings(points, h, row);
    lemma_count_reordered(raw, xs, lon);
    if raw.len() == 0 {
        assert(crossings_up_to(raw, lon) == 0);
    } else {
        assert forall|i: int| 0 <= i < xs.len() implies !(#[trigger] xs[i]).is_nan_number() by {
            assert(xs.contains(xs[i]));
            let j = choose|j: int| 0 <= j < raw.len() && raw[j] == xs[i];
            assert(!raw[j].is_nan_number());
        }
        lemma_count_ascending(xs, lon);
        let k = crossings_up_to(xs, lon) as int / 2;
        assert(xs[2 * k].at_most(lon));
        assert(!xs[2 * k + 1].at_most(lon));
        lemma_between_crossings_is_filled(points, w, h, row, k, lon);
    }
}

/// A place inside of any of some outlines lies on land.
pub proof fn lemma_inside_is_land(
    lines: Seq<Seq<Coord>>,
    i: int,
    w: nat,
    h: nat,
    row: int,
    lon: F64,
)
    requires
        0 <= i < lines.len(),
        lines[i].len() >= 2,
        forall|j: int| 0 <= j < lines[i].len() ==> !(#[trigger] lines[i][j]).y.is_nan_number(),
        first_row(lines[i], h) <= row <= last_row(lines[i], h),
        row_fits(lines[i], w, h, row),
        1 <= w <= usize::MAX,
        on_map(lon),
        encloses(lines[i], h, row, lon),
    ensures
        raster_tile(lines, w, h, row, col_of_lon(lon, w) as int) == Tile::Land,
{
    lemma_inside_is_filled(lines[i], w, h, row, lon);
    assert(land(lines, w, h, row, col_of_lon(lon, w) as int));
}

} // verus!
