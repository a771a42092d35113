//! Turning outlines of land into tiles.

use vstd::arithmetic::div_mod::{lemma_mod_self_0, lemma_small_mod};
use vstd::prelude::*;

use crate::coords::{
    BBOX_MAX_LAT, BBOX_MAX_LON, BBOX_MIN_LAT, BBOX_MIN_LON, MAP_TILES_H, MAP_TILES_W,
    OVERVIEW_TILES_H, OVERVIEW_TILES_W,
};
use crate::float::F64;
use crate::tiles::Tile;

use super::order::{ascending, lemma_as_many, sort};
use super::polygon::{latitudes, Coord, Polygon};

verus! {

/// Columns of a row from the first to the last.
pub type Interval = (usize, usize);

/// The row that a latitude falls on, of so many rows from the north to the south.
pub open spec fn row_of_lat(lat: F64, h: nat) -> nat {
    let north = F64 { bits: BBOX_MAX_LAT };
    let south = F64 { bits: BBOX_MIN_LAT };
    north.minus(lat).over(north.minus(south)).times(
        F64::of_nat((h - 1) as nat),
    ).nearest_whole().trunc(usize::MAX as nat)
}

/// The column that a longitude falls on, of so many columns from the west to the east.
pub open spec fn col_of_lon(lon: F64, w: nat) -> nat {
    let west = F64 { bits: BBOX_MIN_LON };
    let east = F64 { bits: BBOX_MAX_LON };
    lon.minus(west).over(east.minus(west)).times(
        F64::of_nat((w - 1) as nat),
    ).nearest_whole().trunc(usize::MAX as nat)
}

/// The latitude of a row.
pub open spec fn lat_of_row(row: nat, h: nat) -> F64 {
    let north = F64 { bits: BBOX_MAX_LAT };
    let south = F64 { bits: BBOX_MIN_LAT };
    north.minus(F64::of_nat(row).over(F64::of_nat((h - 1) as nat)).times(north.minus(south)))
}

/// The first row that is looked at for an outline: one north of its northernmost point.
pub open spec fn first_row(points: Seq<Coord>, h: nat) -> int {
    let row = row_of_lat(latitudes(points).1, h) as int;
    let above = if row >= 1 {
        row - 1
    } else {
        0
    };
    if above <= h - 1 {
        above
    } else {
        h - 1
    }
}

/// The last row that is looked at for an outline: one south of its southernmost point.
pub open spec fn last_row(points: Seq<Coord>, h: nat) -> int {
    let below = row_of_lat(latitudes(points).0, h) + 1;
    if below <= h - 1 {
        below as int
    } else {
        h - 1
    }
}

/// Whether the edge between two points crosses a latitude.
pub open spec fn crosses(a: Coord, b: Coord, lat: F64) -> bool {
    a.y.at_most(lat) && lat.below(b.y) || b.y.at_most(lat) && lat.below(a.y)
}

/// The longitude at which the edge between two points crosses a latitude.
pub open spec fn crossing(a: Coord, b: Coord, lat: F64) -> F64 {
    let t = lat.minus(a.y).over(b.y.minus(a.y));
    a.x.plus(t.times(b.x.minus(a.x)))
}

/// The point after another, around the outline.
pub open spec fn next_point(points: Seq<Coord>, i: int) -> Coord {
    points[(i + 1) % (points.len() as int)]
}

/// The longitudes at which the first edges of an outline cross a latitude.
pub open spec fn crossings(points: Seq<Coord>, lat: F64, edges: int) -> Seq<F64>
    decreases edges,
{
    if edges <= 0 {
        Seq::empty()
    } else {
        let rest = crossings(points, lat, edges - 1);
        let a = points[edges - 1];
        let b = next_point(points, edges - 1);
        if crosses(a, b, lat) {
            rest.push(crossing(a, b, lat))
        } else {
            rest
        }
    }
}

/// Whether the land between two crossings reaches into the map.
pub open spec fn reaches_in(x0: F64, x1: F64) -> bool {
    !x1.below(F64 { bits: BBOX_MIN_LON }) && !(F64 { bits: BBOX_MAX_LON }).below(x0)
}

/// The columns between two crossings.
pub open spec fn columns(x0: F64, x1: F64, w: nat) -> Interval {
    (
        col_of_lon(x0.larger(F64 { bits: BBOX_MIN_LON }), w) as usize,
        col_of_lon(x1.smaller(F64 { bits: BBOX_MAX_LON }), w) as usize,
    )
}

/// The columns inside of an outline, from the first pairs of crossings in ascending order: land
/// lies between the first and the second, the third and the fourth, and so on.
pub open spec fn between_pairs(xs: Seq<F64>, w: nat, pairs: int) -> Seq<Interval>
    decreases pairs,
{
    if pairs <= 0 {
        Seq::empty()
    } else {
        let rest = between_pairs(xs, w, pairs - 1);
        let x0 = xs[2 * pairs - 2];
        let x1 = xs[2 * pairs - 1];
        let c = columns(x0, x1, w);
        if reaches_in(x0, x1) && c.0 <= c.1 {
            rest.push(c)
        } else {
            rest
        }
    }
}

/// All crossings of an outline with a row.
pub open spec fn row_crossings(points: Seq<Coord>, h: nat, row: int) -> Seq<F64> {
    crossings(points, lat_of_row(row as nat, h), points.len() as int)
}

/// The columns of a row that lie inside of an outline.
pub open spec fn row_intervals(points: Seq<Coord>, w: nat, h: nat, row: int) -> Seq<Interval> {
    if points.len() >= 2 && first_row(points, h) <= row <= last_row(points, h) {
        let xs = row_crossings(points, h, row);
        between_pairs(ascending(xs), w, xs.len() as int / 2)
    } else {
        Seq::empty()
    }
}

/// Whether none of some numbers is "not a number".
pub open spec fn all_numbers(xs: Seq<F64>) -> bool {
    forall|i: int| 0 <= i < xs.len() ==> !(#[trigger] xs[i]).is_nan_number()
}

/// Whether the crossings of an outline with a row can be put in order, and the columns between
/// them be found.
pub open spec fn row_fits(points: Seq<Coord>, w: nat, h: nat, row: int) -> bool {
    let xs = row_crossings(points, h, row);
    &&& xs.len() >= 2 ==> all_numbers(xs)
    &&& w == 0 ==> forall|k: int|
        0 <= k < xs.len() as int / 2 ==> !reaches_in(
            #[trigger] ascending(xs)[2 * k],
            ascending(xs)[2 * k + 1],
        )
}

/// Whether an outline can be filled on a grid of this size.
pub open spec fn scan_fits(points: Seq<Coord>, w: nat, h: nat) -> bool {
    points.len() > 0 ==> {
        &&& h >= 1
        &&& row_of_lat(latitudes(points).0, h) < usize::MAX
        &&& points.len() >= 2 ==> forall|row: int|
            first_row(points, h) <= row <= last_row(points, h) ==> #[trigger] row_fits(
                points,
                w,
                h,
                row,
            )
    }
}

/// Whether a tile lies inside of an outline.
pub open spec fn covered(points: Seq<Coord>, w: nat, h: nat, row: int, col: int) -> bool {
    exists|k: int|
        0 <= k < row_intervals(points, w, h, row).len() && {
            let c = #[trigger] row_intervals(points, w, h, row)[k];
            c.0 <= col <= c.1
        }
}

/// The row that a latitude falls on.
fn lat_to_row(lat: F64, h: usize) -> (r: usize)
    requires
        h >= 1,
    ensures
        r == row_of_lat(lat, h as nat),
{
    let north: F64 = F64 { bits: BBOX_MAX_LAT };
    let south: F64 = F64 { bits: BBOX_MIN_LAT };
    let frac: F64 = north.sub(lat).div(north.sub(south));
    frac.mul(F64::from_u64((h - 1) as u64)).round().to_usize()
}

/// The column that a longitude falls on.
fn lon_to_col(lon: F64, w: usize) -> (r: usize)
    requires
        w >= 1,
    ensures
        r == col_of_lon(lon, w as nat),
{
    let west: F64 = F64 { bits: BBOX_MIN_LON };
    let east: F64 = F64 { bits: BBOX_MAX_LON };
    let frac: F64 = lon.sub(west).div(east.sub(west));
    frac.mul(F64::from_u64((w - 1) as u64)).round().to_usize()
}

/// The latitude of a row.
fn row_to_lat(row: usize, h: usize) -> (r: F64)
    requires
        h >= 1,
    ensures
        r == lat_of_row(row as nat, h as nat),
{
    let north: F64 = F64 { bits: BBOX_MAX_LAT };
    let south: F64 = F64 { bits: BBOX_MIN_LAT };
    let frac: F64 = F64::from_u64(row as u64).div(F64::from_u64((h - 1) as u64));
    north.sub(frac.mul(north.sub(south)))
}

/// The first and the last row that are looked at for an outline.
fn rows_of(range: (F64, F64), h: usize) -> (r: (usize, usize))
    requires
        h >= 1,
        row_of_lat(range.0, h as nat) < usize::MAX,
    ensures
        forall|points: Seq<Coord>| #[trigger] latitudes(points) == range ==> {
            &&& r.0 == first_row(points, h as nat)
            &&& r.1 == last_row(points, h as nat)
        },
        r.1 < h,
{
    let top: usize = lat_to_row(range.1, h);
    let above: usize = if top >= 1 {
        top - 1
    } else {
        0
    };
    let below: usize = lat_to_row(range.0, h) + 1;
    (
        if above <= h - 1 {
            above
        } else {
            h - 1
        },
        if below <= h - 1 {
            below
        } else {
            h - 1
        },
    )
}

/// All crossings of an outline with a row.
fn cross_row(points: &Vec<Coord>, h: usize, row: usize) -> (xs: Vec<F64>)
    requires
        h >= 1,
    ensures
        xs@ == row_crossings(points@, h as nat, row as int),
{
    let lat: F64 = row_to_lat(row, h);
    let n: usize = points.len();
    let mut xs: Vec<F64> = Vec::new();
    let mut i: usize = 0;
    while i < n
        invariant
            i <= n,
            n == points.len(),
            xs@ == crossings(points@, lat, i as int),
        decreases n - i,
    {
        let a: Coord = points[i];
        let b: Coord = if i + 1 < n {
            points[i + 1]
        } else {
            points[0]
        };
        proof {
            if i + 1 < n {
                lemma_small_mod((i + 1) as nat, n as nat);
            } else {
                lemma_mod_self_0(n as int);
            }
            assert(b == next_point(points@, i as int));
        }
        if a.y.le(lat) && lat.lt(b.y) || b.y.le(lat) && lat.lt(a.y) {
            let t: F64 = lat.sub(a.y).div(b.y.sub(a.y));
            xs.push(a.x.add(t.mul(b.x.sub(a.x))));
        }
        i = i + 1;
    }
    xs
}

/// The columns of a row that lie inside of an outline, from its crossings with the row.
fn fill_row(xs: &Vec<F64>, w: usize, out: &mut Vec<Interval>)
    requires
        w == 0 ==> forall|k: int|
            0 <= k < xs@.len() as int / 2 ==> !reaches_in(
                #[trigger] ascending(xs@)[2 * k],
                ascending(xs@)[2 * k + 1],
            ),
        xs@.len() >= 2 ==> all_numbers(xs@),
    ensures
        final(out)@ == old(out)@ + between_pairs(ascending(xs@), w as nat, xs@.len() as int / 2),
{
    let ghost start = out@;
    let sorted: Vec<F64> = sort(xs);
    let ghost s = ascending(xs@);
    proof {
        lemma_as_many(xs@);
    }
    let pairs: usize = sorted.len() / 2;
    let mut k: usize = 0;
    assert(start =~= start + between_pairs(s, w as nat, 0));
    while k < pairs
        invariant
            k <= pairs,
            pairs == sorted.len() / 2,
            sorted@ == s,
            w == 0 ==> forall|k: int|
                0 <= k < pairs ==> !reaches_in(#[trigger] s[2 * k], s[2 * k + 1]),
            out@ == start + between_pairs(s, w as nat, k as int),
        decreases pairs - k,
    {
        let x0: F64 = sorted[2 * k];
        let x1: F64 = sorted[2 * k + 1];
        assert(x0 == s[2 * k as int]);
        let west: F64 = F64 { bits: BBOX_MIN_LON };
        let east: F64 = F64 { bits: BBOX_MAX_LON };
        if !x1.lt(west) && !east.lt(x0) {
            let c0: usize = lon_to_col(x0.max(west), w);
            let c1: usize = lon_to_col(x1.min(east), w);
            if c0 <= c1 {
                out.push((c0, c1));
            }
        }
        k = k + 1;
        assert(out@ =~= start + between_pairs(s, w as nat, k as int));
    }
}

/// Adds the columns that lie inside of an outline to those of each row.
///
/// For each row, this finds where the outline crosses the latitude of the row, and fills between
/// the first and the second crossing, the third and the fourth, and so on.
pub fn scanline_fill_polygon(
    poly: &Polygon,
    w: usize,
    h: usize,
    fill_intervals: &mut Vec<Vec<Interval>>,
)
    requires
        scan_fits(poly.exterior@, w as nat, h as nat),
        forall|row: int|
            #![trigger row_intervals(poly.exterior@, w as nat, h as nat, row)]
            row_intervals(poly.exterior@, w as nat, h as nat, row).len() > 0 ==> row
                < old(fill_intervals)@.len(),
    ensures
        final(fill_intervals)@.len() == old(fill_intervals)@.len(),
        forall|row: int|
            0 <= row < old(fill_intervals)@.len() ==> (#[trigger] final(fill_intervals)@[row])@
                == old(fill_intervals)@[row]@ + row_intervals(
                poly.exterior@,
                w as nat,
                h as nat,
                row,
            ),
{
    let points: &Vec<Coord> = &poly.exterior;
    let ghost start = fill_intervals@;
    let range: (F64, F64) = match poly.lat_range() {
        Some(range) => range,
        None => {
            assert forall|row: int| 0 <= row < start.len() implies (#[trigger] start[row])@
                == start[row]@ + row_intervals(points@, w as nat, h as nat, row) by {
                assert(start[row]@ =~= start[row]@ + Seq::<Interval>::empty());
            }
            return ;
        },
    };
    assert(latitudes(points@) == range);
    let (row_min, row_max) = rows_of(range, h);
    if points.len() < 2 {
        assert forall|row: int| 0 <= row < start.len() implies (#[trigger] start[row])@
            == start[row]@ + row_intervals(points@, w as nat, h as nat, row) by {
            assert(start[row]@ =~= start[row]@ + Seq::<Interval>::empty());
        }
        return ;
    }
    let mut row: usize = row_min;
    while row <= row_max
        invariant
            row_min <= row,
            row <= row_max + 1 || row == row_min,
            row_max < h,
            h >= 1,
            points == &poly.exterior,
            points.len() >= 2,
            row_min == first_row(points@, h as nat),
            row_max == last_row(points@, h as nat),
            forall|r: int|
                first_row(points@, h as nat) <= r <= last_row(points@, h as nat)
                    ==> #[trigger] row_fits(points@, w as nat, h as nat, r),
            forall|r: int|
                #![trigger row_intervals(points@, w as nat, h as nat, r)]
                row_intervals(points@, w as nat, h as nat, r).len() > 0 ==> r < start.len(),
            fill_intervals@.len() == start.len(),
            forall|r: int|
                0 <= r < start.len() ==> (#[trigger] fill_intervals@[r])@ == if row_min <= r < row {
                    start[r]@ + row_intervals(points@, w as nat, h as nat, r)
                } else {
                    start[r]@
                },
        decreases row_max + 1 - row,
    {
        let xs: Vec<F64> = cross_row(points, h, row);
        assert(row_fits(points@, w as nat, h as nat, row as int));
        let mut found: Vec<Interval> = Vec::new();
        fill_row(&xs, w, &mut found);
        assert(found@ =~= row_intervals(points@, w as nat, h as nat, row as int));
        let ghost before = fill_intervals@;
        if found.len() > 0 {
            let mut list: Vec<Interval> = Vec::new();
            core::mem::swap(&mut list, &mut fill_intervals[row]);
            let ghost kept = list@;
            list.append(&mut found);
            core::mem::swap(&mut list, &mut fill_intervals[row]);
            assert(fill_intervals@[row as int]@ == kept + row_intervals(
                points@,
                w as nat,
                h as nat,
                row as int,
            ));
        }
        assert forall|r: int| 0 <= r < start.len() implies (#[trigger] fill_intervals@[r])@ == if
            row_min <= r < row + 1 {
            start[r]@ + row_intervals(points@, w as nat, h as nat, r)
        } else {
            start[r]@
        } by {
            if r == row {
                assert(start[r]@ + Seq::<Interval>::empty() =~= start[r]@);
            } else {
                assert(fill_intervals@[r]@ == before[r]@);
            }
        }
        row = row + 1;
    }
    assert forall|r: int| 0 <= r < start.len() implies (#[trigger] fill_intervals@[r])@
        == start[r]@ + row_intervals(points@, w as nat, h as nat, r) by {
        if !(row_min <= r <= row_max) {
            assert(start[r]@ =~= start[r]@ + Seq::<Interval>::empty());
        }
    }
}

/// Whether some column is among some intervals.
pub open spec fn marks(list: Seq<Interval>, col: int) -> bool {
    exists|k: int| 0 <= k < list.len() && (#[trigger] list[k]).0 <= col <= list[k].1
}

/// The outlines of some areas.
pub open spec fn outlines(polygons: Seq<&Polygon>) -> Seq<Seq<Coord>> {
    polygons.map_values(|p: &Polygon| p.exterior@)
}

/// Whether a tile lies inside of any of some outlines.
pub open spec fn land(lines: Seq<Seq<Coord>>, w: nat, h: nat, row: int, col: int) -> bool {
    exists|i: int| 0 <= i < lines.len() && covered(#[trigger] lines[i], w, h, row, col)
}

/// Whether one of the four neighbours of a tile on the map is land.
pub open spec fn beside_land(lines: Seq<Seq<Coord>>, w: nat, h: nat, row: int, col: int) -> bool {
    ||| row >= 1 && land(lines, w, h, row - 1, col)
    ||| row + 1 < h && land(lines, w, h, row + 1, col)
    ||| col >= 1 && land(lines, w, h, row, col - 1)
    ||| col + 1 < w && land(lines, w, h, row, col + 1)
}

/// A tile of the map: land inside of the outlines, coast next to it, water elsewhere.
pub open spec fn raster_tile(lines: Seq<Seq<Coord>>, w: nat, h: nat, row: int, col: int) -> Tile {
    if land(lines, w, h, row, col) {
        Tile::Land
    } else if beside_land(lines, w, h, row, col) {
        Tile::Coast
    } else {
        Tile::Water
    }
}

/// Whether a grid is the map of some outlines.
pub open spec fn is_raster(grid: Seq<Vec<Tile>>, lines: Seq<Seq<Coord>>, w: nat, h: nat) -> bool {
    &&& grid.len() == h
    &&& forall|row: int| 0 <= row < h ==> (#[trigger] grid[row])@.len() == w
    &&& forall|row: int, col: int|
        0 <= row < h && 0 <= col < w ==> #[trigger] grid[row]@[col] == raster_tile(
            lines,
            w,
            h,
            row,
            col,
        )
}

/// Two lists of intervals, one after the other.
proof fn lemma_marks_add(a: Seq<Interval>, b: Seq<Interval>, col: int)
    ensures
        marks(a + b, col) <==> marks(a, col) || marks(b, col),
{
    let s = a + b;
    if marks(a, col) {
        let k = choose|k: int| 0 <= k < a.len() && (#[trigger] a[k]).0 <= col <= a[k].1;
        assert(s[k] == a[k]);
    }
    if marks(b, col) {
        let k = choose|k: int| 0 <= k < b.len() && (#[trigger] b[k]).0 <= col <= b[k].1;
        assert(s[a.len() + k] == b[k]);
    }
    if marks(s, col) {
        let k = choose|k: int| 0 <= k < s.len() && (#[trigger] s[k]).0 <= col <= s[k].1;
        if k < a.len() {
            assert(a[k] == s[k]);
        } else {
            assert(b[k - a.len()] == s[k]);
        }
    }
}

/// Being inside of an outline is being among its intervals.
proof fn lemma_covered(points: Seq<Coord>, w: nat, h: nat, row: int, col: int)
    ensures
        covered(points, w, h, row, col) <==> marks(row_intervals(points, w, h, row), col),
{
    let list = row_intervals(points, w, h, row);
    if covered(points, w, h, row, col) {
        let k = choose|k: int|
            0 <= k < row_intervals(points, w, h, row).len() && {
                let c = #[trigger] row_intervals(points, w, h, row)[k];
                c.0 <= col <= c.1
            };
        assert(list[k].0 <= col <= list[k].1);
    }
    if marks(list, col) {
        let k = choose|k: int| 0 <= k < list.len() && (#[trigger] list[k]).0 <= col <= list[k].1;
        assert(row_intervals(points, w, h, row)[k].0 <= col);
    }
}

/// One outline more.
proof fn lemma_land_step(lines: Seq<Seq<Coord>>, i: int, w: nat, h: nat, row: int, col: int)
    requires
        0 <= i < lines.len(),
    ensures
        land(lines.take(i + 1), w, h, row, col) <==> land(lines.take(i), w, h, row, col) || covered(
            lines[i],
            w,
            h,
            row,
            col,
        ),
{
    let a = lines.take(i);
    let b = lines.take(i + 1);
    if land(a, w, h, row, col) {
        let j = choose|j: int| 0 <= j < a.len() && covered(#[trigger] a[j], w, h, row, col);
        assert(b[j] == a[j]);
    }
    assert(b[i] == lines[i]);
    if land(b, w, h, row, col) {
        let j = choose|j: int| 0 <= j < b.len() && covered(#[trigger] b[j], w, h, row, col);
        if j < i {
            assert(a[j] == b[j]);
        }
    }
}

/// The columns inside of the outlines, for each row.
fn fill_all(polygons: &Vec<&Polygon>, w: usize, h: usize) -> (fill: Vec<Vec<Interval>>)
    requires
        forall|i: int|
            0 <= i < polygons@.len() ==> scan_fits(
                (#[trigger] polygons@[i]).exterior@,
                w as nat,
                h as nat,
            ),
    ensures
        fill@.len() == h,
        forall|row: int, col: int|
            0 <= row < h ==> (#[trigger] marks(fill@[row]@, col) <==> land(
                outlines(polygons@),
                w as nat,
                h as nat,
                row,
                col,
            )),
{
    let ghost lines = outlines(polygons@);
    let ghost wn = w as nat;
    let ghost hn = h as nat;
    let mut fill: Vec<Vec<Interval>> = Vec::new();
    let mut r: usize = 0;
    while r < h
        invariant
            r <= h,
            fill@.len() == r,
            forall|row: int| 0 <= row < r ==> (#[trigger] fill@[row])@.len() == 0,
        decreases h - r,
    {
        fill.push(Vec::new());
        r = r + 1;
    }
    let mut i: usize = 0;
    while i < polygons.len()
        invariant
            i <= polygons.len(),
            wn == w,
            hn == h,
            lines == outlines(polygons@),
            forall|i: int|
                0 <= i < polygons@.len() ==> scan_fits(
                    (#[trigger] polygons@[i]).exterior@,
                    w as nat,
                    h as nat,
                ),
            fill@.len() == h,
            forall|row: int, col: int|
                0 <= row < h ==> (#[trigger] marks(fill@[row]@, col) <==> land(
                    lines.take(i as int),
                    wn,
                    hn,
                    row,
                    col,
                )),
        decreases polygons.len() - i,
    {
        let poly: &Polygon = polygons[i];
        let ghost points = poly.exterior@;
        let ghost before = fill@;
        assert(lines[i as int] == points);
        scanline_fill_polygon(poly, w, h, &mut fill);
        assert forall|row: int, col: int| 0 <= row < h implies (#[trigger] marks(fill@[row]@, col)
            <==> land(lines.take(i + 1), wn, hn, row, col)) by {
            lemma_marks_add(before[row]@, row_intervals(points, wn, hn, row), col);
            lemma_covered(points, wn, hn, row, col);
            lemma_land_step(lines, i as int, wn, hn, row, col);
            assert(marks(before[row]@, col) <==> land(lines.take(i as int), wn, hn, row, col));
        }
        i = i + 1;
    }
    assert(lines.take(lines.len() as int) =~= lines);
    fill
}

/// A row of the map with land on some columns, and water elsewhere.
fn fill_tiles(list: &Vec<Interval>, w: usize) -> (row: Vec<Tile>)
    ensures
        row@.len() == w,
        forall|col: int|
            0 <= col < w ==> #[trigger] row@[col] == if marks(list@, col) {
                Tile::Land
            } else {
                Tile::Water
            },
{
    let mut row: Vec<Tile> = Vec::new();
    let mut c: usize = 0;
    while c < w
        invariant
            c <= w,
            row@.len() == c,
            forall|col: int| 0 <= col < c ==> #[trigger] row@[col] == Tile::Water,
        decreases w - c,
    {
        row.push(Tile::Water);
        c = c + 1;
    }
    let mut k: usize = 0;
    while k < list.len()
        invariant
            k <= list.len(),
            row@.len() == w,
            forall|col: int|
                0 <= col < w ==> #[trigger] row@[col] == if marks(list@.take(k as int), col) {
                    Tile::Land
                } else {
                    Tile::Water
                },
        decreases list.len() - k,
    {
        let (c0, c1) = list[k];
        let ghost before = row@;
        let mut c: usize = c0;
        while c < w && c <= c1
            invariant
                row@.len() == w,
                before.len() == w,
                c0 <= c,
                forall|col: int|
                    0 <= col < w ==> #[trigger] row@[col] == if c0 <= col < c && col <= c1 {
                        Tile::Land
                    } else {
                        before[col]
                    },
            decreases w - c,
        {
            row.set(c, Tile::Land);
            c = c + 1;
        }
        proof {
            let part = list@.take(k as int);
            assert(list@.take(k + 1) =~= part + seq![list@[k as int]]);
            assert forall|col: int| 0 <= col < w implies #[trigger] row@[col] == if marks(
                list@.take(k + 1),
                col,
            ) {
                Tile::Land
            } else {
                Tile::Water
            } by {
                let one = seq![list@[k as int]];
                lemma_marks_add(part, one, col);
                if c0 <= col <= c1 {
                    assert(one[0].0 <= col <= one[0].1);
                    assert(marks(one, col));
                } else if marks(one, col) {
                    let j = choose|j: int|
                        0 <= j < one.len() && (#[trigger] one[j]).0 <= col <= one[j].1;
                    assert(one[j] == list@[k as int]);
                }
                assert(before[col] == if marks(part, col) {
                    Tile::Land
                } else {
                    Tile::Water
                });
            }
        }
        k = k + 1;
    }
    assert(list@.take(list@.len() as int) =~= list@);
    row
}

/// Whether a row of land has land on a column.
fn is_land(row: &Vec<Tile>, col: usize) -> (r: bool)
    requires
        col < row@.len(),
    ensures
        r == (row@[col as int] == Tile::Land),
{
    row[col] == Tile::Land
}

/// The map of some outlines, on a grid of this size: first the columns inside of the outlines for
/// each row, then the land of each row, then the coast.
pub fn rasterize_at(polygons: &Vec<&Polygon>, w: usize, h: usize) -> (grid: Vec<Vec<Tile>>)
    requires
        forall|i: int|
            0 <= i < polygons@.len() ==> scan_fits(
                (#[trigger] polygons@[i]).exterior@,
                w as nat,
                h as nat,
            ),
    ensures
        is_raster(grid@, outlines(polygons@), w as nat, h as nat),
{
    let ghost lines = outlines(polygons@);
    let ghost wn = w as nat;
    let ghost hn = h as nat;
    let fill: Vec<Vec<Interval>> = fill_all(polygons, w, h);
    let mut solid: Vec<Vec<Tile>> = Vec::new();
    let mut r: usize = 0;
    while r < h
        invariant
            r <= h,
            wn == w,
            hn == h,
            fill@.len() == h,
            solid@.len() == r,
            forall|row: int, col: int|
                0 <= row < h ==> (#[trigger] marks(fill@[row]@, col) <==> land(
                    lines,
                    wn,
                    hn,
                    row,
                    col,
                )),
            forall|row: int| 0 <= row < r ==> (#[trigger] solid@[row])@.len() == w,
            forall|row: int, col: int|
                0 <= row < r && 0 <= col < w ==> (#[trigger] solid@[row]@[col] == Tile::Land <==> land(
                    lines,
                    wn,
                    hn,
                    row,
                    col,
                )),
        decreases h - r,
    {
        let row: Vec<Tile> = fill_tiles(&fill[r], w);
        assert forall|col: int| 0 <= col < w implies (#[trigger] row@[col] == Tile::Land <==> land(
            lines,
            wn,
            hn,
            r as int,
            col,
        )) by {
            assert(marks(fill@[r as int]@, col) <==> land(lines, wn, hn, r as int, col));
        }
        solid.push(row);
        r = r + 1;
    }
    let mut grid: Vec<Vec<Tile>> = Vec::new();
    let mut r: usize = 0;
    while r < h
        invariant
            r <= h,
            wn == w,
            hn == h,
            solid@.len() == h,
            forall|row: int| 0 <= row < h ==> (#[trigger] solid@[row])@.len() == w,
            forall|row: int, col: int|
                0 <= row < h && 0 <= col < w ==> (#[trigger] solid@[row]@[col] == Tile::Land <==> land(
                    lines,
                    wn,
                    hn,
                    row,
                    col,
                )),
            grid@.len() == r,
            forall|row: int| 0 <= row < r ==> (#[trigger] grid@[row])@.len() == w,
            forall|row: int, col: int|
                0 <= row < r && 0 <= col < w ==> #[trigger] grid@[row]@[col] == raster_tile(
                    lines,
                    wn,
                    hn,
                    row,
                    col,
                ),
        decreases h - r,
    {
        let mut row: Vec<Tile> = Vec::new();
        let mut c: usize = 0;
        while c < w
            invariant
                c <= w,
                r < h,
                wn == w,
                hn == h,
                solid@.len() == h,
                forall|row: int| 0 <= row < h ==> (#[trigger] solid@[row])@.len() == w,
                forall|row: int, col: int|
                    0 <= row < h && 0 <= col < w ==> (#[trigger] solid@[row]@[col] == Tile::Land
                        <==> land(lines, wn, hn, row, col)),
                row@.len() == c,
                forall|col: int|
                    0 <= col < c ==> #[trigger] row@[col] == raster_tile(
                        lines,
                        wn,
                        hn,
                        r as int,
                        col,
                    ),
            decreases w - c,
        {
            assert(solid@[r as int]@.len() == w);
            let tile: Tile = if is_land(&solid[r], c) {
                Tile::Land
            } else if (r >= 1 && is_land(&solid[r - 1], c)) || (r + 1 < h && is_land(
                &solid[r + 1],
                c,
            )) || (c >= 1 && is_land(&solid[r], c - 1)) || (c + 1 < w && is_land(&solid[r], c + 1)) {
                Tile::Coast
            } else {
                Tile::Water
            };
            row.push(tile);
            c = c + 1;
        }
        grid.push(row);
        r = r + 1;
    }
    grid
}

/// The outlines of some areas.
pub open spec fn outlines_of(polygons: Seq<Polygon>) -> Seq<Seq<Coord>> {
    polygons.map_values(|p: Polygon| p.exterior@)
}

/// The same areas by reference.
fn by_reference(polygons: &Vec<Polygon>) -> (r: Vec<&Polygon>)
    ensures
        r@.len() == polygons@.len(),
        forall|i: int| 0 <= i < polygons@.len() ==> *(#[trigger] r@[i]) == polygons@[i],
        outlines(r@) == outlines_of(polygons@),
{
    let mut r: Vec<&Polygon> = Vec::new();
    let mut i: usize = 0;
    while i < polygons.len()
        invariant
            i <= polygons.len(),
            r@.len() == i,
            forall|j: int| 0 <= j < i ==> *(#[trigger] r@[j]) == polygons@[j],
        decreases polygons.len() - i,
    {
        r.push(&polygons[i]);
        i = i + 1;
    }
    assert(outlines(r@) =~= outlines_of(polygons@));
    r
}

/// The map of some areas in full size, row by row from the north.
pub fn rasterize(polygons: &Vec<Polygon>) -> (grid: Vec<Vec<Tile>>)
    requires
        forall|i: int|
            0 <= i < polygons@.len() ==> scan_fits(
                (#[trigger] polygons@[i]).exterior@,
                MAP_TILES_W as nat,
                MAP_TILES_H as nat,
            ),
    ensures
        is_raster(grid@, outlines_of(polygons@), MAP_TILES_W as nat, MAP_TILES_H as nat),
{
    rasterize_at(&by_reference(polygons), MAP_TILES_W as usize, MAP_TILES_H as usize)
}

/// The map of some areas in the size of the overview.
pub fn rasterize_overview(polygons: &Vec<&Polygon>) -> (grid: Vec<Vec<Tile>>)
    requires
        forall|i: int|
            0 <= i < polygons@.len() ==> scan_fits(
                (#[trigger] polygons@[i]).exterior@,
                OVERVIEW_TILES_W as nat,
                OVERVIEW_TILES_H as nat,
            ),
    ensures
        is_raster(grid@, outlines(polygons@), OVERVIEW_TILES_W as nat, OVERVIEW_TILES_H as nat),
{
    rasterize_at(polygons, OVERVIEW_TILES_W as usize, OVERVIEW_TILES_H as usize)
}

/// Whether the crossings of an outline with a row can be put in order, and the columns between
/// them be found.
fn can_fill_row(points: &Vec<Coord>, w: usize, h: usize, row: usize) -> (r: bool)
    requires
        h >= 1,
    ensures
        r == row_fits(points@, w as nat, h as nat, row as int),
{
    let xs: Vec<F64> = cross_row(points, h, row);
    if xs.len() >= 2 {
        let mut i: usize = 0;
        while i < xs.len()
            invariant
                i <= xs.len(),
                xs.len() >= 2,
                xs@ == row_crossings(points@, h as nat, row as int),
                forall|j: int| 0 <= j < i ==> !(#[trigger] xs@[j]).is_nan_number(),
            decreases xs.len() - i,
        {
            if xs[i].is_nan() {
                assert(xs@[i as int].is_nan_number());
                return false;
            }
            i = i + 1;
        }
    }
    if w == 0 {
        let sorted: Vec<F64> = sort(&xs);
        let ghost s = ascending(xs@);
        proof {
            lemma_as_many(xs@);
        }
        let pairs: usize = sorted.len() / 2;
        let mut k: usize = 0;
        while k < pairs
            invariant
                k <= pairs,
                pairs == sorted.len() / 2,
                sorted@ == s,
                w == 0,
                s == ascending(xs@),
                s.len() == xs@.len(),
                xs@ == row_crossings(points@, h as nat, row as int),
                forall|j: int| 0 <= j < k ==> !reaches_in(#[trigger] s[2 * j], s[2 * j + 1]),
            decreases pairs - k,
        {
            let x0: F64 = sorted[2 * k];
            let x1: F64 = sorted[2 * k + 1];
            assert(x0 == s[2 * k as int]);
            if !x1.lt(F64 { bits: BBOX_MIN_LON }) && !(F64 { bits: BBOX_MAX_LON }).lt(x0) {
                assert(reaches_in(s[2 * k as int], s[2 * k as int + 1]));
                return false;
            }
            k = k + 1;
        }
    }
    true
}

/// Whether an outline can be filled on a grid of this size.
pub fn can_scan(poly: &Polygon, w: usize, h: usize) -> (r: bool)
    ensures
        r == scan_fits(poly.exterior@, w as nat, h as nat),
{
    let points: &Vec<Coord> = &poly.exterior;
    let range: (F64, F64) = match poly.lat_range() {
        Some(range) => range,
        None => {
            return true;
        },
    };
    assert(latitudes(points@) == range);
    if h == 0 || lat_to_row(range.0, h) == usize::MAX {
        return false;
    }
    if points.len() < 2 {
        return true;
    }
    let (row_min, row_max) = rows_of(range, h);
    let mut row: usize = row_min;
    while row <= row_max
        invariant
            row_min <= row,
            row_max < h,
            h >= 1,
            points == &poly.exterior,
            points.len() >= 2,
            row_min == first_row(points@, h as nat),
            row_max == last_row(points@, h as nat),
            forall|r: int| row_min <= r < row ==> #[trigger] row_fits(points@, w as nat, h as nat, r),
        decreases row_max + 1 - row,
    {
        if !can_fill_row(points, w, h, row) {
            assert(!row_fits(points@, w as nat, h as nat, row as int));
            return false;
        }
        row = row + 1;
    }
    true
}

/// Coast is where water would lie next to land: every coast tile has land beside it, and no water
/// tile has.
pub proof fn lemma_coast_borders_land(
    lines: Seq<Seq<Coord>>,
    w: nat,
    h: nat,
    row: int,
    col: int,
)
    requires
        0 <= row < h,
        0 <= col < w,
    ensures
        ({
            let beside = (row >= 1 && raster_tile(lines, w, h, row - 1, col) == Tile::Land) || (row
                + 1 < h && raster_tile(lines, w, h, row + 1, col) == Tile::Land) || (col >= 1
                && raster_tile(lines, w, h, row, col - 1) == Tile::Land) || (col + 1 < w
                && raster_tile(lines, w, h, row, col + 1) == Tile::Land);
            &&& raster_tile(lines, w, h, row, col) == Tile::Coast ==> beside
            &&& raster_tile(lines, w, h, row, col) == Tile::Water ==> !beside
        }),
{
}

/// Without any land there is nothing but water.
pub proof fn lemma_no_land_all_water(w: nat, h: nat, row: int, col: int)
    ensures
        raster_tile(Seq::<Seq<Coord>>::empty(), w, h, row, col) == Tile::Water,
{
}

/// More land does not make any tile of land disappear.
pub proof fn lemma_land_grows(
    lines: Seq<Seq<Coord>>,
    more: Seq<Seq<Coord>>,
    w: nat,
    h: nat,
    row: int,
    col: int,
)
    requires
        raster_tile(lines, w, h, row, col) == Tile::Land,
    ensures
        raster_tile(lines + more, w, h, row, col) == Tile::Land,
{
    let i = choose|i: int| 0 <= i < lines.len() && covered(#[trigger] lines[i], w, h, row, col);
    assert((lines + more)[i] == lines[i]);
}

} // verus!
