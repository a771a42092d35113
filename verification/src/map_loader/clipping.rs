//! Which outlines of a file make up the map, and which of them the overview.

use vstd::arithmetic::power2::{lemma2_to64, lemma2_to64_rest, lemma_pow2_adds, lemma_pow2_pos, pow2};
use vstd::prelude::*;

use crate::coords::{BBOX_MAX_LAT, BBOX_MAX_LON, BBOX_MIN_LAT, BBOX_MIN_LON};
use crate::float::laws::lemma_order_of_values;
use crate::float::model::Format;
use crate::float::F64;
use crate::round_trip::steps::{lemma_borders, lemma_encoded};

use super::grids::{large, large_outlines, OVERVIEW_MIN_AREA_DEG2};
use super::parser::{
    clipped, has_suffix, last_with, outside, place, places, ring_outlines, EntryView, ShapeView,
};
use super::polygon::{closed, same_point, Coord, Polygon};

verus! {

/// Whether the bounds of a shape reach into the map, in exact numbers.
pub open spec fn reaches_map(shape: ShapeView) -> bool {
    let (min, max) = (place(shape.min), place(shape.max));
    &&& max.x.exact() >= (F64 { bits: BBOX_MIN_LON }).exact()
    &&& min.x.exact() <= (F64 { bits: BBOX_MAX_LON }).exact()
    &&& max.y.exact() >= (F64 { bits: BBOX_MIN_LAT }).exact()
    &&& min.y.exact() <= (F64 { bits: BBOX_MAX_LAT }).exact()
}

/// Whether the bounds of a shape are finite.
pub open spec fn has_bounds(shape: ShapeView) -> bool {
    let (min, max) = (place(shape.min), place(shape.max));
    min.x.is_finite_number() && min.y.is_finite_number() && max.x.is_finite_number()
        && max.y.is_finite_number()
}

/// Being outside is not reaching into the map.
proof fn lemma_outside(shape: ShapeView)
    requires
        has_bounds(shape),
    ensures
        outside(shape) <==> !reaches_map(shape),
{
    let f = Format::Double;
    let (min, max) = (place(shape.min), place(shape.max));
    lemma_borders();
    lemma_order_of_values(f, max.x.parts(), (F64 { bits: BBOX_MIN_LON }).parts());
    lemma_order_of_values(f, (F64 { bits: BBOX_MAX_LON }).parts(), min.x.parts());
    lemma_order_of_values(f, max.y.parts(), (F64 { bits: BBOX_MIN_LAT }).parts());
    lemma_order_of_values(f, (F64 { bits: BBOX_MAX_LAT }).parts(), min.y.parts());
}

/// The outlines of a shape: each ring of three points or more.
proof fn lemma_rings(rings: Seq<Seq<(u64, u64)>>, n: int, k: int)
    requires
        0 <= k < n <= rings.len(),
        rings[k].len() >= 3,
    ensures
        ring_outlines(rings, n).contains(closed(places(rings[k]))),
    decreases n,
{
    let all = ring_outlines(rings, n);
    let rest = ring_outlines(rings, n - 1);
    if k == n - 1 {
        assert(all[rest.len() as int] == closed(places(rings[k])));
    } else {
        lemma_rings(rings, n - 1, k);
        let i = choose|i: int| 0 <= i < rest.len() && rest[i] == closed(places(rings[k]));
        assert(all[i] == rest[i]);
    }
}

/// An outline of a shape is one of its rings.
proof fn lemma_ring_of(rings: Seq<Seq<(u64, u64)>>, n: int, i: int) -> (k: int)
    requires
        n <= rings.len(),
        0 <= i < ring_outlines(rings, n).len(),
    ensures
        0 <= k < n,
        rings[k].len() >= 3,
        ring_outlines(rings, n)[i] == closed(places(rings[k])),
    decreases n,
{
    let rest = ring_outlines(rings, n - 1);
    if i < rest.len() {
        lemma_ring_of(rings, n - 1, i)
    } else {
        n - 1
    }
}

/// Every ring of three points or more of an area that reaches into the map becomes an outline of
/// land, closed.
pub proof fn lemma_reaching_areas_are_kept(shapes: Seq<Option<ShapeView>>, n: int, i: int, k: int)
    requires
        0 <= i < n <= shapes.len(),
        shapes[i] is Some,
        has_bounds(shapes[i]->0),
        reaches_map(shapes[i]->0),
        0 <= k < shapes[i]->0.rings.len(),
        shapes[i]->0.rings[k].len() >= 3,
    ensures
        clipped(shapes, n).contains(closed(places(shapes[i]->0.rings[k]))),
    decreases n,
{
    let rest = clipped(shapes, n - 1);
    let line = closed(places(shapes[i]->0.rings[k]));
    if i == n - 1 {
        let shape = shapes[i]->0;
        lemma_outside(shape);
        lemma_rings(shape.rings, shape.rings.len() as int, k);
        let more = ring_outlines(shape.rings, shape.rings.len() as int);
        let j = choose|j: int| 0 <= j < more.len() && more[j] == line;
        assert((rest + more)[rest.len() + j] == line);
    } else {
        lemma_reaching_areas_are_kept(shapes, n - 1, i, k);
        let j = choose|j: int| 0 <= j < rest.len() && rest[j] == line;
        assert(clipped(shapes, n)[j] == line);
    }
}

/// Nothing else becomes an outline: each is a ring of three points or more of an area that reaches
/// into the map.
pub proof fn lemma_only_reaching_areas_are_kept(shapes: Seq<Option<ShapeView>>, n: int, j: int)
    requires
        n <= shapes.len(),
        0 <= j < clipped(shapes, n).len(),
        forall|i: int|
            0 <= i < n ==> ((#[trigger] shapes[i]) matches Some(shape) ==> has_bounds(shape)),
    ensures
        exists|i: int, k: int|
            #![trigger shapes[i]->0.rings[k]]
            0 <= i < n && shapes[i] is Some && reaches_map(shapes[i]->0) && 0 <= k
                < shapes[i]->0.rings.len() && shapes[i]->0.rings[k].len() >= 3 && clipped(
                shapes,
                n,
            )[j] == closed(places(shapes[i]->0.rings[k])),
    decreases n,
{
    let rest = clipped(shapes, n - 1);
    if j < rest.len() {
        lemma_only_reaching_areas_are_kept(shapes, n - 1, j);
        let (i, k) = choose|i: int, k: int|
            #![trigger shapes[i]->0.rings[k]]
            0 <= i < n - 1 && shapes[i] is Some && reaches_map(shapes[i]->0) && 0 <= k
                < shapes[i]->0.rings.len() && shapes[i]->0.rings[k].len() >= 3 && clipped(
                shapes,
                n - 1,
            )[j] == closed(places(shapes[i]->0.rings[k]));
        assert(shapes[i]->0.rings[k].len() >= 3);
    } else {
        assert(shapes[n - 1] is Some);
        let shape = shapes[n - 1]->0;
        lemma_outside(shape);
        let k = lemma_ring_of(shape.rings, shape.rings.len() as int, j - rest.len());
        assert(shapes[n - 1]->0.rings[k].len() >= 3);
    }
}

/// A closed outline has all its points in their order, and ends where it begins.
pub proof fn lemma_outlines_are_closed(points: Seq<Coord>)
    requires
        points.len() > 0,
        forall|i: int|
            0 <= i < points.len() ==> !(#[trigger] points[i]).x.is_nan_number()
                && !points[i].y.is_nan_number(),
    ensures
        same_point(closed(points).first(), closed(points).last()),
        closed(points).take(points.len() as int) == points,
        closed(points).len() <= points.len() + 1,
        same_point(points.first(), points.last()) ==> closed(points) == points,
{
    assert(closed(points).take(points.len() as int) =~= points);
    assert(!points[0].x.is_nan_number());
}

/// The file that is taken is the last one whose name ends so; where none is taken, none does.
pub proof fn lemma_last_file_is_taken(entries: Seq<EntryView>, suffix: Seq<char>)
    ensures
        match last_with(entries, suffix) {
            Some(data) => exists|i: int|
                0 <= i < entries.len() && data == (#[trigger] entries[i]).data && has_suffix(
                    entries[i].name,
                    suffix,
                ) && forall|j: int|
                    i < j < entries.len() ==> !has_suffix((#[trigger] entries[j]).name, suffix),
            None => forall|j: int|
                0 <= j < entries.len() ==> !has_suffix((#[trigger] entries[j]).name, suffix),
        },
    decreases entries.len(),
{
    if entries.len() > 0 {
        let init = entries.drop_last();
        let last = entries.len() - 1;
        if has_suffix(entries.last().name, suffix) {
            assert(entries[last].data == entries.last().data);
        } else {
            lemma_last_file_is_taken(init, suffix);
            match last_with(init, suffix) {
                Some(data) => {
                    let i = choose|i: int|
                        0 <= i < init.len() && data == (#[trigger] init[i]).data && has_suffix(
                            init[i].name,
                            suffix,
                        ) && forall|j: int|
                            i < j < init.len() ==> !has_suffix((#[trigger] init[j]).name, suffix);
                    assert(entries[i] == init[i]);
                    assert forall|j: int| i < j < entries.len() implies !has_suffix(
                        (#[trigger] entries[j]).name,
                        suffix,
                    ) by {
                        if j < last {
                            assert(entries[j] == init[j]);
                        }
                    }
                },
                None => {
                    assert forall|j: int| 0 <= j < entries.len() implies !has_suffix(
                        (#[trigger] entries[j]).name,
                        suffix,
                    ) by {
                        if j < last {
                            assert(entries[j] == init[j]);
                        }
                    }
                },
            }
        }
    }
}

/// An area is large enough for the overview from four ten-thousandths of a square degree on.
pub proof fn lemma_large_areas(area: F64)
    requires
        area.is_finite_number(),
    ensures
        10000 * area.exact() >= 4 * pow2(1074) + pow2(1030) ==> large(area),
        10000 * area.exact() <= 4 * pow2(1074) - pow2(1030) ==> !large(area),
{
    let least = F64 { bits: OVERVIEW_MIN_AREA_DEG2 };
    lemma2_to64();
    lemma2_to64_rest();
    lemma_encoded(OVERVIEW_MIN_AREA_DEG2, 0x3f3, 0xa_36e2_eb1c_432d);
    lemma_pow2_adds(64, 1010);
    lemma_pow2_adds(20, 1010);
    lemma_pow2_pos(1010);
    let g = pow2(1010);
    assert(least.exact() == 0x1a_36e2_eb1c_432d * g);
    assert(pow2(1074) == 0x1_0000_0000_0000_0000 * g);
    lemma_order_of_values(Format::Double, least.parts(), area.parts());
}

/// The overview is made of the outlines of the large areas, in their order and no others.
pub proof fn lemma_overview_has_large_areas(polygons: Seq<Polygon>, areas: Seq<F64>, n: int, i: int)
    requires
        0 <= i < n <= polygons.len(),
        areas.len() == polygons.len(),
    ensures
        large(areas[i]) ==> large_outlines(polygons, areas, n).contains(polygons[i].exterior@),
        forall|j: int|
            0 <= j < large_outlines(polygons, areas, n).len() ==> exists|k: int|
                0 <= k < n && large(areas[k]) && #[trigger] polygons[k].exterior@
                    == #[trigger] large_outlines(polygons, areas, n)[j],
    decreases n,
{
    let all = large_outlines(polygons, areas, n);
    let rest = large_outlines(polygons, areas, n - 1);
    if n > 1 {
        lemma_overview_has_large_areas(
            polygons,
            areas,
            n - 1,
            if i < n - 1 {
                i
            } else {
                0
            },
        );
    } else {
        assert(rest.len() == 0);
    }
    if large(areas[i]) {
        if i == n - 1 {
            assert(all[rest.len() as int] == polygons[i].exterior@);
        } else {
            let j = choose|j: int| 0 <= j < rest.len() && rest[j] == polygons[i].exterior@;
            assert(all[j] == rest[j]);
        }
    }
    assert forall|j: int| 0 <= j < all.len() implies exists|k: int|
        0 <= k < n && large(areas[k]) && #[trigger] polygons[k].exterior@ == #[trigger] all[j] by {
        if j < rest.len() {
            assert(all[j] == rest[j]);
            let k = choose|k: int|
                0 <= k < n - 1 && large(areas[k]) && #[trigger] polygons[k].exterior@ == rest[j];
            assert(polygons[k].exterior@ == all[j]);
        } else {
            assert(polygons[n - 1].exterior@ == all[j]);
        }
    }
}

} // verus!
