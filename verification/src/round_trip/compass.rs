//! Tile-space runs to the east and to the south, also beyond the map.

use vstd::arithmetic::power2::{lemma2_to64, lemma2_to64_rest, lemma_pow2_adds, lemma_pow2_pos, pow2};
use vstd::prelude::*;

use crate::coords::{
    tile_of, BBOX_MAX_LAT, BBOX_MAX_LON, BBOX_MIN_LAT, BBOX_MIN_LON, MAP_TILES_H, MAP_TILES_W,
};
use crate::float::error::lemma_exact;
use crate::float::laws::{
    lemma_magnitude_monotone, lemma_nearest_monotone, lemma_nearest_scaled, lemma_representable,
    lemma_zero,
};
use crate::float::model::{magnitude, nearest, Format};
use crate::float::order::{
    lemma_converted_ordered, lemma_nearest_zero, lemma_negated_ordered, lemma_product_ordered,
    lemma_quotient_ordered, lemma_sum_ordered,
};
use crate::float::{F32, F64};

use super::steps::{
    grain, holds, lemma_borders, lemma_breadth, lemma_encoded, lemma_grains, lemma_height,
    lemma_whole_double, lemma_whole_single,
};

verus! {

/// A part of a side of the map grows with the way.
proof fn lemma_way_ordered(a: F64, b: F64, span: F64, side: F64, s: nat, n: nat)
    requires
        a.at_most(b),
        holds(Format::Double, span.parts(), s),
        holds(Format::Double, side.parts(), n),
        s > 0,
        n > 0,
    ensures
        a.over(span).times(side).to_f32_number().at_most(
            b.over(span).times(side).to_f32_number(),
        ),
{
    let f = Format::Double;
    lemma_zero(f);
    lemma_quotient_ordered(f, a.parts(), b.parts(), span.parts());
    let (c, d) = (a.over(span), b.over(span));
    assert(c.at_most(d));
    lemma_product_ordered(f, c.parts(), d.parts(), side.parts());
    let (c, d) = (c.times(side), d.times(side));
    assert(c.at_most(d));
    lemma_converted_ordered(f, Format::Single, c.parts(), d.parts());
}

/// The numbers that the conversion scales by.
pub proof fn lemma_sides()
    ensures
        ({
            let west = F64 { bits: BBOX_MIN_LON };
            let east = F64 { bits: BBOX_MAX_LON };
            let north = F64 { bits: BBOX_MAX_LAT };
            let south = F64 { bits: BBOX_MIN_LAT };
            &&& holds(Format::Double, east.minus(west).parts(), 5 * pow2(1073))
            &&& holds(Format::Double, north.minus(south).parts(), pow2(1074))
            &&& holds(Format::Double, F64::of_nat(8500).parts(), 8500 * pow2(1074))
            &&& holds(Format::Double, F64::of_nat(5500).parts(), 5500 * pow2(1074))
        }),
        pow2(1073) > 0,
        pow2(1074) == 2 * pow2(1073),
{
    lemma_breadth();
    lemma_height();
    lemma_whole_double(8500);
    lemma_whole_double(5500);
    lemma_pow2_pos(1073);
    lemma2_to64();
    lemma_pow2_adds(1, 1073);
}

/// What lies farther east has no smaller column, wherever it lies on the way from north to south.
pub proof fn lemma_columns_run_east(lat1: F64, lon1: F64, lat2: F64, lon2: F64)
    requires
        lon1.at_most(lon2),
    ensures
        tile_of(lat1, lon1).0.at_most(tile_of(lat2, lon2).0),
{
    lemma_sides();
    lemma_borders();
    let west = F64 { bits: BBOX_MIN_LON };
    let span = F64 { bits: BBOX_MAX_LON }.minus(west);
    lemma_sum_ordered(Format::Double, lon1.parts(), lon2.parts(), west.negative().parts());
    assert(lon1.minus(west).at_most(lon2.minus(west)));
    lemma_way_ordered(
        lon1.minus(west),
        lon2.minus(west),
        span,
        F64::of_nat(8500),
        5 * pow2(1073),
        8500 * pow2(1074),
    );
}

/// What lies farther north has no larger row, wherever it lies on the way from west to east.
pub proof fn lemma_rows_run_south(lat1: F64, lon1: F64, lat2: F64, lon2: F64)
    requires
        lat1.at_most(lat2),
    ensures
        tile_of(lat2, lon2).1.at_most(tile_of(lat1, lon1).1),
{
    lemma_sides();
    lemma_borders();
    let f = Format::Double;
    let north = F64 { bits: BBOX_MAX_LAT };
    let span = north.minus(F64 { bits: BBOX_MIN_LAT });
    lemma_negated_ordered(f, lat1.parts(), lat2.parts());
    let (a, b) = (lat2.negative(), lat1.negative());
    assert(a.at_most(b));
    lemma_sum_ordered(f, a.parts(), b.parts(), north.parts());
    lemma_sum_commutes(a, north);
    lemma_sum_commutes(b, north);
    assert(north.minus(lat2).at_most(north.minus(lat1)));
    lemma_way_ordered(
        north.minus(lat2),
        north.minus(lat1),
        span,
        F64::of_nat(5500),
        pow2(1074),
        5500 * pow2(1074),
    );
}

/// The order of two numbers makes no difference to their sum.
pub proof fn lemma_sum_commutes(a: F64, b: F64)
    requires
        !a.is_nan_number(),
        b.is_finite_number(),
    ensures
        a.plus(b) == b.plus(a),
{
}

/// All the way across the map is the whole side of it.
proof fn lemma_whole_way(span: F64, s: nat, n: nat)
    requires
        holds(Format::Double, span.parts(), s),
        s > 0,
        n < 0x100_0000,
    ensures
        span.over(span).times(F64::of_nat(n)).to_f32_number() == F32::of_nat(n),
{
    lemma2_to64();
    lemma2_to64_rest();
    let f = Format::Double;
    let unit = pow2(1074);
    lemma_zero(f);
    lemma_pow2_pos(1074);
    lemma_exact(f, 1, 1074);
    assert(1 * unit == unit);
    lemma_nearest_scaled(f, unit, 1, s);
    assert(unit * s == s * unit) by (nonlinear_arith);
    assert(1 * s == s);
    assert(holds(f, span.over(span).parts(), unit));
    lemma_whole_double(n);
    lemma_exact(f, n, 1074);
    lemma_nearest_scaled(f, n * unit, 1, unit);
    assert(unit * (n * unit) == (n * unit) * unit) by (nonlinear_arith);
    assert(holds(f, span.over(span).times(F64::of_nat(n)).parts(), n * unit));
    lemma_whole_single(n);
    lemma_nearest_scaled(Format::Single, n * pow2(149), 1, unit);
    assert((n * unit) * pow2(149) == (n * pow2(149)) * unit) by (nonlinear_arith);
}

/// No way at all is no part of a side.
proof fn lemma_no_way(a: F64, span: F64, side: F64, s: nat, n: nat)
    requires
        holds(Format::Double, a.parts(), 0),
        holds(Format::Double, span.parts(), s),
        holds(Format::Double, side.parts(), n),
        s > 0,
    ensures
        a.over(span).times(side).to_f32_number() == (F32 { bits: 0 }),
{
    let f = Format::Double;
    lemma_zero(f);
    lemma_pow2_pos(1074);
    lemma_nearest_zero(f, s);
    lemma_nearest_zero(f, pow2(1074));
    lemma_nearest_zero(Format::Single, pow2(1074));
    assert(0 * pow2(1074) == 0);
    assert(0 * n == 0);
    assert(0 * pow2(149) == 0);
}

/// A way back, however small, is a part of a side on the other hand.
proof fn lemma_way_back(a: F64, span: F64, side: F64, m: nat, s: nat, n: nat)
    requires
        a.parts().neg,
        a.is_finite_number(),
        a.parts().magnitude(Format::Double) == m,
        32 * grain() <= m <= 64 * grain(),
        holds(Format::Double, span.parts(), s),
        pow2(1074) <= s <= 4 * pow2(1074),
        holds(Format::Double, side.parts(), n),
        n >= pow2(1074),
    ensures
        a.over(span).times(side).to_f32_number().below(F32 { bits: 0 }),
{
    lemma2_to64();
    lemma2_to64_rest();
    let f = Format::Double;
    let g = grain();
    let unit = pow2(1074);
    lemma_zero(f);
    lemma_grains(0);
    lemma_pow2_pos(1074);
    lemma_exact(f, 1, 1021);
    lemma_exact(f, 1, 1027);
    lemma_grains(6);
    let low = nearest(f, g, 1);
    let high = nearest(f, 64 * g, 1);
    assert(1 * pow2(1021) == g);
    assert(1 * pow2(1027) == 64 * g);
    assert(magnitude(f, low) == g);

    // The quotient.
    assert(g * s <= m * unit <= (64 * g) * s) by (nonlinear_arith)
        requires
            32 * g <= m <= 64 * g,
            unit <= s <= 4 * unit,
            g > 0,
    {
        assert(g * s <= g * (4 * unit));
        assert((32 * g) * unit <= m * unit);
        assert(g * (4 * unit) <= (32 * g) * unit);
        assert(m * unit <= (64 * g) * unit);
        assert((64 * g) * unit <= (64 * g) * s);
    }
    lemma_nearest_monotone(f, g * s, m * unit, s);
    lemma_nearest_monotone(f, m * unit, (64 * g) * s, s);
    lemma_nearest_scaled(f, g, 1, s);
    lemma_nearest_scaled(f, 64 * g, 1, s);
    assert(1 * s == s);
    let part = a.over(span);
    let q = nearest(f, m * unit, s);
    assert(low <= q <= high);
    assert(part.parts().neg && part.parts().abs == q);
    let d = magnitude(f, q);
    if low < q {
        lemma_magnitude_monotone(f, low, q);
    }
    assert(d >= g);

    // The product.
    assert(g * unit <= d * n) by (nonlinear_arith)
        requires
            g <= d,
            unit <= n,
    ;
    lemma_nearest_monotone(f, g * unit, d * n, unit);
    lemma_nearest_scaled(f, g, 1, unit);
    assert(1 * unit == unit);
    let t = nearest(f, d * n, unit);
    let tiles = part.times(side);
    assert(tiles.parts().neg && tiles.parts().abs == t);
    assert(low <= t);

    // In single precision.
    if t < f.infinity() {
        let e = magnitude(f, t);
        if low < t {
            lemma_magnitude_monotone(f, low, t);
        }
        lemma_pow2_adds(1021, 149);
        lemma_pow2_adds(1074, 96);
        lemma_pow2_pos(96);
        assert(unit <= e * pow2(149)) by (nonlinear_arith)
            requires
                g <= e,
                g * pow2(149) == unit * pow2(96),
                pow2(96) >= 1,
        {
            assert(unit <= unit * pow2(96));
            assert(g * pow2(149) <= e * pow2(149));
        }
        lemma_nearest_monotone(Format::Single, unit, e * pow2(149), unit);
        lemma_nearest_scaled(Format::Single, 1, 1, unit);
        lemma_representable(Format::Single, 1);
    }
}

/// Columns are not brought onto the map: west of it they are negative, east of it they count on.
/// On the map they are neither.
pub proof fn lemma_columns_run_on(lat: F64, lon: F64)
    ensures
        lon.below(F64 { bits: BBOX_MIN_LON }) ==> tile_of(lat, lon).0.below(F32 { bits: 0 }),
        (F64 { bits: BBOX_MIN_LON }).at_most(lon) ==> (F32 { bits: 0 }).at_most(
            tile_of(lat, lon).0,
        ),
        lon.at_most(F64 { bits: BBOX_MAX_LON }) ==> tile_of(lat, lon).0.at_most(
            F32::of_nat(MAP_TILES_W as nat),
        ),
        (F64 { bits: BBOX_MAX_LON }).at_most(lon) ==> F32::of_nat(MAP_TILES_W as nat).at_most(
            tile_of(lat, lon).0,
        ),
{
    lemma2_to64();
    lemma2_to64_rest();
    lemma_sides();
    lemma_borders();
    lemma_grains(5);
    let f = Format::Double;
    let g = grain();
    let west = F64 { bits: BBOX_MIN_LON };
    let east = F64 { bits: BBOX_MAX_LON };
    let span = east.minus(west);
    let width = F64::of_nat(8500);
    if lon.below(west) {
        // The last number before the border.
        let near = F64 { bits: 0x4031_7fff_ffff_ffff };
        lemma_encoded(0x4031_7fff_ffff_ffff, 0x403, 0x1_7fff_ffff_ffff);
        let tick = pow2(1026);
        assert(0x11_7fff_ffff_ffffnat * tick + 32 * g == 0x230_0000_0000_0000 * g) by (nonlinear_arith)
            requires
                tick == 32 * g,
        ;
        lemma_exact(f, 1, 1026);
        assert(1 * tick == tick);
        lemma_way_back(near.minus(west), span, width, 32 * g, 5 * pow2(1073), 8500 * pow2(1074));
        lemma_columns_run_east(lat, lon, lat, near);
    }
    if west.at_most(lon) {
        lemma_no_way(west.minus(west), span, width, 5 * pow2(1073), 8500 * pow2(1074));
        lemma_columns_run_east(lat, west, lat, lon);
    }
    lemma_whole_way(span, 5 * pow2(1073), 8500);
    if lon.at_most(east) {
        lemma_columns_run_east(lat, lon, lat, east);
    }
    if east.at_most(lon) {
        lemma_columns_run_east(lat, east, lat, lon);
    }
}

/// Rows are not brought onto the map: north of it they are negative, south of it they count on. On
/// the map they are neither.
pub proof fn lemma_rows_run_on(lat: F64, lon: F64)
    ensures
        (F64 { bits: BBOX_MAX_LAT }).below(lat) ==> tile_of(lat, lon).1.below(F32 { bits: 0 }),
        lat.at_most(F64 { bits: BBOX_MAX_LAT }) ==> (F32 { bits: 0 }).at_most(
            tile_of(lat, lon).1,
        ),
        (F64 { bits: BBOX_MIN_LAT }).at_most(lat) ==> tile_of(lat, lon).1.at_most(
            F32::of_nat(MAP_TILES_H as nat),
        ),
        lat.at_most(F64 { bits: BBOX_MIN_LAT }) ==> F32::of_nat(MAP_TILES_H as nat).at_most(
            tile_of(lat, lon).1,
        ),
{
    lemma2_to64();
    lemma2_to64_rest();
    lemma_sides();
    lemma_borders();
    lemma_grains(6);
    let f = Format::Double;
    let g = grain();
    let north = F64 { bits: BBOX_MAX_LAT };
    let south = F64 { bits: BBOX_MIN_LAT };
    let span = north.minus(south);
    let height = F64::of_nat(5500);
    if north.below(lat) {
        // The first number beyond the border.
        let near = F64 { bits: 0x404d_e666_6666_6667 };
        lemma_encoded(0x404d_e666_6666_6667, 0x404, 0xd_e666_6666_6667);
        let tock = pow2(1027);
        assert(0x1d_e666_6666_6667nat * tock == 0x779_9999_9999_9980 * g + 64 * g) by (nonlinear_arith)
            requires
                tock == 64 * g,
        ;
        lemma_exact(f, 1, 1027);
        assert(1 * tock == tock);
        lemma_way_back(north.minus(near), span, height, 64 * g, pow2(1074), 5500 * pow2(1074));
        lemma_rows_run_south(near, lon, lat, lon);
    }
    if lat.at_most(north) {
        lemma_no_way(north.minus(north), span, height, pow2(1074), 5500 * pow2(1074));
        lemma_rows_run_south(lat, lon, north, lon);
    }
    lemma_whole_way(span, pow2(1074), 5500);
    if south.at_most(lat) {
        lemma_rows_run_south(south, lon, lat, lon);
    }
    if lat.at_most(south) {
        lemma_rows_run_south(lat, lon, south, lon);
    }
}

} // verus!
