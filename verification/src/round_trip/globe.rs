//! Places on the globe come back from the tiles.

use vstd::arithmetic::power2::{
    lemma2_to64, lemma2_to64_rest, lemma_pow2_adds, lemma_pow2_pos, pow2,
};
use vstd::prelude::*;

use crate::coords::{
    lat_lon_of, tile_of, BBOX_MAX_LAT, BBOX_MAX_LON, BBOX_MIN_LAT, BBOX_MIN_LON,
};
use crate::float::bits::lemma_pow2_le;
use crate::float::error::{distance, lemma_exact, lemma_off_by_half};
use crate::float::laws::{lemma_fields, lemma_nearest_scaled, lemma_order_of_values};
use crate::float::model::{magnitude, nearest, Format};
use crate::float::{F32, F64};

use super::steps::{
    grain, holds, lemma_borders, lemma_breadth, lemma_from_north, lemma_from_west, lemma_grains,
    lemma_height, lemma_minus_exact, lemma_over, lemma_times, lemma_whole_double,
};

verus! {

/// A number between two powers of two is a multiple of the unit in its last place.
proof fn lemma_ticks(a: F64, m: nat, top: nat) -> (digits: nat)
    requires
        holds(Format::Double, a.parts(), m),
        pow2(52 + top) <= m < pow2(53 + top),
    ensures
        m == digits * pow2(top),
        digits < 0x20_0000_0000_0000,
{
    lemma2_to64();
    lemma2_to64_rest();
    let (digits, k) = lemma_fields(Format::Double, a.parts().abs as nat);
    lemma_pow2_pos(k);
    lemma_pow2_adds(53, k);
    lemma_pow2_adds(52, k);
    assert(m < pow2(53 + k)) by (nonlinear_arith)
        requires
            m == digits * pow2(k),
            digits < pow2(53),
            pow2(53 + k) == pow2(53) * pow2(k),
            pow2(k) > 0,
    ;
    if k < top {
        lemma_pow2_le(53 + k, 52 + top);
    }
    if k > top {
        lemma_pow2_le(53 + top, 52 + k);
        assert(m >= pow2(52 + k)) by (nonlinear_arith)
            requires
                m == digits * pow2(k),
                digits >= pow2(52),
                pow2(52 + k) == pow2(52) * pow2(k),
        ;
    }
    digits
}

/// To single precision and back: off by half a unit in the last place of a number below two to
/// the power of fourteen.
proof fn lemma_through_single(a: F64, m: nat) -> (r: nat)
    requires
        holds(Format::Double, a.parts(), m),
        m < 0x4000 * pow2(1074),
    ensures
        holds(Format::Double, a.to_f32_number().to_f64_number().parts(), r),
        distance(r, m) <= 0x400_0000_0000 * grain(),
{
    lemma2_to64();
    lemma2_to64_rest();
    let unit = pow2(1074);
    let p = pow2(149);
    let f = pow2(925);
    lemma_pow2_adds(925, 149);
    lemma_pow2_adds(14, 149);
    lemma_pow2_adds(925, 139);
    lemma_pow2_pos(149);
    lemma_pow2_pos(925);
    lemma_grains(43);
    assert(m * p < unit * pow2(163)) by (nonlinear_arith)
        requires
            m < 0x4000 * unit,
            p > 0,
            pow2(163) == 0x4000 * p,
    ;
    lemma_pow2_pos(1074);
    lemma_off_by_half(Format::Single, m * p, unit, 139);
    let s = magnitude(Format::Single, nearest(Format::Single, m * p, unit));
    let single = a.to_f32_number();
    assert(holds(Format::Single, single.parts(), s));
    let (digits, k) = lemma_fields(Format::Single, single.parts().abs as nat);
    assert(k <= 0xff) by (nonlinear_arith)
        requires
            single.parts().abs < 0x7f80_0000,
            single.parts().abs == k * pow2(23) + digits,
            pow2(23) == 0x80_0000,
    ;
    lemma_pow2_adds(k, 925);
    lemma_exact(Format::Double, digits, k + 925);
    let r = digits * pow2(k + 925);
    assert(r == s * f) by (nonlinear_arith)
        requires
            r == digits * pow2(k + 925),
            pow2(k + 925) == pow2(k) * f,
            s == digits * pow2(k),
    ;
    assert(s * unit == r * p) by (nonlinear_arith)
        requires
            r == s * f,
            unit == f * p,
    ;
    lemma_nearest_scaled(Format::Double, r, 1, p);
    assert(1 * p == p);
    assert(unit * s == s * unit) by (nonlinear_arith);
    let apart = unit * pow2(139);
    assert(apart == pow2(1064) * p) by (nonlinear_arith)
        requires
            apart == unit * pow2(139),
            unit == f * p,
            pow2(1064) == f * pow2(139),
    ;
    assert(2 * distance(r, m) <= pow2(1064)) by (nonlinear_arith)
        requires
            2 * distance(r * p, m * p) <= pow2(1064) * p,
            r * p <= m * p ==> distance(r * p, m * p) == m * p - r * p,
            r * p >= m * p ==> distance(r * p, m * p) == r * p - m * p,
            r <= m ==> distance(r, m) == m - r,
            r >= m ==> distance(r, m) == r - m,
            p > 0,
    {
        let d = distance(r, m);
        if r <= m {
            assert(r * p + d * p == m * p);
        } else {
            assert(m * p + d * p == r * p);
        }
        assert((2 * d) * p <= pow2(1064) * p);
    }
    r
}

/// The column of a longitude on the map, before it is taken to single precision: the exact one
/// is 3400 times the way from the western border.
proof fn lemma_there_east(lon: F64, m: nat) -> (r: nat)
    requires
        holds(Format::Double, lon.parts(), m),
        0x230_0000_0000_0000 * grain() <= m <= 0x280_0000_0000_0000 * grain(),
    ensures
        ({
            let west = F64 { bits: BBOX_MIN_LON };
            let span = F64 { bits: BBOX_MAX_LON }.minus(west);
            holds(
                Format::Double,
                lon.minus(west).over(span).times(F64::of_nat(8500)).parts(),
                r,
            )
        }),
        distance(r + 3400 * (0x230_0000_0000_0000 * grain()), 3400 * m) <= 41300 * grain(),
{
    lemma2_to64();
    lemma2_to64_rest();
    lemma_borders();
    lemma_breadth();
    lemma_whole_double(8500);
    lemma_grains(1);
    lemma_grains(5);
    lemma_grains(16);
    lemma_grains(52);
    lemma_grains(53);
    lemma_grains(54);
    lemma_grains(57);
    lemma_grains(58);
    lemma_pow2_adds(5, 64);
    assert(32nat * 0x1_0000_0000_0000_0000nat == 0x20_0000_0000_0000_0000nat) by (nonlinear_arith);
    lemma_grains(69);
    let g = grain();
    assert(pow2(1090) == 0x20_0000_0000_0000_0000 * g);
    let unit = pow2(1074);
    let half = pow2(1073);
    let west = F64 { bits: BBOX_MIN_LON };
    let span = F64 { bits: BBOX_MAX_LON }.minus(west);
    let width = F64::of_nat(8500);
    let q = lemma_ticks(lon, m, 1026);
    assert(m == 32 * (q * g)) by (nonlinear_arith)
        requires
            m == q * (32 * g),
    ;
    assert(q >= 0x11_8000_0000_0000) by (nonlinear_arith)
        requires
            32 * (q * g) >= 0x230_0000_0000_0000 * g,
            g > 0,
    ;
    let c = (q - 0x11_8000_0000_0000) as nat;
    let way = c * pow2(1026);
    assert(way == m - 0x230_0000_0000_0000 * g) by (nonlinear_arith)
        requires
            way == c * (32 * g),
            m == 32 * (q * g),
            c == q - 0x11_8000_0000_0000,
    ;
    lemma_minus_exact(lon, west, m, 0x230_0000_0000_0000 * g, c, 1026);
    assert(way * unit == (2 * way) * half) by (nonlinear_arith)
        requires
            unit == 2 * half,
    ;
    let d = lemma_over(lon.minus(west), span, way, 5 * half, 2 * way, 5, half, 1022);
    assert(d * (8500 * unit) == (8500 * d) * unit) by (nonlinear_arith);
    let east_of = lon.minus(west).over(span);
    lemma_times(east_of, width, d, 8500 * unit, 8500 * d, 1, unit, 1037)
}

/// A longitude on the map comes back from its column to within a millionth of a degree.
pub proof fn lemma_longitude_comes_back(lat: F64, lon: F64)
    requires
        (F64 { bits: BBOX_MIN_LON }).at_most(lon),
        lon.at_most(F64 { bits: BBOX_MAX_LON }),
    ensures
        ({
            let (x, y) = tile_of(lat, lon);
            let back = lat_lon_of(x, y).1;
            &&& back.is_finite_number()
            &&& -(pow2(1074) as int) <= 1_000_000 * (back.parts().value(Format::Double)
                - lon.parts().value(Format::Double)) <= pow2(1074)
        }),
{
    lemma2_to64();
    lemma2_to64_rest();
    lemma_borders();
    lemma_grains(53);
    let unit = pow2(1074);
    let west = F64 { bits: BBOX_MIN_LON };
    let east = F64 { bits: BBOX_MAX_LON };
    let span = east.minus(west);
    let width = F64::of_nat(8500);
    lemma_order_of_values(Format::Double, west.parts(), lon.parts());
    lemma_order_of_values(Format::Double, lon.parts(), east.parts());
    let m = lon.parts().magnitude(Format::Double);
    assert(holds(Format::Double, lon.parts(), m));
    let e = lemma_there_east(lon, m);
    let column = lon.minus(west).over(span).times(width);
    let x = lemma_through_single(column, e);
    let at = column.to_f32_number().to_f64_number();
    lemma_from_west(at, x);
}

/// The row of a latitude on the map, before it is taken to single precision: the exact one is 5500
/// times the way from the northern border.
proof fn lemma_there_south(lat: F64, m: nat) -> (r: nat)
    requires
        holds(Format::Double, lat.parts(), m),
        0x759_9999_9999_9980 * grain() <= m <= 0x779_9999_9999_9980 * grain(),
    ensures
        ({
            let north = F64 { bits: BBOX_MAX_LAT };
            let span = north.minus(F64 { bits: BBOX_MIN_LAT });
            holds(
                Format::Double,
                north.minus(lat).over(span).times(F64::of_nat(5500)).parts(),
                r,
            )
        }),
        distance(r + 5500 * m, 5500 * (0x779_9999_9999_9980 * grain())) <= 22000 * grain(),
{
    lemma2_to64();
    lemma2_to64_rest();
    lemma_borders();
    lemma_height();
    lemma_whole_double(5500);
    lemma_grains(1);
    lemma_grains(6);
    lemma_grains(15);
    lemma_grains(53);
    lemma_grains(54);
    lemma_grains(58);
    lemma_grains(59);
    lemma_pow2_adds(4, 64);
    assert(16nat * 0x1_0000_0000_0000_0000nat == 0x10_0000_0000_0000_0000nat) by (nonlinear_arith);
    lemma_grains(68);
    let g = grain();
    assert(pow2(1089) == 0x10_0000_0000_0000_0000 * g);
    let unit = pow2(1074);
    let north = F64 { bits: BBOX_MAX_LAT };
    let span = north.minus(F64 { bits: BBOX_MIN_LAT });
    let height = F64::of_nat(5500);
    let q = lemma_ticks(lat, m, 1027);
    assert(m == 64 * (q * g)) by (nonlinear_arith)
        requires
            m == q * (64 * g),
    ;
    assert(q <= 0x1d_e666_6666_6666) by (nonlinear_arith)
        requires
            64 * (q * g) <= 0x779_9999_9999_9980 * g,
            g > 0,
    ;
    let c = (0x1d_e666_6666_6666 - q) as nat;
    let way = c * pow2(1027);
    assert(way == 0x779_9999_9999_9980 * g - m) by (nonlinear_arith)
        requires
            way == c * (64 * g),
            m == 64 * (q * g),
            c == 0x1d_e666_6666_6666 - q,
    ;
    lemma_minus_exact(north, lat, 0x779_9999_9999_9980 * g, m, c, 1027);
    let d = lemma_over(north.minus(lat), span, way, unit, way, 1, unit, 1022);
    assert(d * (5500 * unit) == (5500 * d) * unit) by (nonlinear_arith);
    let south_of = north.minus(lat).over(span);
    lemma_times(south_of, height, d, 5500 * unit, 5500 * d, 1, unit, 1036)
}

/// A latitude on the map comes back from its row to within a millionth of a degree.
pub proof fn lemma_latitude_comes_back(lat: F64, lon: F64)
    requires
        (F64 { bits: BBOX_MIN_LAT }).at_most(lat),
        lat.at_most(F64 { bits: BBOX_MAX_LAT }),
    ensures
        ({
            let (x, y) = tile_of(lat, lon);
            let back = lat_lon_of(x, y).0;
            &&& back.is_finite_number()
            &&& -(pow2(1074) as int) <= 1_000_000 * (back.parts().value(Format::Double)
                - lat.parts().value(Format::Double)) <= pow2(1074)
        }),
{
    lemma2_to64();
    lemma2_to64_rest();
    lemma_borders();
    lemma_grains(53);
    let unit = pow2(1074);
    let north = F64 { bits: BBOX_MAX_LAT };
    let south = F64 { bits: BBOX_MIN_LAT };
    let span = north.minus(south);
    let height = F64::of_nat(5500);
    lemma_order_of_values(Format::Double, south.parts(), lat.parts());
    lemma_order_of_values(Format::Double, lat.parts(), north.parts());
    let m = lat.parts().magnitude(Format::Double);
    assert(holds(Format::Double, lat.parts(), m));
    let e = lemma_there_south(lat, m);
    assert(e <= 5501 * unit);
    let row = north.minus(lat).over(span).times(height);
    let y = lemma_through_single(row, e);
    let at = row.to_f32_number().to_f64_number();
    lemma_from_north(at, y);
}

} // verus!
