//! Tiles come back from the globe.

use vstd::arithmetic::power2::{lemma2_to64, lemma2_to64_rest, lemma_pow2_adds, pow2};
use vstd::prelude::*;

use crate::coords::{
    lat_lon_of, tile_of, BBOX_MAX_LAT, BBOX_MAX_LON, BBOX_MIN_LAT, BBOX_MIN_LON, MAP_TILES_H,
    MAP_TILES_W,
};
use crate::float::error::distance;
use crate::float::model::Format;
use crate::float::{F32, F64};

use super::steps::{
    grain, lemma_back, lemma_borders, lemma_breadth, lemma_from_north, lemma_from_west,
    lemma_grains, lemma_height, lemma_minus_exact, lemma_over, lemma_times, lemma_whole_double,
    lemma_whole_single,
};

verus! {

/// A column of the map comes back from its longitude.
pub proof fn lemma_column_comes_back(x: nat, y: nat)
    requires
        x <= MAP_TILES_W,
    ensures
        ({
            let (lat, lon) = lat_lon_of(F32::of_nat(x), F32::of_nat(y));
            tile_of(lat, lon).0.nearest_whole().trunc(u32::MAX as nat) == x
        }),
{
    lemma2_to64();
    lemma2_to64_rest();
    lemma_borders();
    lemma_breadth();
    lemma_whole_double(8500);
    lemma_whole_single(x);
    assert(x * pow2(1074) <= 8500 * pow2(1074)) by (nonlinear_arith)
        requires
            x <= 8500,
    ;
    let q = lemma_from_west(F32::of_nat(x).to_f64_number(), x * pow2(1074));
    lemma_grains(1);
    lemma_grains(5);
    lemma_grains(16);
    lemma_grains(52);
    lemma_grains(53);
    lemma_grains(54);
    lemma_pow2_adds(5, 64);
    assert(32nat * 0x1_0000_0000_0000_0000nat == 0x20_0000_0000_0000_0000nat) by (nonlinear_arith);
    lemma_grains(69);
    let g = grain();
    assert(pow2(1090) == 0x20_0000_0000_0000_0000 * g);
    let unit = pow2(1074);
    let half = pow2(1073);
    let west = F64 { bits: BBOX_MIN_LON };
    let span = F64 { bits: BBOX_MAX_LON }.minus(west);
    let width = F64::of_nat(8500);
    let lon = lat_lon_of(F32::of_nat(x), F32::of_nat(y)).1;
    let out = q * pow2(1026);
    assert(out == 32 * (q * g)) by (nonlinear_arith)
        requires
            out == q * (32 * g),
    ;
    assert(q >= 0x11_8000_0000_0000) by (nonlinear_arith)
        requires
            32 * (q * g) + 31 * g >= 0x230_0000_0000_0000 * g,
            g > 0,
    ;
    let c = (q - 0x11_8000_0000_0000) as nat;
    let way = c * pow2(1026);
    assert(way == out - 0x230_0000_0000_0000 * g) by (nonlinear_arith)
        requires
            way == c * (32 * g),
            out == 32 * (q * g),
            c == q - 0x11_8000_0000_0000,
    ;
    assert(c < 0x20_0000_0000_0000) by (nonlinear_arith)
        requires
            c * (32 * g) <= 0x80_0000_0000_0000 * g,
            g > 0,
    ;
    lemma_minus_exact(lon, west, out, 0x230_0000_0000_0000 * g, c, 1026);
    assert(way * unit == (2 * way) * half) by (nonlinear_arith)
        requires
            unit == 2 * half,
    ;
    let d = lemma_over(lon.minus(west), span, way, 5 * half, 2 * way, 5, half, 1022);
    assert(d * (8500 * unit) == (8500 * d) * unit) by (nonlinear_arith);
    let east_of = lon.minus(west).over(span);
    let e = lemma_times(east_of, width, d, 8500 * unit, 8500 * d, 1, unit, 1037);
    lemma_back(east_of.times(width), e, x);
}

/// A row of the map comes back from its latitude.
pub proof fn lemma_row_comes_back(x: nat, y: nat)
    requires
        y <= MAP_TILES_H,
    ensures
        ({
            let (lat, lon) = lat_lon_of(F32::of_nat(x), F32::of_nat(y));
            tile_of(lat, lon).1.nearest_whole().trunc(u32::MAX as nat) == y
        }),
{
    lemma2_to64();
    lemma2_to64_rest();
    lemma_borders();
    lemma_height();
    lemma_whole_double(5500);
    lemma_whole_single(y);
    assert(y * pow2(1074) <= 5500 * pow2(1074)) by (nonlinear_arith)
        requires
            y <= 5500,
    ;
    let q = lemma_from_north(F32::of_nat(y).to_f64_number(), y * pow2(1074));
    lemma_grains(1);
    lemma_grains(6);
    lemma_grains(15);
    lemma_grains(53);
    lemma_grains(54);
    lemma_pow2_adds(4, 64);
    assert(16nat * 0x1_0000_0000_0000_0000nat == 0x10_0000_0000_0000_0000nat) by (nonlinear_arith);
    lemma_grains(68);
    let g = grain();
    assert(pow2(1089) == 0x10_0000_0000_0000_0000 * g);
    let unit = pow2(1074);
    let north = F64 { bits: BBOX_MAX_LAT };
    let span = north.minus(F64 { bits: BBOX_MIN_LAT });
    let height = F64::of_nat(5500);
    let lat = lat_lon_of(F32::of_nat(x), F32::of_nat(y)).0;
    let out = q * pow2(1027);
    assert(out == 64 * (q * g)) by (nonlinear_arith)
        requires
            out == q * (64 * g),
    ;
    assert(q <= 0x1d_e666_6666_6666) by (nonlinear_arith)
        requires
            64 * (q * g) <= 0x779_9999_9999_9980 * g + 63 * g,
            g > 0,
    ;
    let c = (0x1d_e666_6666_6666 - q) as nat;
    let way = c * pow2(1027);
    assert(way == 0x779_9999_9999_9980 * g - out) by (nonlinear_arith)
        requires
            way == c * (64 * g),
            out == 64 * (q * g),
            c == 0x1d_e666_6666_6666 - q,
    ;
    assert(c < 0x20_0000_0000_0000) by (nonlinear_arith)
        requires
            c * (64 * g) <= 0x80_0000_0000_0000 * g,
            g > 0,
    ;
    lemma_minus_exact(north, lat, 0x779_9999_9999_9980 * g, out, c, 1027);
    let south_of = north.minus(lat).over(span);
    let d = lemma_over(north.minus(lat), span, way, unit, way, 1, unit, 1022);
    assert(d * (5500 * unit) == (5500 * d) * unit) by (nonlinear_arith);
    let e = lemma_times(south_of, height, d, 5500 * unit, 5500 * d, 1, unit, 1036);
    lemma_back(south_of.times(height), e, y);
}

} // verus!
