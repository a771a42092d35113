//! Rows and columns come back from the latitudes and longitudes that run through their middle.

use vstd::arithmetic::div_mod::lemma_fundamental_div_mod_converse;
use vstd::arithmetic::power2::{lemma2_to64, lemma2_to64_rest, lemma_pow2_adds, pow2};
use vstd::prelude::*;

use crate::coords::{BBOX_MAX_LAT, BBOX_MAX_LON, BBOX_MIN_LAT, BBOX_MIN_LON};
use crate::float::error::{distance, lemma_exact};
use crate::float::exact::apart;
use crate::float::model::Format;
use crate::float::F64;
use crate::round_trip::steps::{
    grain, holds, lemma_borders, lemma_breadth, lemma_grains, lemma_height, lemma_minus,
    lemma_minus_exact, lemma_over, lemma_plus, lemma_times, lemma_whole_double,
};

use super::raster::{col_of_lon, lat_of_row, row_of_lat};

verus! {

/// The longitude in the middle of a column.
pub open spec fn lon_of_col(col: nat, w: nat) -> F64 {
    let west = F64 { bits: BBOX_MIN_LON };
    let east = F64 { bits: BBOX_MAX_LON };
    west.plus(F64::of_nat(col).over(F64::of_nat((w - 1) as nat)).times(east.minus(west)))
}

/// Numbers near to each other have multiples near to each other.
pub proof fn lemma_multiples(n: nat, a: nat, b: nat, k: nat)
    requires
        distance(a, b) <= k,
    ensures
        distance(n * a, n * b) <= n * k,
{
    let d = distance(a, b);
    assert(n * d <= n * k) by (nonlinear_arith)
        requires
            d <= k,
    ;
    if a < b {
        assert(n * a + n * d == n * b) by (nonlinear_arith)
            requires
                a + d == b,
        ;
    } else {
        assert(n * b + n * d == n * a) by (nonlinear_arith)
            requires
                b + d == a,
        ;
    }
}

/// A number near to a whole one is rounded to it.
proof fn lemma_to_whole(a: F64, m: nat, x: nat)
    requires
        holds(Format::Double, a.parts(), m),
        x <= 8500,
        distance(m, x * pow2(1074)) <= 0x8_0000 * grain(),
    ensures
        a.nearest_whole().trunc(usize::MAX as nat) == x,
{
    lemma2_to64();
    lemma2_to64_rest();
    lemma_grains(53);
    let unit = pow2(1074);
    let g = grain();
    let whole = x * unit;
    assert(x * (2 * unit) == 2 * whole) by (nonlinear_arith)
        requires
            whole == x * unit,
    ;
    lemma_fundamental_div_mod_converse(
        (2 * m + unit) as int,
        (2 * unit) as int,
        x as int,
        2 * m - 2 * whole + unit,
    );
    lemma_exact(Format::Double, x, 1074);
    lemma_fundamental_div_mod_converse(whole as int, unit as int, x as int, 0);
}

/// Which part of the way along a side a place on it is, and what that is off by.
proof fn lemma_part_of_side(x: nat, n: nat) -> (a: nat)
    requires
        x <= n,
        1 <= n <= 8500,
    ensures
        holds(Format::Double, F64::of_nat(x).over(F64::of_nat(n)).parts(), a),
        distance(n * a, x * pow2(1074)) <= n * grain(),
        a <= pow2(1074) + grain(),
{
    lemma2_to64();
    lemma2_to64_rest();
    lemma_whole_double(x);
    lemma_whole_double(n);
    lemma_grains(1);
    lemma_grains(53);
    lemma_grains(54);
    let g = grain();
    let unit = pow2(1074);
    assert(n * unit > 0 && x * unit <= n * unit && n * unit < n * pow2(1075)) by (nonlinear_arith)
        requires
            x <= n,
            n >= 1,
            unit > 0,
            pow2(1075) == 2 * unit,
    ;
    crate::float::laws::lemma_zero(Format::Double);
    let a = lemma_over(
        F64::of_nat(x),
        F64::of_nat(n),
        x * unit,
        n * unit,
        x * unit,
        n,
        unit,
        1022,
    );
    assert(n * (2 * g) == 2 * (n * g)) by (nonlinear_arith);
    assert(a <= unit + g) by (nonlinear_arith)
        requires
            n * a <= x * unit + n * g,
            x * unit <= n * unit,
            n >= 1,
    {
        if a > unit + g {
            assert(n * a > n * (unit + g));
            assert(n * (unit + g) == n * unit + n * g);
        }
    }
    a
}

/// A column comes back from the longitude in its middle, which lies as many parts of the map's two
/// and a half degrees east of the border as the column lies of all columns, up to rounding.
#[verifier::spinoff_prover]
#[verifier::rlimit(40)]
pub proof fn lemma_col_comes_back(col: nat, w: nat)
    requires
        col < w,
        2 <= w <= 8501,
    ensures
        col_of_lon(lon_of_col(col, w), w) == col,
        lon_of_col(col, w).is_finite_number(),
        apart(
            2 * ((w - 1) * (lon_of_col(col, w).exact() - (F64 { bits: BBOX_MIN_LON }).exact())),
            5 * (col * pow2(1074)) as int,
        ) <= 41 * ((w - 1) * grain()),
{
    lemma2_to64();
    lemma2_to64_rest();
    lemma_borders();
    lemma_breadth();
    let n = (w - 1) as nat;
    lemma_whole_double(n);
    lemma_grains(1);
    lemma_grains(2);
    lemma_grains(5);
    lemma_grains(16);
    lemma_grains(52);
    lemma_grains(53);
    lemma_grains(54);
    lemma_grains(55);
    lemma_grains(57);
    lemma_grains(58);
    lemma_pow2_adds(5, 64);
    assert(32nat * 0x1_0000_0000_0000_0000nat == 0x20_0000_0000_0000_0000nat) by (nonlinear_arith);
    lemma_grains(69);
    let g = grain();
    assert(pow2(1090) == 0x20_0000_0000_0000_0000 * g);
    let unit = pow2(1074);
    let half = pow2(1073);
    let west = F64 { bits: BBOX_MIN_LON };
    let span = F64 { bits: BBOX_MAX_LON }.minus(west);
    let side = F64::of_nat(n);
    let lon = lon_of_col(col, w);
    let m = col * unit;

    // There.
    let part = F64::of_nat(col).over(side);
    let a = lemma_part_of_side(col, n);
    assert(a * (5 * half) == (5 * a) * half) by (nonlinear_arith);
    let b = lemma_times(part, span, a, 5 * half, 5 * a, 2, half, 1023);
    let q = lemma_plus(west, part.times(span), 0x230_0000_0000_0000 * g, b, 1026);
    let out = q * pow2(1026);
    assert(out == 32 * (q * g)) by (nonlinear_arith)
        requires
            out == q * (32 * g),
    ;
    assert(q >= 0x11_8000_0000_0000) by (nonlinear_arith)
        requires
            32 * (q * g) + 31 * g >= 0x230_0000_0000_0000 * g,
            g > 0,
    ;
    let c = (q - 0x11_8000_0000_0000) as nat;
    let way = c * pow2(1026);
    assert(way == out - 0x230_0000_0000_0000 * g) by (nonlinear_arith)
        requires
            way == c * (32 * g),
            out == 32 * (q * g),
            c == q - 0x11_8000_0000_0000,
    ;
    assert(c < 0x20_0000_0000_0000) by (nonlinear_arith)
        requires
            c * (32 * g) <= 0x80_0000_0000_0000 * g,
            g > 0,
    ;

    // And back.
    lemma_minus_exact(lon, west, out, 0x230_0000_0000_0000 * g, c, 1026);
    assert(way * unit == (2 * way) * half) by (nonlinear_arith)
        requires
            unit == 2 * half,
    ;
    let d = lemma_over(lon.minus(west), span, way, 5 * half, 2 * way, 5, half, 1022);
    assert(d * (n * unit) == (n * d) * unit) by (nonlinear_arith);
    assert(n * d < 0x20_0000_0000_0000_0000 * g) by (nonlinear_arith)
        requires
            n <= 8500,
            d <= 0x40_0000_0000_0000 * g,
            g > 0,
    {
        assert(n * d <= 8500 * d);
    }
    let e = lemma_times(lon.minus(west).over(span), side, d, n * unit, n * d, 1, unit, 1037);

    // What all of it is off by, in fifths.
    lemma_multiples(n, 5 * d, 2 * way, 5 * g);
    lemma_multiples(n, 2 * way, 2 * b, 32 * g);
    lemma_multiples(n, 2 * b, 5 * a, 4 * g);
    assert(n * (5 * d) == 5 * (n * d)) by (nonlinear_arith);
    assert(n * (5 * a) == 5 * (n * a)) by (nonlinear_arith);
    let ng = n * g;
    assert(n * (5 * g) == 5 * ng && n * (32 * g) == 32 * ng && n * (4 * g) == 4 * ng)
        by (nonlinear_arith)
        requires
            ng == n * g,
    ;
    assert(ng <= 8500 * g) by (nonlinear_arith)
        requires
            ng == n * g,
            n <= 8500,
    ;
    lemma_to_whole(lon.minus(west).over(span).times(side), e, col);
    assert(lon.exact() - west.exact() == way);
    assert(n * (2 * way) == 2 * (n * way)) by (nonlinear_arith);
}

/// How far south of the border a row lies, in parts of its latitude's precision.
proof fn lemma_way_south(row: nat, n: nat) -> (c: nat)
    requires
        row <= n,
        1 <= n <= 8500,
    ensures
        c <= 0x1d_e666_6666_6666,
        holds(
            Format::Double,
            lat_of_row(row, n + 1).parts(),
            (0x1d_e666_6666_6666 - c) as nat * (64 * grain()),
        ),
        distance(n * (c * (64 * grain())), row * pow2(1074)) <= 34 * (n * grain()),
        c * (64 * grain()) <= pow2(1074) + 34 * grain(),
{
    lemma2_to64();
    lemma2_to64_rest();
    lemma_borders();
    lemma_height();
    lemma_grains(1);
    lemma_grains(6);
    lemma_grains(53);
    lemma_grains(54);
    lemma_grains(58);
    lemma_grains(59);
    let g = grain();
    let unit = pow2(1074);
    let north = F64 { bits: BBOX_MAX_LAT };
    let span = north.minus(F64 { bits: BBOX_MIN_LAT });
    let part = F64::of_nat(row).over(F64::of_nat(n));
    let a = lemma_part_of_side(row, n);
    let b = lemma_times(part, span, a, unit, a, 1, unit, 1022);
    let q = lemma_minus(north, part.times(span), 0x779_9999_9999_9980 * g, b, 1027);
    let out = q * pow2(1027);
    assert(out == q * (64 * g));
    assert(out == 64 * (q * g)) by (nonlinear_arith)
        requires
            out == q * (64 * g),
    ;
    assert(q <= 0x1d_e666_6666_6666) by (nonlinear_arith)
        requires
            64 * (q * g) <= 0x779_9999_9999_9980 * g + 63 * g,
            g > 0,
    ;
    let c = (0x1d_e666_6666_6666 - q) as nat;
    let way = c * (64 * g);
    assert(way == 0x779_9999_9999_9980 * g - out) by (nonlinear_arith)
        requires
            way == c * (64 * g),
            out == 64 * (q * g),
            c == 0x1d_e666_6666_6666 - q,
    ;
    lemma_multiples(n, way, b, 32 * g);
    lemma_multiples(n, b, a, g);
    let ng = n * g;
    assert(n * (32 * g) == 32 * ng) by (nonlinear_arith)
        requires
            ng == n * g,
    ;
    c
}

/// The row so far south of the border.
proof fn lemma_row_so_far_south(lat: F64, c: nat, row: nat, n: nat)
    requires
        row <= n,
        1 <= n <= 8500,
        c <= 0x1d_e666_6666_6666,
        holds(
            Format::Double,
            lat.parts(),
            (0x1d_e666_6666_6666 - c) as nat * (64 * grain()),
        ),
        distance(n * (c * (64 * grain())), row * pow2(1074)) <= 34 * (n * grain()),
        c * (64 * grain()) <= pow2(1074) + 34 * grain(),
    ensures
        row_of_lat(lat, n + 1) == row,
{
    lemma2_to64();
    lemma2_to64_rest();
    lemma_borders();
    lemma_height();
    lemma_whole_double(n);
    lemma_grains(1);
    lemma_grains(6);
    lemma_grains(16);
    lemma_grains(53);
    lemma_grains(54);
    lemma_pow2_adds(5, 64);
    assert(32nat * 0x1_0000_0000_0000_0000nat == 0x20_0000_0000_0000_0000nat) by (nonlinear_arith);
    lemma_grains(69);
    let g = grain();
    assert(pow2(1090) == 0x20_0000_0000_0000_0000 * g);
    let unit = pow2(1074);
    let north = F64 { bits: BBOX_MAX_LAT };
    let span = north.minus(F64 { bits: BBOX_MIN_LAT });
    let side = F64::of_nat(n);
    let q = (0x1d_e666_6666_6666 - c) as nat;
    let way = c * pow2(1027);
    assert(way == c * (64 * g));
    assert(0x779_9999_9999_9980 * g == q * (64 * g) + way) by (nonlinear_arith)
        requires
            way == c * (64 * g),
            q == 0x1d_e666_6666_6666 - c,
    ;
    lemma_minus_exact(north, lat, 0x779_9999_9999_9980 * g, q * (64 * g), c, 1027);
    let d = lemma_over(north.minus(lat), span, way, unit, way, 1, unit, 1022);
    assert(d * (n * unit) == (n * d) * unit) by (nonlinear_arith);
    assert(n * d < 0x20_0000_0000_0000_0000 * g) by (nonlinear_arith)
        requires
            n <= 8500,
            d <= 0x40_0000_0000_0000 * g,
            g > 0,
    {
        assert(n * d <= 8500 * d);
    }
    let e = lemma_times(north.minus(lat).over(span), side, d, n * unit, n * d, 1, unit, 1037);
    lemma_multiples(n, d, way, g);
    assert(n * g <= 8500 * g) by (nonlinear_arith)
        requires
            n <= 8500,
    ;
    lemma_to_whole(north.minus(lat).over(span).times(side), e, row);
}

/// A row comes back from its latitude, which lies as many parts of the map's degree south of the
/// border as the row lies of all rows, up to rounding.
pub proof fn lemma_row_of_its_latitude(row: nat, h: nat)
    requires
        row < h,
        2 <= h <= 8501,
    ensures
        row_of_lat(lat_of_row(row, h), h) == row,
        !lat_of_row(row, h).is_nan_number(),
        lat_of_row(row, h).is_finite_number(),
        apart(
            (h - 1) * ((F64 { bits: BBOX_MAX_LAT }).exact() - lat_of_row(row, h).exact()),
            row * pow2(1074) as int,
        ) <= 34 * ((h - 1) * grain()),
{
    let n = (h - 1) as nat;
    let c = lemma_way_south(row, n);
    lemma_row_so_far_south(lat_of_row(row, h), c, row, n);
    lemma_borders();
    let g = grain();
    let q = (0x1d_e666_6666_6666 - c) as nat;
    assert(0x779_9999_9999_9980 * g - q * (64 * g) == c * (64 * g)) by (nonlinear_arith)
        requires
            q == 0x1d_e666_6666_6666 - c,
    ;
}

} // verus!
