//! Tiles and degrees against exact arithmetic: the map is two and a half degrees wide and one
//! degree high.

use vstd::arithmetic::power2::{
    lemma2_to64, lemma2_to64_rest, lemma_pow2_adds, lemma_pow2_pos, lemma_pow2_strictly_increases,
    pow2,
};
use vstd::prelude::*;

use crate::coords::{tile_of, BBOX_MAX_LAT, BBOX_MAX_LON, BBOX_MIN_LAT, BBOX_MIN_LON};
use crate::float::error::lemma_off_by_half;
use crate::float::exact::{
    apart, lemma_converted_near, lemma_doubles_near, lemma_product_near, lemma_quotient_near, size,
};
use crate::float::laws::lemma_zero;
use crate::float::model::Format;
use crate::float::F64;
use crate::map_loader::edges::lemma_size_of_product;

use super::steps::{
    holds, lemma_borders, lemma_breadth, lemma_grains, lemma_height, lemma_whole_double,
};

verus! {

/// What a number of tiles is off by.
proof fn lemma_tiles_off(c0: int, c: int, d: int, e: int, t: int, s: int, n: int, k: int)
    requires
        1 <= s <= 5,
        1 <= n <= 8500,
        k >= 0x100_0000,
        0x20_0000_0000_0000 * apart(c, c0) <= size(c0),
        0x20_0000_0000_0000 * apart(s * d, 2 * c) <= 2 * size(c) + 3 * 0x20_0000_0000_0000,
        0x20_0000_0000_0000 * apart(e, n * d) <= n * size(d),
        0x100_0000 * apart(t * k, e) <= size(e) + 0x100_0000 * k,
    ensures
        0x40_0000 * apart(s * (t * k), 2 * (n * c0)) <= size(2 * (n * c0)) + 0x200_0000 * k,
{
    let p = 0x20_0000_0000_0000int;
    let (x, y, z) = (size(c0), size(c), size(d));
    assert(y <= 2 * x);
    lemma_size_of_product(s, d);
    assert(s * z <= 3 * y + 3);
    assert(z <= s * z) by (nonlinear_arith)
        requires
            s >= 1,
            z >= 0,
    ;
    lemma_size_of_product(n, c0);
    lemma_size_of_product(s, e - n * d);
    lemma_size_of_product(n, s * d - 2 * c);
    lemma_size_of_product(n, c - c0);
    let (e1, e2, e3) = (apart(e, n * d), apart(s * d, 2 * c), apart(c, c0));
    assert(s * e - 2 * (n * c0) == s * (e - n * d) + n * (s * d - 2 * c) + 2 * (n * (c - c0)))
        by (nonlinear_arith);
    let nx = n * x;
    assert(p * (s * e1) <= 18 * nx + 3 * n) by (nonlinear_arith)
        requires
            p * e1 <= n * z,
            s * z <= 3 * y + 3,
            y <= 2 * x,
            nx == n * x,
            s >= 1,
            n >= 1,
            x >= 0,
    {
        assert(s * (p * e1) <= s * (n * z));
        assert(s * (n * z) == n * (s * z));
        assert(n * (s * z) <= n * (6 * x + 3));
        assert(n * (6 * x + 3) == 6 * nx + 3 * n);
        assert(nx >= 0);
    }
    assert(p * (n * e2) <= 4 * nx + 3 * (p * n)) by (nonlinear_arith)
        requires
            p * e2 <= 2 * y + 3 * p,
            y <= 2 * x,
            nx == n * x,
            n >= 1,
    {
        assert(n * (p * e2) <= n * (4 * x + 3 * p));
        assert(n * (4 * x + 3 * p) == 4 * nx + 3 * (p * n));
    }
    assert(p * (n * e3) <= nx) by (nonlinear_arith)
        requires
            p * e3 <= x,
            nx == n * x,
            n >= 1,
    {
        assert(n * (p * e3) <= n * x);
    }
    let off = apart(s * e, 2 * (n * c0));
    assert(off <= s * e1 + n * e2 + 2 * (n * e3));
    assert(p * off <= 24 * nx + 3 * n + 3 * (p * n));
    lemma_size_of_product(s, e);
    lemma_size_of_product(s, t * k - e);
    assert(s * (t * k) - s * e == s * (t * k - e)) by (nonlinear_arith);
    let e4 = apart(t * k, e);
    assert(0x100_0000 * (s * e4) <= s * size(e) + 5 * (0x100_0000 * k)) by (nonlinear_arith)
        requires
            0x100_0000 * e4 <= size(e) + 0x100_0000 * k,
            1 <= s <= 5,
            k >= 0,
    {
        assert(s * (0x100_0000 * e4) <= s * (size(e) + 0x100_0000 * k));
        assert(s * (0x100_0000 * k) <= 5 * (0x100_0000 * k));
    }
    assert(s * size(e) <= 2 * nx + off);
    assert(nx >= 0) by (nonlinear_arith)
        requires
            nx == n * x,
            n >= 1,
            x >= 0,
    ;
    assert(size(2 * (n * c0)) == 2 * nx);
}

/// One coordinate of a place in tiles.
proof fn lemma_tiles_of_way(c: F64, c0: int, span: F64, s: nat, n: nat)
    requires
        c.is_finite_number(),
        0x20_0000_0000_0000 * apart(c.exact(), c0) <= size(c0),
        size(c0) <= 2048 * pow2(1074),
        s == 5 || s == 2,
        1 <= n <= 8500,
        holds(Format::Double, span.parts(), s * pow2(1073)),
    ensures
        ({
            let t = c.over(span).times(F64::of_nat(n)).to_f32_number();
            &&& t.is_finite_number()
            &&& 0x40_0000 * apart(s * (t.exact() * pow2(925)), 2 * (n * c0)) <= size(2 * (n * c0))
                + 0x200_0000 * pow2(925)
        }),
{
    let f = Format::Double;
    let unit = pow2(1074);
    let half = pow2(1073);
    lemma2_to64();
    lemma2_to64_rest();
    lemma_zero(f);
    lemma_pow2_pos(1073);
    lemma_pow2_adds(1, 1073);
    lemma_pow2_adds(24, 901);
    lemma_pow2_pos(901);
    lemma_whole_double(n);
    let d = c.over(span);
    lemma_way_over_span(c, span, s);
    assert(apart(s * d.exact(), 2 * c.exact()) >= 0);
    let side = F64::of_nat(n);
    lemma_way_times_side(d, n);
    let e = d.times(side);
    lemma_converted_near(e);
    lemma_tiles_off(
        c0,
        c.exact(),
        d.exact(),
        e.exact(),
        e.to_f32_number().exact(),
        s as int,
        n as int,
        pow2(925) as int,
    );
}

/// The part of a side that a way is.
proof fn lemma_way_over_span(c: F64, span: F64, s: nat)
    requires
        c.is_finite_number(),
        size(c.exact()) <= 4096 * pow2(1074),
        s == 5 || s == 2,
        holds(Format::Double, span.parts(), s * pow2(1073)),
    ensures
        c.over(span).is_finite_number(),
        size(c.over(span).exact()) <= 8192 * pow2(1074),
        0x20_0000_0000_0000 * apart(s * c.over(span).exact(), 2 * c.exact()) <= 2 * size(c.exact())
            + 3 * 0x20_0000_0000_0000,
{
    let f = Format::Double;
    let unit = pow2(1074) as int;
    let half = pow2(1073) as int;
    lemma2_to64();
    lemma2_to64_rest();
    lemma_zero(f);
    lemma_pow2_pos(1073);
    lemma_pow2_adds(1, 1073);
    let d = c.over(span);
    let (m, sp) = (c.parts().magnitude(f), span.parts().magnitude(f));
    lemma_pow2_adds(13, 1074);
    lemma_pow2_strictly_increases(1087, 1653);
    assert(sp > 0) by (nonlinear_arith)
        requires
            sp == s * half,
            s >= 2,
            half > 0,
    ;
    assert(m * pow2(1074) < sp * pow2(1653)) by (nonlinear_arith)
        requires
            m <= 4096 * pow2(1074),
            sp == s * half,
            s >= 2,
            pow2(1074) == 2 * half,
            8192 * pow2(1074) < pow2(1653),
            half > 0,
    {
        assert(sp >= pow2(1074));
        assert(m * pow2(1074) <= m * sp);
        assert(m < pow2(1653));
        assert(m * sp < pow2(1653) * sp);
    }
    lemma_off_by_half(f, m * pow2(1074), sp, 1600);
    lemma_quotient_near(f, c.parts(), span.parts());
    let (de, ce) = (d.exact(), c.exact());
    let off = apart(de * (s * half), ce * unit);
    let diff = s * de - 2 * ce;
    assert(de * (s * half) - ce * unit == half * diff) by (nonlinear_arith)
        requires
            diff == s * de - 2 * ce,
            unit == 2 * half,
    ;
    lemma_size_of_product(half, diff);
    let z = size(diff);
    assert(0x20_0000_0000_0000 * z <= 2 * size(ce) + 3 * 0x20_0000_0000_0000) by (nonlinear_arith)
        requires
            0x20_0000_0000_0000 * (half * z) <= size(ce) * unit || 2 * (half * z) <= s * half,
            unit == 2 * half,
            half > 0,
            s <= 5,
            z >= 0,
            size(ce) >= 0,
    {
        if 0x20_0000_0000_0000 * (half * z) <= size(ce) * unit {
            assert(half * (0x20_0000_0000_0000 * z) <= half * (2 * size(ce)));
        } else {
            assert(half * (2 * z) <= half * s);
        }
    }
    lemma_size_of_product(s as int, de);
    assert(size(de) <= s * size(de)) by (nonlinear_arith)
        requires
            s >= 1,
            size(de) >= 0,
    ;
    assert(unit >= 3) by {
        lemma_pow2_strictly_increases(2, 1074);
    }
}

/// So many tiles of a side.
proof fn lemma_way_times_side(d: F64, n: nat)
    requires
        d.is_finite_number(),
        size(d.exact()) <= 8192 * pow2(1074),
        1 <= n <= 8500,
    ensures
        ({
            let e = d.times(F64::of_nat(n));
            &&& e.is_finite_number()
            &&& size(e.exact()) <= 0x1000_0000 * pow2(1074)
            &&& 0x20_0000_0000_0000 * apart(e.exact(), n * d.exact()) <= n * size(d.exact())
        }),
{
    let f = Format::Double;
    let unit = pow2(1074) as int;
    lemma2_to64();
    lemma2_to64_rest();
    lemma_zero(f);
    lemma_pow2_pos(1074);
    lemma_whole_double(n);
    let side = F64::of_nat(n);
    let e = d.times(side);
    let m = d.parts().magnitude(f);
    let nu = n * pow2(1074);
    lemma_pow2_adds(27, 1074);
    lemma_pow2_strictly_increases(1101, 1653);
    assert(m * nu < pow2(1074) * pow2(1653)) by (nonlinear_arith)
        requires
            m <= 8192 * pow2(1074),
            n <= 8500,
            nu == n * pow2(1074),
            0x800_0000 * pow2(1074) < pow2(1653),
            pow2(1074) > 0,
    {
        assert(m * n <= (8192 * pow2(1074)) * 8500);
        assert(m * nu == (m * n) * pow2(1074));
        assert((m * n) * pow2(1074) < pow2(1653) * pow2(1074));
    }
    lemma_off_by_half(f, m * nu, pow2(1074), 1600);
    lemma_product_near(f, d.parts(), side.parts());
    let diff = e.exact() - n * d.exact();
    assert(e.exact() * unit - d.exact() * (n * unit) == unit * diff) by (nonlinear_arith)
        requires
            diff == e.exact() - n * d.exact(),
    ;
    lemma_size_of_product(unit, diff);
    let z = size(diff);
    let y = size(d.exact());
    assert(0x20_0000_0000_0000 * z <= n * y) by (nonlinear_arith)
        requires
            0x20_0000_0000_0000 * (unit * z) <= y * (n * unit) || 2 * (unit * z) <= unit,
            unit > 0,
            z >= 0,
            y >= 0,
            n >= 1,
    {
        if 0x20_0000_0000_0000 * (unit * z) <= y * (n * unit) {
            assert(y * (n * unit) == unit * (n * y));
            assert(unit * (0x20_0000_0000_0000 * z) <= unit * (n * y));
        } else {
            if z >= 1 {
                assert(unit * z >= unit);
            }
            assert(n * y >= 0);
        }
    }
    lemma_size_of_product(n as int, d.exact());
    assert(n * y <= 0x800_0000 * unit) by (nonlinear_arith)
        requires
            y <= 8192 * unit,
            n <= 8500,
            y >= 0,
    {
        assert(n * y <= 8500 * (8192 * unit));
    }
}

/// Degrees in tiles: 3400 columns to a degree of longitude from the western border, and 5500 rows to
/// a degree of latitude from the northern one, up to the precision of a single precision number.
pub proof fn lemma_degrees_in_tiles(lat: F64, lon: F64)
    requires
        lat.is_finite_number(),
        lon.is_finite_number(),
        size(lat.exact()) <= 1024 * pow2(1074),
        size(lon.exact()) <= 1024 * pow2(1074),
    ensures
        ({
            let (x, y) = tile_of(lat, lon);
            let east = lon.exact() - (F64 { bits: BBOX_MIN_LON }).exact();
            let south = (F64 { bits: BBOX_MAX_LAT }).exact() - lat.exact();
            let near = 0x200_0000 * pow2(925);
            &&& x.is_finite_number()
            &&& y.is_finite_number()
            &&& 0x40_0000 * apart(5 * (x.exact() * pow2(925)), 17000 * east) <= size(17000 * east)
                + near
            &&& 0x40_0000 * apart(2 * (y.exact() * pow2(925)), 11000 * south) <= size(
                11000 * south,
            ) + near
        }),
{
    let west = F64 { bits: BBOX_MIN_LON };
    let north = F64 { bits: BBOX_MAX_LAT };
    lemma2_to64();
    lemma2_to64_rest();
    lemma_borders();
    lemma_breadth();
    lemma_height();
    lemma_grains(53);
    lemma_pow2_adds(11, 1074);
    lemma_pow2_adds(1, 1073);
    lemma_pow2_pos(1074);
    lemma_pow2_strictly_increases(1085, 1600);
    lemma_doubles_near(lon, west);
    lemma_doubles_near(north, lat);
    let east = lon.exact() - west.exact();
    let south = north.exact() - lat.exact();
    lemma_tiles_of_way(lon.minus(west), east, (F64 { bits: BBOX_MAX_LON }).minus(west), 5, 8500);
    lemma_tiles_of_way(north.minus(lat), south, north.minus(F64 { bits: BBOX_MIN_LAT }), 2, 5500);
}

} // verus!
