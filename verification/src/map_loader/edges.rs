//! Where the edges of an outline cross a latitude, against exact geometry.

use vstd::arithmetic::power2::{
    lemma2_to64, lemma2_to64_rest, lemma_pow2_adds, lemma_pow2_pos, lemma_pow2_strictly_increases,
    pow2,
};
use vstd::prelude::*;

use crate::float::error::lemma_off_by_half;
use crate::float::exact::{
    apart, lemma_product_near, lemma_quotient_near, lemma_sum_near, size,
};
use crate::float::laws::{lemma_order_of_values, lemma_zero};
use crate::float::model::Format;
use crate::float::F64;
use crate::round_trip::steps::{grain, lemma_grains};

use super::polygon::Coord;
use super::raster::{crosses, crossing};

verus! {

/// Whether a point has coordinates of no more than 1024 degrees.
pub open spec fn on_globe(p: Coord) -> bool {
    &&& p.x.is_finite_number() && size(p.x.exact()) <= 1024 * pow2(1074)
    &&& p.y.is_finite_number() && size(p.y.exact()) <= 1024 * pow2(1074)
}

/// How far a crossing may be off, in degrees: two to the power of minus 36.
pub open spec fn tolerance() -> int {
    pow2(1038) as int
}

/// Whether an edge crosses a latitude, in exact numbers.
pub open spec fn spans(a: Coord, b: Coord, lat: int) -> bool {
    a.y.exact() <= lat < b.y.exact() || b.y.exact() <= lat < a.y.exact()
}

/// How far a longitude lies from the line through two points on a latitude, times how far the line
/// runs north: zero on the line.
pub open spec fn off_line(a: Coord, b: Coord, lat: int, lon: int) -> int {
    (lon - a.x.exact()) * (b.y.exact() - a.y.exact()) - (lat - a.y.exact()) * (b.x.exact()
        - a.x.exact())
}

/// Whether an edge crosses a latitude so near to a longitude, in exact numbers.
pub open spec fn edge_near(a: Coord, b: Coord, lat: int, lon: int, off: int) -> bool {
    spans(a, b, lat) && size(off_line(a, b, lat, lon)) <= off * size(b.y.exact() - a.y.exact())
}

pub proof fn lemma_size_of_product(a: int, b: int)
    ensures
        size(a * b) == size(a) * size(b),
{
    assert(a * (-b) == -(a * b) && (-a) * b == -(a * b) && (-a) * (-b) == a * b) by (nonlinear_arith);
    assert(a >= 0 && b >= 0 ==> a * b >= 0) by (nonlinear_arith);
    assert(a <= 0 && b >= 0 ==> a * b <= 0) by (nonlinear_arith);
    assert(a >= 0 && b <= 0 ==> a * b <= 0) by (nonlinear_arith);
    assert(a <= 0 && b <= 0 ==> a * b >= 0) by (nonlinear_arith);
}

/// What the part of the way along an edge is off by.
proof fn lemma_part_off(dd: int, nn: int, d: int, n: int, t: int, unit: int, g: int, p: int)
    requires
        p == 0x20_0000_0000_0000,
        unit == p * g,
        g > 0,
        dd != 0,
        size(nn) <= size(dd),
        p * apart(d, dd) <= size(dd),
        p * apart(n, nn) <= size(nn),
        p * apart(t * d, n * unit) <= size(n) * unit || 2 * apart(t * d, n * unit) <= size(d),
    ensures
        size(t) <= 8 * unit,
        size(t * dd - nn * unit) <= 11 * (g * size(dd)),
{
    let w = size(dd);
    let q = apart(t * d, n * unit);
    let (ed, en) = (apart(d, dd), apart(n, nn));
    assert(size(n) <= 2 * w && size(d) <= 2 * w && 2 * size(d) >= w);
    assert(w <= g * w) by (nonlinear_arith)
        requires
            g >= 1,
            w >= 0,
    ;
    assert(q <= 2 * (g * w)) by (nonlinear_arith)
        requires
            p * q <= size(n) * unit || 2 * q <= size(d),
            size(n) <= 2 * w,
            size(d) <= 2 * w,
            w <= g * w,
            unit == p * g,
            p > 0,
            g > 0,
    {
        if p * q <= size(n) * unit {
            assert(size(n) * unit <= (2 * w) * unit);
            assert((2 * w) * unit == p * (2 * (g * w)));
        }
    }
    lemma_size_of_product(t, d);
    lemma_size_of_product(n, unit);
    assert(size(t) * size(d) <= size(n) * unit + q);
    assert(size(t) <= 8 * unit) by (nonlinear_arith)
        requires
            size(t) * size(d) <= size(n) * unit + q,
            q <= 2 * (g * w),
            size(n) <= 2 * w,
            2 * size(d) >= w,
            w > 0,
            unit == p * g,
            p >= 1,
            g > 0,
            size(t) >= 0,
    {
        assert(g <= unit);
        assert(size(n) * unit <= (2 * w) * unit);
        assert(g * w <= unit * w);
        assert(size(t) * size(d) <= 4 * (w * unit));
        assert(size(t) * w <= size(t) * (2 * size(d)));
        assert(size(t) * w <= 8 * (w * unit));
        if size(t) > 8 * unit {
            assert(size(t) * w > (8 * unit) * w);
        }
    }
    let a = t * (dd - d);
    let b = (n - nn) * unit;
    assert(t * dd - nn * unit == (t * d - n * unit) + a + b) by (nonlinear_arith)
        requires
            a == t * (dd - d),
            b == (n - nn) * unit,
    ;
    lemma_size_of_product(t, dd - d);
    lemma_size_of_product(n - nn, unit);
    assert(size(a) <= 8 * (g * w)) by (nonlinear_arith)
        requires
            size(a) == size(t) * ed,
            size(t) <= 8 * unit,
            p * ed <= w,
            unit == p * g,
            ed >= 0,
            g > 0,
    {
        assert(size(t) * ed <= (8 * unit) * ed);
        assert((8 * unit) * ed == 8 * (g * (p * ed)));
        assert(g * (p * ed) <= g * w);
    }
    assert(size(b) <= g * w) by (nonlinear_arith)
        requires
            size(b) == en * unit,
            p * en <= w,
            unit == p * g,
            g > 0,
    {
        assert(en * unit == g * (p * en));
    }
}

/// What the way along an edge is off by, and where it ends.
proof fn lemma_way_off(
    dd: int,
    nn: int,
    xx: int,
    x: int,
    t: int,
    m: int,
    unit: int,
    g: int,
    p: int,
)
    requires
        p == 0x20_0000_0000_0000,
        unit == p * g,
        g > 0,
        dd != 0,
        size(nn) <= size(dd),
        size(xx) <= 2048 * unit,
        p * apart(x, xx) <= size(xx),
        size(t) <= 8 * unit,
        size(t * dd - nn * unit) <= 11 * (g * size(dd)),
        p * apart(m * unit, t * x) <= size(t) * size(x) || 2 * apart(m * unit, t * x) <= unit,
    ensures
        size(m * dd - nn * xx) <= 71681 * (g * size(dd)),
        size(m) <= 2049 * unit,
{
    let w = size(dd);
    let v = size(xx);
    let q = apart(m * unit, t * x);
    let ex = apart(x, xx);
    assert(size(x) <= 2 * v);
    assert(q <= 16 * (g * v) + unit) by (nonlinear_arith)
        requires
            p * q <= size(t) * size(x) || 2 * q <= unit,
            size(t) <= 8 * unit,
            size(t) >= 0,
            0 <= size(x) <= 2 * v,
            unit == p * g,
            p > 0,
            g > 0,
            v >= 0,
            q >= 0,
    {
        assert(g * v >= 0);
        if p * q <= size(t) * size(x) {
            assert(size(t) * size(x) <= (8 * unit) * (2 * v));
            assert((8 * unit) * (2 * v) == p * (16 * (g * v)));
        }
    }
    let a = t * (x - xx);
    assert(m * unit - t * xx == (m * unit - t * x) + a) by (nonlinear_arith)
        requires
            a == t * (x - xx),
    ;
    lemma_size_of_product(t, x - xx);
    assert(size(a) <= 8 * (g * v)) by (nonlinear_arith)
        requires
            size(a) == size(t) * ex,
            size(t) <= 8 * unit,
            p * ex <= v,
            unit == p * g,
            ex >= 0,
            g > 0,
    {
        assert(size(t) * ex <= (8 * unit) * ex);
        assert((8 * unit) * ex == 8 * (g * (p * ex)));
        assert(g * (p * ex) <= g * v);
    }
    let b = m * unit - t * xx;
    assert(size(b) <= 24 * (g * v) + unit);
    assert(size(b) <= 49153 * (g * unit)) by (nonlinear_arith)
        requires
            size(b) <= 24 * (g * v) + unit,
            v <= 2048 * unit,
            g >= 1,
            unit > 0,
    {
        assert(g * v <= g * (2048 * unit));
        assert(unit <= g * unit);
    }
    let c = t * dd - nn * unit;
    let e = m * dd - nn * xx;
    assert(e * unit == dd * b + xx * c) by (nonlinear_arith)
        requires
            e == m * dd - nn * xx,
            b == m * unit - t * xx,
            c == t * dd - nn * unit,
    ;
    lemma_size_of_product(dd, b);
    lemma_size_of_product(xx, c);
    lemma_size_of_product(e, unit);
    assert(size(e) * unit <= w * size(b) + v * size(c));
    assert(size(e) <= 71681 * (g * w)) by (nonlinear_arith)
        requires
            size(e) * unit <= w * size(b) + v * size(c),
            size(b) <= 49153 * (g * unit),
            size(c) <= 11 * (g * w),
            0 <= v <= 2048 * unit,
            w >= 0,
            g > 0,
            unit > 0,
    {
        assert(w * size(b) <= w * (49153 * (g * unit)));
        assert(v * size(c) <= v * (11 * (g * w)));
        assert(v * (11 * (g * w)) <= (2048 * unit) * (11 * (g * w)));
        let k = g * w;
        assert(w * (49153 * (g * unit)) == 49153 * (k * unit));
        assert((2048 * unit) * (11 * (g * w)) == 22528 * (k * unit));
        if size(e) > 71681 * k {
            assert(size(e) * unit > (71681 * k) * unit);
        }
    }
    lemma_size_of_product(m, dd);
    lemma_size_of_product(nn, xx);
    assert(size(m) * w <= size(nn) * v + size(e));
    assert(size(m) <= 2049 * unit) by (nonlinear_arith)
        requires
            size(m) * w <= size(nn) * v + size(e),
            size(e) <= 71681 * (g * w),
            0 <= size(nn) <= w,
            0 <= v <= 2048 * unit,
            w > 0,
            unit == p * g,
            p == 0x20_0000_0000_0000,
            g > 0,
    {
        assert(size(nn) * v <= w * v);
        assert(w * v <= w * (2048 * unit));
        assert(71681 * g <= unit);
        assert(w * (71681 * g) <= w * unit);
        assert(size(m) * w <= w * (2049 * unit));
        if size(m) > 2049 * unit {
            assert(size(m) * w > (2049 * unit) * w);
        }
    }
}

/// Where a crossing is recorded.
proof fn lemma_place_off(dd: int, nn: int, xx: int, ax: int, m: int, r: int, unit: int, g: int, p: int)
    requires
        p == 0x20_0000_0000_0000,
        unit == p * g,
        g > 0,
        size(m * dd - nn * xx) <= 71681 * (g * size(dd)),
        size(m) <= 2049 * unit,
        size(ax) <= 1024 * unit,
        p * apart(r, ax + m) <= size(ax + m),
    ensures
        size((r - ax) * dd - nn * xx) <= 0x2_0000 * (g * size(dd)),
        size(r) <= 4096 * unit,
{
    let w = size(dd);
    let e = apart(r, ax + m);
    assert(e <= 3073 * g) by (nonlinear_arith)
        requires
            p * e <= 3073 * unit,
            unit == p * g,
            p > 0,
    ;
    let a = (r - ax - m) * dd;
    assert((r - ax) * dd - nn * xx == a + (m * dd - nn * xx)) by (nonlinear_arith)
        requires
            a == (r - ax - m) * dd,
    ;
    lemma_size_of_product(r - ax - m, dd);
    assert(size(a) <= 3073 * (g * w)) by (nonlinear_arith)
        requires
            size(a) == e * w,
            e <= 3073 * g,
            w >= 0,
    ;
    assert(g * w >= 0) by (nonlinear_arith)
        requires
            g > 0,
            w >= 0,
    ;
    assert(3073 * g <= unit);
}

/// A difference of two numbers that are not too large.
pub proof fn lemma_difference(a: F64, b: F64)
    requires
        a.is_finite_number(),
        b.is_finite_number(),
        size(a.exact()) <= 2049 * pow2(1074),
        size(b.exact()) <= 2049 * pow2(1074),
    ensures
        a.minus(b).is_finite_number(),
        0x20_0000_0000_0000 * apart(a.minus(b).exact(), a.exact() - b.exact()) <= size(
            a.exact() - b.exact(),
        ),
        a.plus(b).is_finite_number(),
        0x20_0000_0000_0000 * apart(a.plus(b).exact(), a.exact() + b.exact()) <= size(
            a.exact() + b.exact(),
        ),
{
    lemma2_to64();
    lemma2_to64_rest();
    lemma_pow2_adds(13, 1074);
    lemma_pow2_pos(1074);
    lemma_pow2_strictly_increases(1087, 1653);
    assert(b.negative().exact() == -b.exact());
    lemma_sum_near(Format::Double, a.parts(), b.negative().parts(), 1600);
    lemma_sum_near(Format::Double, a.parts(), b.parts(), 1600);
}

/// The longitude that is recorded where an edge crosses a latitude lies on the edge, up to a small
/// tolerance.
pub proof fn lemma_crossing_lies_on_edge(a: Coord, b: Coord, lat: F64)
    requires
        on_globe(a),
        on_globe(b),
        crosses(a, b, lat),
    ensures
        lat.is_finite_number(),
        spans(a, b, lat.exact()),
        crossing(a, b, lat).is_finite_number(),
        size(crossing(a, b, lat).exact()) <= 4096 * pow2(1074),
        edge_near(a, b, lat.exact(), crossing(a, b, lat).exact(), tolerance()),
{
    let f = Format::Double;
    let unit = pow2(1074);
    let g = grain();
    let p = 0x20_0000_0000_0000int;
    lemma2_to64();
    lemma2_to64_rest();
    lemma_zero(f);
    lemma_pow2_pos(1074);
    lemma_grains(53);
    lemma_grains(17);
    assert(lat.is_finite_number());
    lemma_order_of_values(f, a.y.parts(), lat.parts());
    lemma_order_of_values(f, b.y.parts(), lat.parts());
    lemma_order_of_values(f, lat.parts(), a.y.parts());
    lemma_order_of_values(f, lat.parts(), b.y.parts());
    let (nn, dd, xx) = (
        lat.exact() - a.y.exact(),
        b.y.exact() - a.y.exact(),
        b.x.exact() - a.x.exact(),
    );
    lemma_difference(lat, a.y);
    lemma_difference(b.y, a.y);
    lemma_difference(b.x, a.x);
    let (n, d, x) = (lat.minus(a.y), b.y.minus(a.y), b.x.minus(a.x));
    assert(size(nn) <= size(dd));
    assert(d.exact() != 0);

    // The part of the way.
    let t = n.over(d);
    assert(2 * size(d.exact()) >= size(n.exact()) - size(d.exact()));
    let (mn, md) = (n.parts().magnitude(f), d.parts().magnitude(f));
    assert(mn <= 4 * md);
    lemma_pow2_adds(2, 1074);
    lemma_pow2_strictly_increases(1076, 1653);
    assert(mn * unit < md * pow2(1653)) by (nonlinear_arith)
        requires
            mn <= 4 * md,
            md > 0,
            4 * unit < pow2(1653),
    {
        assert(mn * unit <= (4 * md) * unit);
        assert((4 * md) * unit == md * (4 * unit));
        assert(md * (4 * unit) < md * pow2(1653));
    }
    lemma_off_by_half(f, mn * unit, md, 1600);
    assert(t.is_finite_number());
    lemma_quotient_near(f, n.parts(), d.parts());
    lemma_part_off(dd, nn, d.exact(), n.exact(), t.exact(), unit as int, g as int, p);

    // The way.
    let m = t.times(x);
    let (mt, mx) = (t.parts().magnitude(f), x.parts().magnitude(f));
    assert(size(x.exact()) <= 4096 * unit);
    lemma_pow2_adds(15, 1074);
    lemma_pow2_strictly_increases(1089, 1653);
    assert(mt * mx < unit * pow2(1653)) by (nonlinear_arith)
        requires
            mt <= 8 * unit,
            mx <= 4096 * unit,
            0x8000 * unit < pow2(1653),
            unit > 0,
    {
        assert(mt * mx <= (8 * unit) * (4096 * unit));
        assert((8 * unit) * (4096 * unit) == unit * (0x8000 * unit));
        assert(unit * (0x8000 * unit) < unit * pow2(1653));
    }
    lemma_off_by_half(f, mt * mx, unit, 1600);
    assert(m.is_finite_number());
    lemma_product_near(f, t.parts(), x.parts());
    lemma_way_off(dd, nn, xx, x.exact(), t.exact(), m.exact(), unit as int, g as int, p);

    // The place.
    lemma_difference(a.x, m);
    let r = a.x.plus(m);
    lemma_place_off(dd, nn, xx, a.x.exact(), m.exact(), r.exact(), unit as int, g as int, p);
    assert(0x2_0000 * (g * size(dd)) == tolerance() * size(dd)) by (nonlinear_arith)
        requires
            tolerance() == 0x2_0000 * g,
    ;
}

} // verus!
