//! The hints at boats elsewhere stand on the border, in the direction of the boat.

use vstd::arithmetic::power2::{
    lemma2_to64, lemma2_to64_rest, lemma_pow2_adds, lemma_pow2_pos, lemma_pow2_strictly_increases,
    pow2,
};
use vstd::prelude::*;

use crate::float::error::lemma_off_by_half;
use crate::float::exact::{
    apart, lemma_doubles_near, lemma_product_near, lemma_quotient_near, size,
};
use crate::float::laws::{
    lemma_nearest_monotone, lemma_nearest_scaled, lemma_order_of_values, lemma_representable,
    lemma_zero,
};
use crate::float::model::{magnitude, Format};
use crate::float::F64;
use crate::map_loader::edges::lemma_size_of_product;
use crate::round_trip::steps::{grain, holds, lemma_encoded, lemma_grains, lemma_minus_exact};

use super::picture::{lemma_canvas, lemma_center};
use super::render::{CANVAS_H, CANVAS_W, F64_MAX, F64_TWO};
use super::scene::{hint_marks, reach, within};

verus! {

/// Whether a number is at least two, and may be infinite.
spec fn two_or_more(r: F64) -> bool {
    !r.is_nan_number() && !r.parts().neg && r.parts().abs >= F64_TWO
}

/// Whether a number is how often a leg fits into half of a side, up to rounding.
spec fn fits_so_often(r: F64, leg: int, half: int) -> bool {
    let unit = pow2(1074) as int;
    &&& r.is_finite_number()
    &&& r.exact() >= 0
    &&& apart(r.exact() * size(leg), (half * unit) * unit) <= 2 * (half * (unit * grain()))
}

/// How often a leg fits.
proof fn lemma_reach(leg: F64, side: F64, half: nat)
    requires
        leg.is_finite_number(),
        size(leg.exact()) <= pow2(1302),
        half == 25 || half == 100,
        holds(Format::Double, side.parts(), (2 * half) * pow2(1074)),
        holds(Format::Double, side.over(F64 { bits: F64_TWO }).parts(), half * pow2(1074)),
    ensures
        2 * size(leg.exact()) <= half * pow2(1074) ==> two_or_more(reach(leg, side)),
        2 * size(leg.exact()) > half * pow2(1074) ==> fits_so_often(
            reach(leg, side),
            leg.exact(),
            half as int,
        ),
{
    let f = Format::Double;
    let unit = pow2(1074);
    let g = grain();
    let zero = F64 { bits: 0 };
    let center = side.over(F64 { bits: F64_TWO });
    lemma2_to64();
    lemma2_to64_rest();
    lemma_zero(f);
    lemma_pow2_pos(1074);
    lemma_grains(53);
    lemma_order_of_values(f, zero.parts(), leg.parts());
    lemma_order_of_values(f, leg.parts(), zero.parts());
    assert((2 * half) * unit == half * unit + half * unit) by (nonlinear_arith);
    lemma_minus_exact(side, center, (2 * half) * unit, half * unit, half, 1074);
    lemma_wide();
    let l = leg.parts().magnitude(f);
    let h = half * unit;
    let r = reach(leg, side);
    if leg.exact() == 0 {
        assert(r == (F64 { bits: F64_MAX }));
    } else {
        let top = if leg.exact() > 0 {
            side.minus(center)
        } else {
            center.negative()
        };
        assert(r == top.over(leg));
        assert(top.parts().magnitude(f) == h && top.parts().neg == leg.parts().neg);
        assert(r.parts() == crate::float::model::rounded(f, false, h * unit, l));
        if 2 * l <= h {
            lemma_encoded(F64_TWO, 0x400, 0);
            lemma_pow2_adds(52, 1023);
            lemma_pow2_adds(1, 1074);
            assert(magnitude(f, F64_TWO as nat) == 2 * unit);
            lemma_representable(f, F64_TWO as nat);
            lemma_nearest_scaled(f, 2 * unit, 1, l);
            assert((2 * unit) * l <= h * unit) by (nonlinear_arith)
                requires
                    2 * l <= h,
            ;
            assert(1 * l == l);
            lemma_nearest_monotone(f, (2 * unit) * l, h * unit, l);
        } else {
            assert(h * unit < l * pow2(1653)) by (nonlinear_arith)
                requires
                    2 * l > h,
                    2 * unit < pow2(1653),
                    h >= 0,
                    unit > 0,
            {
                assert(h * unit <= (2 * l) * unit);
                assert((2 * l) * unit == l * (2 * unit));
                assert(l * (2 * unit) < l * pow2(1653));
            }
            lemma_off_by_half(f, h * unit, l, 1600);
            lemma_quotient_near(f, top.parts(), leg.parts());
            lemma_reach_off(r.exact(), leg.exact(), top.exact(), h as int, half as int, unit as int, g as int);
        }
    }
}

proof fn lemma_wide()
    ensures
        2 * pow2(1074) < pow2(1653),
        pow2(1302) <= 25 * (pow2(1074) * grain()),
{
    lemma2_to64();
    lemma2_to64_rest();
    lemma_pow2_adds(1, 1074);
    lemma_pow2_strictly_increases(1075, 1653);
    lemma_pow2_adds(1074, 1021);
    lemma_pow2_strictly_increases(1302, 2095);
}

proof fn lemma_reach_off(r: int, leg: int, top: int, h: int, half: int, unit: int, g: int)
    requires
        h == half * unit,
        half >= 25,
        unit == 0x20_0000_0000_0000 * g,
        g > 0,
        r >= 0,
        leg > 0 && top == h || leg < 0 && top == -h,
        size(leg) <= 25 * (unit * g),
        0x20_0000_0000_0000 * apart(r * leg, top * unit) <= size(top) * unit || 2 * apart(
            r * leg,
            top * unit,
        ) <= size(leg),
    ensures
        apart(r * size(leg), h * unit) <= 2 * (half * (unit * g)),
{
    let l = size(leg);
    assert(r * (-leg) == -(r * leg) && (-h) * unit == -(h * unit)) by (nonlinear_arith);
    let off = apart(r * l, h * unit);
    assert(off == apart(r * leg, top * unit));
    let k = unit * g;
    assert(h * unit == 0x20_0000_0000_0000 * (half * k)) by (nonlinear_arith)
        requires
            h == half * unit,
            unit == 0x20_0000_0000_0000 * g,
            k == unit * g,
    ;
    assert(half * k >= 25 * k) by (nonlinear_arith)
        requires
            half >= 25,
            k >= 0,
    ;
}

/// One coordinate of a hint: so often the leg from the middle, up to rounding.
proof fn lemma_coordinate(d: F64, t: F64, center: F64, side: F64, half: nat)
    requires
        d.is_finite_number(),
        t.is_finite_number(),
        t.exact() >= 0,
        half == 25 || half == 100,
        holds(Format::Double, side.parts(), (2 * half) * pow2(1074)),
        holds(Format::Double, center.parts(), half * pow2(1074)),
        t.exact() * size(d.exact()) <= (half * pow2(1074)) * pow2(1074) + 2 * (half * (pow2(1074)
            * grain())),
    ensures
        ({
            let unit = pow2(1074) as int;
            let h = center.plus(t.times(d)).clamped(F64 { bits: 0 }, side);
            &&& h.is_finite_number()
            &&& 0 <= h.exact() <= 2 * half * unit
            &&& apart(unit * (h.exact() - half * unit), t.exact() * d.exact()) <= 2000 * (unit
                * grain())
        }),
{
    let f = Format::Double;
    let unit = pow2(1074);
    let g = grain();
    lemma2_to64();
    lemma2_to64_rest();
    lemma_zero(f);
    lemma_pow2_pos(1074);
    lemma_grains(53);
    let (te, de) = (t.exact(), d.exact());
    let m = t.times(d);
    lemma_product_fits(t, d, half);
    lemma_product_near(f, t.parts(), d.parts());
    lemma_way_to_border(te, de, m.exact(), half as int, unit as int, g as int);
    let hu = half * unit;
    assert(hu <= 100 * unit) by (nonlinear_arith)
        requires
            half <= 100,
            hu == half * unit,
    ;
    lemma_pow2_adds(8, 1074);
    lemma_pow2_strictly_increases(1082, 1600);
    lemma_doubles_near(center, m);
    let s = center.plus(m);
    let zero = F64 { bits: 0 };
    lemma_order_of_values(f, s.parts(), zero.parts());
    lemma_order_of_values(f, side.parts(), s.parts());
    let h = s.clamped(zero, side);
    let twice = (2 * half) * unit;
    assert(twice == hu + hu) by (nonlinear_arith)
        requires
            twice == (2 * half) * unit,
            hu == half * unit,
    ;
    assert(apart(h.exact() - hu, m.exact()) <= 1202 * g);
    lemma_off_border(te * de, h.exact() - hu, m.exact(), unit as int, g as int);
}

/// The product that leads to the border is finite.
proof fn lemma_product_fits(t: F64, d: F64, half: nat)
    requires
        d.is_finite_number(),
        t.is_finite_number(),
        t.exact() >= 0,
        half <= 100,
        t.exact() * size(d.exact()) <= (half * pow2(1074)) * pow2(1074) + 2 * (half * (pow2(1074)
            * grain())),
    ensures
        t.times(d).is_finite_number(),
{
    let f = Format::Double;
    let unit = pow2(1074);
    let g = grain();
    lemma2_to64();
    lemma2_to64_rest();
    lemma_zero(f);
    lemma_pow2_pos(1074);
    lemma_grains(53);
    let (mt, md) = (t.parts().magnitude(f), d.parts().magnitude(f));
    lemma_pow2_adds(9, 1074);
    lemma_pow2_strictly_increases(1083, 1653);
    assert(mt * md < unit * pow2(1653)) by (nonlinear_arith)
        requires
            mt * md <= (half * unit) * unit + 2 * (half * (unit * g)),
            half <= 100,
            0 < g <= unit,
            512 * unit < pow2(1653),
    {
        assert((half * unit) * unit <= (100 * unit) * unit);
        assert(half * (unit * g) <= 100 * (unit * g));
        assert(unit * g <= unit * unit);
        assert(mt * md <= 300 * (unit * unit));
        assert(300 * (unit * unit) < unit * (512 * unit));
        assert(unit * (512 * unit) < unit * pow2(1653));
    }
    lemma_off_by_half(f, mt * md, unit, 1600);
}

/// The way to the border, and what it is off by.
proof fn lemma_way_to_border(te: int, de: int, m: int, half: int, unit: int, g: int)
    requires
        unit == 0x20_0000_0000_0000 * g,
        g > 0,
        0 <= half <= 100,
        te >= 0,
        te * size(de) <= (half * unit) * unit + 2 * (half * (unit * g)),
        0x20_0000_0000_0000 * apart(m * unit, te * de) <= size(te) * size(de) || 2 * apart(
            m * unit,
            te * de,
        ) <= unit,
    ensures
        apart(m * unit, te * de) <= 300 * (unit * g),
        size(m) <= half * unit + 600 * g,
{
    let k = unit * g;
    let off = apart(m * unit, te * de);
    let way = te * size(de);
    assert((half * unit) * unit == 0x20_0000_0000_0000 * (half * k)) by (nonlinear_arith)
        requires
            unit == 0x20_0000_0000_0000 * g,
            k == unit * g,
    ;
    assert(half * k <= 100 * k) by (nonlinear_arith)
        requires
            half <= 100,
            k >= 0,
    ;
    assert(k >= unit) by (nonlinear_arith)
        requires
            k == unit * g,
            unit >= 0,
            g >= 1,
    ;
    assert(off <= 300 * k);
    lemma_size_of_product(te, de);
    lemma_size_of_product(m, unit);
    let sm = size(m);
    assert(sm * unit <= (half * unit) * unit + 600 * k);
    assert(sm <= half * unit + 600 * g) by (nonlinear_arith)
        requires
            sm * unit <= (half * unit) * unit + 600 * k,
            k == unit * g,
            unit > 0,
    {
        let top = half * unit + 600 * g;
        assert(top * unit == (half * unit) * unit + 600 * (unit * g));
        if sm > top {
            assert(sm * unit > top * unit);
        }
    }
}

/// What the place on the border is off by.
proof fn lemma_off_border(way: int, h: int, m: int, unit: int, g: int)
    requires
        unit > 0,
        g > 0,
        apart(h, m) <= 1202 * g,
        apart(m * unit, way) <= 300 * (unit * g),
    ensures
        apart(unit * h, way) <= 2000 * (unit * g),
{
    let e = h - m;
    assert(unit * h - way == unit * e + (m * unit - way)) by (nonlinear_arith)
        requires
            e == h - m,
    ;
    lemma_size_of_product(unit, e);
    assert(unit * size(e) <= 1202 * (unit * g)) by (nonlinear_arith)
        requires
            size(e) <= 1202 * g,
            unit > 0,
    ;
    assert(unit * g >= 0) by (nonlinear_arith)
        requires
            unit > 0,
            g > 0,
    ;
}

/// How little a hint may be off, in parts of a column of which there are two to the power of 1074.
pub open spec fn hint_tolerance() -> int {
    pow2(1033) as int
}

/// A leg that is longer than half of a side fits less often than twice.
proof fn lemma_long_leg(r: F64, leg: int, exact: int, half: int)
    requires
        fits_so_often(r, leg, half),
        half == 25 || half == 100,
        size(exact) > half * pow2(1074),
        0x20_0000_0000_0000 * apart(leg, exact) <= size(exact),
    ensures
        r.exact() < 2 * pow2(1074),
{
    lemma2_to64();
    lemma2_to64_rest();
    lemma_grains(53);
    lemma_pow2_pos(1074);
    let unit = pow2(1074) as int;
    let g = grain() as int;
    let h = half * unit;
    let l = size(leg);
    assert(10 * l >= 9 * h);
    assert(r.exact() < 2 * unit) by (nonlinear_arith)
        requires
            r.exact() * l <= h * unit + 2 * (half * (unit * g)),
            10 * l >= 9 * h,
            h == half * unit,
            unit == 0x20_0000_0000_0000 * g,
            g > 0,
            half >= 25,
            r.exact() >= 0,
    {
        assert(half * (unit * g) == h * g);
        assert(20 * g <= unit);
        assert(h * (20 * g) <= h * unit);
        assert(10 * (r.exact() * l) <= 11 * (h * unit));
        if r.exact() >= 2 * unit {
            assert(r.exact() * (10 * l) >= (2 * unit) * (9 * h));
            assert((2 * unit) * (9 * h) == 18 * (h * unit));
            assert(h * unit > 0);
        }
    }
}

/// The factor for a hint: how often the leg fits that fits less often.
proof fn lemma_factor(rx: F64, ry: F64, x_fits: bool, y_fits: bool)
    requires
        x_fits ==> rx.is_finite_number() && rx.exact() >= 0,
        y_fits ==> ry.is_finite_number() && ry.exact() >= 0,
        !x_fits ==> two_or_more(rx),
        !y_fits ==> two_or_more(ry),
        x_fits && rx.exact() < 2 * pow2(1074) || y_fits && ry.exact() < 2 * pow2(1074),
    ensures
        ({
            let t = (F64 { bits: F64_MAX }).smaller(rx).smaller(ry);
            &&& t.is_finite_number()
            &&& 0 <= t.exact() < 2 * pow2(1074)
            &&& x_fits ==> t.exact() <= rx.exact()
            &&& y_fits ==> t.exact() <= ry.exact()
            &&& x_fits && t.exact() == rx.exact() || y_fits && t.exact() == ry.exact()
        }),
{
    let f = Format::Double;
    let max = F64 { bits: F64_MAX };
    let two = F64 { bits: F64_TWO };
    let unit = pow2(1074);
    lemma2_to64();
    lemma2_to64_rest();
    lemma_zero(f);
    lemma_encoded(F64_TWO, 0x400, 0);
    lemma_pow2_adds(52, 1023);
    lemma_pow2_adds(1, 1074);
    assert(two.exact() == 2 * unit);
    let v = max.smaller(rx);
    if x_fits {
        lemma_order_of_values(f, rx.parts(), max.parts());
        lemma_order_of_values(f, rx.parts(), two.parts());
        assert(rx.at_most(max));
        assert(v.exact() == rx.exact());
        lemma_order_of_values(f, v.parts(), two.parts());
        if y_fits {
            lemma_order_of_values(f, ry.parts(), v.parts());
        }
    }
    if y_fits {
        lemma_order_of_values(f, ry.parts(), two.parts());
    }
}

/// So much of a leg as the factor takes stays within half of the side.
proof fn lemma_stays_within(t: F64, r: F64, leg: int, half: int, fits: bool)
    requires
        half == 25 || half == 100,
        0 <= t.exact() < 2 * pow2(1074),
        fits ==> fits_so_often(r, leg, half) && t.exact() <= r.exact(),
        !fits ==> 2 * size(leg) <= half * pow2(1074),
    ensures
        t.exact() * size(leg) <= (half * pow2(1074)) * pow2(1074) + 2 * (half * (pow2(1074)
            * grain())),
{
    let unit = pow2(1074) as int;
    let g = grain() as int;
    lemma_grains(53);
    let (te, l) = (t.exact(), size(leg));
    if fits {
        assert(te * l <= r.exact() * l) by (nonlinear_arith)
            requires
                te <= r.exact(),
                l >= 0,
        ;
    } else {
        assert(te * l <= (half * unit) * unit + 2 * (half * (unit * g))) by (nonlinear_arith)
            requires
                0 <= te <= 2 * unit,
                2 * l <= half * unit,
                l >= 0,
                half >= 0,
                unit >= 0,
                g >= 0,
        {
            assert(te * l <= (2 * unit) * l);
            assert((2 * unit) * l == unit * (2 * l));
            assert(unit * (2 * l) <= unit * (half * unit));
            assert(half * (unit * g) >= 0);
        }
    }
}

/// A coordinate of a hint, against the exact leg.
proof fn lemma_against_exact_leg(t: int, leg: int, exact: int, h: int, half: int, unit: int, g: int)
    requires
        unit == 0x20_0000_0000_0000 * g,
        g > 0,
        0 <= half <= 100,
        t >= 0,
        0x20_0000_0000_0000 * apart(leg, exact) <= size(exact),
        t * size(leg) <= (half * unit) * unit + 2 * (half * (unit * g)),
        apart(unit * h, t * leg) <= 2000 * (unit * g),
    ensures
        apart(unit * h, t * exact) <= 2500 * (unit * g),
{
    let k = unit * g;
    let e = apart(leg, exact);
    let (l, x) = (size(leg), size(exact));
    assert(x <= 2 * l);
    assert((half * unit) * unit == 0x20_0000_0000_0000 * (half * k)) by (nonlinear_arith)
        requires
            unit == 0x20_0000_0000_0000 * g,
            k == unit * g,
    ;
    assert(0 <= half * k <= 100 * k) by (nonlinear_arith)
        requires
            0 <= half <= 100,
            k == unit * g,
            unit > 0,
            g > 0,
    ;
    assert(t * e <= 400 * k) by (nonlinear_arith)
        requires
            0x20_0000_0000_0000 * e <= x,
            x <= 2 * l,
            t >= 0,
            t * l <= 0x20_0000_0000_0000 * (half * k) + 2 * (half * k),
            half * k <= 100 * k,
            k >= 0,
    {
        assert(t * (0x20_0000_0000_0000 * e) <= t * (2 * l));
        assert(0x20_0000_0000_0000 * (t * e) <= 2 * (t * l));
    }
    lemma_size_of_product(t, leg - exact);
    assert(t * leg - t * exact == t * (leg - exact)) by (nonlinear_arith);
}

/// A coordinate that limits the hint stands on the border, on the side of the boat.
proof fn lemma_on_border(t: int, leg: int, exact: int, h: int, half: int, unit: int, g: int)
    requires
        unit == 0x20_0000_0000_0000 * g,
        g > 0,
        half == 25 || half == 100,
        t >= 0,
        0x20_0000_0000_0000 * apart(leg, exact) <= size(exact),
        apart(t * size(leg), (half * unit) * unit) <= 2 * (half * (unit * g)),
        apart(unit * h, t * leg) <= 2000 * (unit * g),
    ensures
        exact != 0,
        exact > 0 ==> h >= half * unit - 0x1000 * g,
        exact < 0 ==> h <= -(half * unit) + 0x1000 * g,
{
    let k = unit * g;
    let l = size(leg);
    assert((half * unit) * unit == 0x20_0000_0000_0000 * (half * k)) by (nonlinear_arith)
        requires
            unit == 0x20_0000_0000_0000 * g,
            k == unit * g,
    ;
    assert(k > 0) by (nonlinear_arith)
        requires
            k == unit * g,
            unit > 0,
            g > 0,
    ;
    assert(25 * k <= half * k <= 100 * k) by (nonlinear_arith)
        requires
            25 <= half <= 100,
            k > 0,
    ;
    assert(t * l > 0);
    assert(leg != 0) by {
        assert(t * 0 == 0);
    }
    assert(t * (-leg) == -(t * leg)) by (nonlinear_arith);
    let top = (half * unit) * unit - 2200 * k;
    assert(leg > 0 ==> unit * h >= top);
    assert(leg < 0 ==> unit * h <= -top);
    assert(top == unit * (half * unit - 2200 * g)) by (nonlinear_arith)
        requires
            top == (half * unit) * unit - 2200 * k,
            k == unit * g,
    ;
    let low = half * unit - 2200 * g;
    assert(unit * h >= unit * low ==> h >= low) by (nonlinear_arith)
        requires
            unit > 0,
    ;
    assert(unit * h <= -(unit * low) ==> h <= -low) by (nonlinear_arith)
        requires
            unit > 0,
    ;
}

/// Two coordinates lie on the line from the middle to the boat.
proof fn lemma_on_line(t: int, x: int, y: int, hx: int, hy: int, unit: int, g: int)
    requires
        unit > 0,
        g > 0,
        apart(unit * hx, t * x) <= 2500 * (unit * g),
        apart(unit * hy, t * y) <= 2500 * (unit * g),
    ensures
        size(hx * y - hy * x) <= 0x1000 * (g * (size(x) + size(y))),
{
    let k = unit * g;
    let (a, b) = (unit * hx - t * x, unit * hy - t * y);
    let e = hx * y - hy * x;
    assert(unit * e == y * a - x * b) by (nonlinear_arith)
        requires
            e == hx * y - hy * x,
            a == unit * hx - t * x,
            b == unit * hy - t * y,
    ;
    lemma_size_of_product(unit, e);
    lemma_size_of_product(y, a);
    lemma_size_of_product(x, b);
    let s = size(x) + size(y);
    assert(unit * size(e) <= size(y) * size(a) + size(x) * size(b));
    assert(size(e) <= 0x1000 * (g * s)) by (nonlinear_arith)
        requires
            unit * size(e) <= size(y) * size(a) + size(x) * size(b),
            size(a) <= 2500 * k,
            size(b) <= 2500 * k,
            k == unit * g,
            s == size(x) + size(y),
            size(x) >= 0,
            size(y) >= 0,
            unit > 0,
            g > 0,
    {
        assert(size(y) * size(a) <= size(y) * (2500 * k));
        assert(size(x) * size(b) <= size(x) * (2500 * k));
        assert(size(y) * (2500 * k) + size(x) * (2500 * k) == unit * (2500 * (g * s)));
        assert(g * s >= 0);
        if size(e) > 0x1000 * (g * s) {
            assert(unit * size(e) > unit * (0x1000 * (g * s)));
        }
    }
}

/// The hint at a boat elsewhere stands on the border of the canvas, on the line from its middle to
/// the boat, and on the side of the boat; in exact numbers, up to a small tolerance.
pub proof fn lemma_hints_point_at_boats(p: (F64, F64))
    requires
        p.0.is_finite_number(),
        p.1.is_finite_number(),
        size(p.0.exact()) < pow2(1300),
        size(p.1.exact()) < pow2(1300),
        !(0 <= p.0.exact() <= 200 * pow2(1074) && 0 <= p.1.exact() <= 50 * pow2(1074)),
    ensures
        hint_marks(p).len() == 1,
        hint_marks(p)[0].x.is_finite_number(),
        hint_marks(p)[0].y.is_finite_number(),
        ({
            let unit = pow2(1074) as int;
            let m = hint_marks(p)[0];
            let (hx, hy) = (m.x.exact(), m.y.exact());
            let (x, y) = (p.0.exact() - 100 * unit, p.1.exact() - 25 * unit);
            let near = hint_tolerance();
            &&& m.text == "*"@
            &&& 0 <= hx <= 200 * unit
            &&& 0 <= hy <= 50 * unit
            &&& size((hx - 100 * unit) * y - (hy - 25 * unit) * x) <= near * (size(x) + size(y))
            &&& {
                ||| x > 0 && hx >= 200 * unit - near
                ||| x < 0 && hx <= near
                ||| y > 0 && hy >= 50 * unit - near
                ||| y < 0 && hy <= near
            }
        }),
{
    let f = Format::Double;
    let unit = pow2(1074) as int;
    let g = grain() as int;
    let (w, h, zero) = (F64 { bits: CANVAS_W }, F64 { bits: CANVAS_H }, F64 { bits: 0 });
    let two = F64 { bits: F64_TWO };
    let (cx, cy) = (w.over(two), h.over(two));
    let (dx, dy) = (p.0.minus(cx), p.1.minus(cy));
    let (x, y) = (p.0.exact() - 100 * unit, p.1.exact() - 25 * unit);
    lemma_legs(p);
    let (rx, ry) = (reach(dx, w), reach(dy, h));
    lemma_canvas();
    lemma_center();
    lemma_reach(dx, w, 100);
    lemma_reach(dy, h, 25);
    let x_fits = 2 * size(dx.exact()) > 100 * unit;
    let y_fits = 2 * size(dy.exact()) > 25 * unit;
    if size(x) > 100 * unit {
        lemma_long_leg(rx, dx.exact(), x, 100);
    } else {
        lemma_long_leg(ry, dy.exact(), y, 25);
    }
    lemma_factor(rx, ry, x_fits, y_fits);
    let t = (F64 { bits: F64_MAX }).smaller(rx).smaller(ry);
    lemma_stays_within(t, rx, dx.exact(), 100, x_fits);
    lemma_stays_within(t, ry, dy.exact(), 25, y_fits);
    lemma_coordinate(dx, t, cx, w, 100);
    lemma_coordinate(dy, t, cy, h, 25);
    lemma2_to64();
    lemma2_to64_rest();
    lemma_grains(53);
    lemma_grains(12);
    let m = hint_marks(p)[0];
    let (hx, hy) = (m.x.exact() - 100 * unit, m.y.exact() - 25 * unit);
    lemma_against_exact_leg(t.exact(), dx.exact(), x, hx, 100, unit, g);
    lemma_against_exact_leg(t.exact(), dy.exact(), y, hy, 25, unit, g);
    lemma_on_line(t.exact(), x, y, hx, hy, unit, g);
    assert(0x1000 * (g * (size(x) + size(y))) == hint_tolerance() * (size(x) + size(y)))
        by (nonlinear_arith)
        requires
            hint_tolerance() == 0x1000 * g,
    ;
    if x_fits && t.exact() == rx.exact() {
        lemma_on_border(t.exact(), dx.exact(), x, hx, 100, unit, g);
    } else {
        lemma_on_border(t.exact(), dy.exact(), y, hy, 25, unit, g);
    }
}

/// The legs from the middle of the canvas to a place beyond it.
proof fn lemma_legs(p: (F64, F64))
    requires
        p.0.is_finite_number(),
        p.1.is_finite_number(),
        size(p.0.exact()) < pow2(1300),
        size(p.1.exact()) < pow2(1300),
        !(0 <= p.0.exact() <= 200 * pow2(1074) && 0 <= p.1.exact() <= 50 * pow2(1074)),
    ensures
        ({
            let two = F64 { bits: F64_TWO };
            let dx = p.0.minus((F64 { bits: CANVAS_W }).over(two));
            let dy = p.1.minus((F64 { bits: CANVAS_H }).over(two));
            let (x, y) = (p.0.exact() - 100 * pow2(1074), p.1.exact() - 25 * pow2(1074));
            &&& dx.is_finite_number()
            &&& dy.is_finite_number()
            &&& 0x20_0000_0000_0000 * apart(dx.exact(), x) <= size(x)
            &&& 0x20_0000_0000_0000 * apart(dy.exact(), y) <= size(y)
            &&& size(dx.exact()) <= pow2(1302)
            &&& size(dy.exact()) <= pow2(1302)
            &&& size(x) > 100 * pow2(1074) || size(y) > 25 * pow2(1074)
        }),
        !within(p),
        hint_marks(p).len() == 1,
{
    let f = Format::Double;
    let (w, h, zero) = (F64 { bits: CANVAS_W }, F64 { bits: CANVAS_H }, F64 { bits: 0 });
    let two = F64 { bits: F64_TWO };
    let (cx, cy) = (w.over(two), h.over(two));
    lemma2_to64();
    lemma2_to64_rest();
    lemma_zero(f);
    lemma_canvas();
    lemma_center();
    lemma_pow2_adds(7, 1074);
    lemma_pow2_pos(1074);
    lemma_pow2_strictly_increases(1081, 1300);
    lemma_pow2_strictly_increases(1300, 1600);
    lemma_pow2_adds(2, 1300);
    assert(cx.exact() == 100 * pow2(1074) && cy.exact() == 25 * pow2(1074));
    lemma_doubles_near(p.0, cx);
    lemma_doubles_near(p.1, cy);
    lemma_order_of_values(f, zero.parts(), p.0.parts());
    lemma_order_of_values(f, p.0.parts(), w.parts());
    lemma_order_of_values(f, zero.parts(), p.1.parts());
    lemma_order_of_values(f, p.1.parts(), h.parts());
    super::picture::lemma_middle_is_within(p);
}

} // verus!
