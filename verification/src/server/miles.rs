//! How far boats sail, in exact numbers.

use vstd::arithmetic::power2::{
    lemma2_to64, lemma2_to64_rest, lemma_pow2_adds, lemma_pow2_pos, lemma_pow2_strictly_increases,
    pow2,
};
use vstd::prelude::*;

use crate::float::error::lemma_off_by_half;
use crate::float::exact::{
    apart, lemma_off_by_part, lemma_product_near, lemma_quotient_near, lemma_same_in_double,
    lemma_sum_near, size,
};
use crate::float::laws::{lemma_magnitude_monotone, lemma_zero};
use crate::float::model::{magnitude, nearest, root, Format};
use crate::float::ops::lemma_root;
use crate::float::{F32, F64};
use crate::protocol::Position;
use crate::round_trip::steps::lemma_encoded;

use super::handler::{milli_miles, METRES, METRES_PER_MILE, THOUSAND};
use super::separation::{is_place, square_apart};

verus! {

/// Whether two amounts are the same, up to one part in a billion and so many times that.
spec fn alike(a: int, b: int, times: int) -> bool {
    0x4000_0000 * apart(a, b) <= times * b
}

/// The root of a number that is not small.
proof fn lemma_root_alike(s: F64)
    requires
        s.is_finite_number(),
        !s.parts().neg,
        s.exact() >= pow2(200),
        s.exact() <= pow2(1300),
    ensures
        s.root().is_finite_number(),
        !s.root().parts().neg,
        alike(s.root().exact() * s.root().exact(), s.exact() * pow2(1074), 1),
        pow2(600) <= s.root().exact() <= pow2(1200),
{
    let f = Format::Double;
    let unit = pow2(1074);
    lemma2_to64();
    lemma2_to64_rest();
    lemma_zero(f);
    lemma_pow2_pos(1074);
    lemma_pow2_pos(200);
    let m = s.exact() as nat;
    let n = m * unit;
    lemma_root(n);
    let rt = root(n);
    lemma_pow2_adds(200, 1074);
    lemma_pow2_adds(1300, 1074);
    lemma_pow2_adds(637, 637);
    lemma_pow2_adds(1187, 1187);
    assert(pow2(1274) <= n <= pow2(2374)) by (nonlinear_arith)
        requires
            n == m * unit,
            pow2(200) <= m <= pow2(1300),
            pow2(1274) == pow2(200) * unit,
            pow2(2374) == pow2(1300) * unit,
            unit > 0,
    ;
    assert(pow2(637) <= rt + 1 && rt <= pow2(1187)) by (nonlinear_arith)
        requires
            rt * rt <= n,
            n < (rt + 1) * (rt + 1),
            pow2(637) * pow2(637) <= n,
            n <= pow2(1187) * pow2(1187),
    {
        if rt + 1 < pow2(637) {
            assert((rt + 1) * (rt + 1) <= pow2(637) * pow2(637));
        }
        if rt > pow2(1187) {
            assert(rt * rt > pow2(1187) * pow2(1187));
        }
    }
    let num = 2 * rt + (if rt * rt == n {
        0nat
    } else {
        1nat
    });
    lemma_pow2_adds(2, 1187);
    lemma_pow2_pos(1187);
    lemma_pow2_strictly_increases(1189, 1653);
    lemma_off_by_half(f, num, 2, 1600);
    lemma_off_by_part(f, num, 2);
    let r = magnitude(f, nearest(f, num, 2));
    assert(s.root().exact() == r);
    lemma_pow2_strictly_increases(64, 637);
    assert(rt >= 0x1_0000_0000_0000);
    lemma_square_of_root(r as int, rt as int, n as int);
    lemma_pow2_strictly_increases(601, 637);
    lemma_pow2_adds(1, 600);
    lemma_pow2_strictly_increases(1189, 1200);
}

proof fn lemma_square_of_root(r: int, rt: int, n: int)
    requires
        rt >= 0x1_0000_0000_0000,
        rt * rt <= n < (rt + 1) * (rt + 1),
        ({
            let num = 2 * rt + (if rt * rt == n {
                0int
            } else {
                1int
            });
            0x20_0000_0000_0000 * apart(2 * r, num) <= num || 2 * apart(2 * r, num) <= 2
        }),
        r >= 0,
    ensures
        alike(r * r, n, 1),
        2 * r >= rt,
        r <= 2 * rt,
{
    let e = apart(r, rt);
    assert(0x8_0000_0000_0000 * e <= rt + 0x10_0000_0000_0000);
    let sq = rt * rt;
    assert(0x2_0000_0000 * apart(r * r, sq) <= sq) by (nonlinear_arith)
        requires
            0x8_0000_0000_0000 * e <= rt + 0x10_0000_0000_0000,
            e == r - rt || e == rt - r,
            e >= 0,
            r >= 0,
            rt >= 0x1_0000_0000_0000,
            sq == rt * rt,
            apart(r * r, sq) == r * r - sq || apart(r * r, sq) == sq - r * r,
    {
        let a = apart(r * r, sq);
        assert(r * r - sq == (r - rt) * (r + rt));
        assert(r + rt <= 3 * rt);
        assert(a <= e * (3 * rt)) by {
            assert((r - rt) * (r + rt) <= e * (3 * rt));
            assert(-((r - rt) * (r + rt)) <= e * (3 * rt));
        }
        assert(0x2_0000_0000 * (3 * e) <= rt);
        assert((0x2_0000_0000 * (3 * e)) * rt <= rt * rt);
        assert(0x2_0000_0000 * (e * (3 * rt)) == (0x2_0000_0000 * (3 * e)) * rt);
    }
    assert((rt + 1) * (rt + 1) == sq + 2 * rt + 1) by (nonlinear_arith)
        requires
            sq == rt * rt,
    ;
    assert(0x2_0000_0000 * (2 * rt + 1) <= sq) by (nonlinear_arith)
        requires
            rt >= 0x1_0000_0000_0000,
            sq == rt * rt,
    {
        assert(0x1_0000_0000_0000 * rt <= rt * rt);
    }
}

/// The square of one leg.
proof fn lemma_leg_squared(a: F32, b: F32)
    requires
        a.is_finite_number(),
        b.is_finite_number(),
        size(a.exact() - b.exact()) <= 0x10_0000 * pow2(149),
    ensures
        ({
            let d = a.minus(b).to_f64_number();
            let x = (a.exact() - b.exact()) * pow2(925);
            let sq = d.times(d);
            &&& sq.is_finite_number()
            &&& !sq.parts().neg
            &&& 0x80_0000 * apart(sq.exact() * pow2(1074), x * x) <= 2 * (x * x)
        }),
{
    let f = Format::Double;
    let unit = pow2(1074);
    let k = pow2(925) as int;
    let x0 = a.exact() - b.exact();
    let s = a.minus(b);
    lemma2_to64();
    lemma2_to64_rest();
    lemma_zero(f);
    lemma_zero(Format::Single);
    lemma_pow2_pos(149);
    lemma_pow2_pos(925);
    lemma_pow2_pos(1074);
    lemma_pow2_adds(20, 149);
    lemma_pow2_adds(149, 925);
    lemma_pow2_strictly_increases(169, 224);
    assert(b.negative().exact() == -b.exact());
    lemma_sum_near(Format::Single, a.parts(), b.negative().parts(), 200);
    lemma_same_in_double(s);
    let d = s.to_f64_number();
    let (x, e) = (x0 * k, d.exact());
    assert(0x100_0000 * apart(e, x) <= size(x)) by {
        crate::map_loader::edges::lemma_size_of_product(s.exact() - x0, k);
        crate::map_loader::edges::lemma_size_of_product(x0, k);
        assert(s.exact() * k - x0 * k == (s.exact() - x0) * k) by (nonlinear_arith);
        assert(0x100_0000 * (apart(s.exact(), x0) * k) <= size(x0) * k) by (nonlinear_arith)
            requires
                0x100_0000 * apart(s.exact(), x0) <= size(x0),
                k > 0,
        ;
    }
    let m = d.parts().magnitude(f);
    assert(size(x) <= 0x10_0000 * unit) by {
        crate::map_loader::edges::lemma_size_of_product(x0, k);
        assert(size(x0) * k <= (0x10_0000 * pow2(149)) * k) by (nonlinear_arith)
            requires
                size(x0) <= 0x10_0000 * pow2(149),
                k > 0,
        ;
        assert((0x10_0000 * pow2(149)) * k == 0x10_0000 * unit) by (nonlinear_arith)
            requires
                unit == pow2(149) * k,
        ;
    }
    lemma_pow2_adds(42, 1074);
    lemma_pow2_strictly_increases(1116, 1653);
    assert(m * m < unit * pow2(1653)) by (nonlinear_arith)
        requires
            m <= 0x20_0000 * unit,
            0x400_0000_0000 * unit < pow2(1653),
            unit > 0,
    {
        assert(m * m <= (0x20_0000 * unit) * (0x20_0000 * unit));
        assert((0x20_0000 * unit) * (0x20_0000 * unit) == unit * (0x400_0000_0000 * unit));
        assert(unit * (0x400_0000_0000 * unit) < unit * pow2(1653));
    }
    lemma_off_by_half(f, m * m, unit, 1600);
    lemma_product_near(f, d.parts(), d.parts());
    let sq = d.times(d);
    lemma_pow2_adds(925, 925);
    lemma_pow2_adds(1074, 54);
    lemma_pow2_strictly_increases(1128, 1850);
    if e == 0 {
        assert(m == 0);
        crate::float::order::lemma_nearest_zero(f, unit);
        assert(m * m == 0);
        assert(sq.exact() == 0);
        assert(0 * unit == 0 && e * e == 0);
    } else {
        assert(s.exact() != 0);
        assert(e * e >= k * k) by (nonlinear_arith)
            requires
                e == s.exact() * k,
                s.exact() != 0,
                k > 0,
        {
            let t = s.exact();
            assert(t * t >= 1);
            assert(e * e == (t * t) * (k * k));
        }
    }
    assert(size(e) * size(e) == e * e) by (nonlinear_arith)
        requires
            size(e) == e || size(e) == -e,
    ;
    assert(0x20_0000_0000_0000 * apart(sq.exact() * unit, e * e) <= e * e);
    lemma_square_alike(e, x);
    let (o, p) = (apart(sq.exact() * unit, e * e), apart(e * e, x * x));
    assert(apart(sq.exact() * unit, x * x) <= o + p);
}

proof fn lemma_square_alike(e: int, x: int)
    requires
        0x100_0000 * apart(e, x) <= size(x),
    ensures
        0x100_0000 * apart(e * e, x * x) <= 3 * (x * x),
        e * e <= 2 * (x * x),
{
    let (a, o) = (size(x), apart(e, x));
    assert(a * a == x * x) by (nonlinear_arith)
        requires
            a == x || a == -x,
    ;
    assert(0x100_0000 * apart(e * e, x * x) <= 3 * (a * a)) by (nonlinear_arith)
        requires
            0x100_0000 * o <= a,
            o == e - x || o == x - e,
            o >= 0,
            a == x || a == -x,
            a >= 0,
            apart(e * e, x * x) == e * e - x * x || apart(e * e, x * x) == x * x - e * e,
    {
        let s = size(e + x);
        assert(s <= 3 * a);
        assert(e * e - x * x == (e - x) * (e + x));
        let p = apart(e * e, x * x);
        assert(p <= o * s) by {
            assert((e - x) * (e + x) <= o * s);
            assert(-((e - x) * (e + x)) <= o * s);
        }
        assert(0x100_0000 * (o * s) == (0x100_0000 * o) * s);
        assert((0x100_0000 * o) * s <= a * s);
        assert(a * s <= a * (3 * a));
    }
    assert(x * x >= 0) by (nonlinear_arith);
}

/// A number that is not small, times a whole number.
proof fn lemma_times_whole(r: F64, c: F64, n: nat)
    requires
        r.is_finite_number(),
        !r.parts().neg,
        pow2(500) <= r.exact() <= pow2(1300),
        c.is_finite_number(),
        !c.parts().neg,
        c.exact() == n * pow2(1074),
        1 <= n <= 2000,
    ensures
        r.times(c).is_finite_number(),
        !r.times(c).parts().neg,
        0x20_0000_0000_0000 * apart(r.times(c).exact(), n * r.exact()) <= n * r.exact(),
{
    let f = Format::Double;
    let unit = pow2(1074);
    lemma2_to64();
    lemma2_to64_rest();
    lemma_zero(f);
    lemma_pow2_pos(1074);
    lemma_pow2_adds(11, 1300);
    lemma_pow2_strictly_increases(1311, 1653);
    lemma_pow2_strictly_increases(1300, 1311);
    lemma_pow2_strictly_increases(64, 500);
    let (m, cu) = (r.exact() as nat, n * unit);
    assert(m * cu < unit * pow2(1653)) by (nonlinear_arith)
        requires
            m <= pow2(1300),
            cu == n * unit,
            n <= 2000,
            2048 * pow2(1300) < pow2(1653),
            unit > 0,
    {
        assert(m * n <= pow2(1300) * 2000);
        assert(m * cu == (m * n) * unit);
        assert((m * n) * unit < pow2(1653) * unit);
    }
    lemma_off_by_half(f, m * cu, unit, 1600);
    lemma_product_near(f, r.parts(), c.parts());
    let e = r.times(c).exact();
    let z = apart(e, n * r.exact());
    assert(apart(e * unit, r.exact() * cu) == unit * z) by (nonlinear_arith)
        requires
            cu == n * unit,
            unit > 0,
            z == e - n * r.exact() || z == n * r.exact() - e,
            z >= 0,
            apart(e * unit, r.exact() * cu) == e * unit - r.exact() * cu || apart(
                e * unit,
                r.exact() * cu,
            ) == r.exact() * cu - e * unit,
            apart(e * unit, r.exact() * cu) >= 0,
    {
        assert(r.exact() * cu == (n * r.exact()) * unit);
        assert(unit * z >= 0);
        assert(unit * z == e * unit - (n * r.exact()) * unit || unit * z == (n * r.exact()) * unit
            - e * unit);
    }
    assert(0x20_0000_0000_0000 * z <= n * r.exact()) by (nonlinear_arith)
        requires
            0x20_0000_0000_0000 * (unit * z) <= r.exact() * cu || 2 * (unit * z) <= unit,
            cu == n * unit,
            unit > 0,
            z >= 0,
            r.exact() >= 0,
            n >= 1,
    {
        if 0x20_0000_0000_0000 * (unit * z) <= r.exact() * cu {
            assert(r.exact() * cu == unit * (n * r.exact()));
            assert(unit * (0x20_0000_0000_0000 * z) <= unit * (n * r.exact()));
        } else {
            if z >= 1 {
                assert(unit * z >= unit);
            }
            assert(n * r.exact() >= 0);
        }
    }
}

/// A number that is not small, over a whole number.
proof fn lemma_over_whole(r: F64, c: F64, n: nat)
    requires
        r.is_finite_number(),
        !r.parts().neg,
        pow2(500) <= r.exact() <= pow2(1300),
        c.is_finite_number(),
        !c.parts().neg,
        c.exact() == n * pow2(1074),
        1 <= n <= 2000,
    ensures
        r.over(c).is_finite_number(),
        !r.over(c).parts().neg,
        0x20_0000_0000_0000 * apart(n * r.over(c).exact(), r.exact()) <= r.exact(),
{
    let f = Format::Double;
    let unit = pow2(1074);
    lemma2_to64();
    lemma2_to64_rest();
    lemma_zero(f);
    lemma_pow2_pos(1074);
    lemma_pow2_strictly_increases(1300, 1653);
    lemma_pow2_strictly_increases(64, 500);
    let (m, cu) = (r.exact() as nat, n * unit);
    assert(cu > 0 && m * unit < cu * pow2(1653)) by (nonlinear_arith)
        requires
            m < pow2(1653),
            cu == n * unit,
            n >= 1,
            unit > 0,
    {
        assert(cu >= unit);
        assert(m * unit <= m * cu);
        assert(m * cu < pow2(1653) * cu);
    }
    lemma_off_by_half(f, m * unit, cu, 1600);
    lemma_quotient_near(f, r.parts(), c.parts());
    let e = r.over(c).exact();
    let z = apart(n * e, r.exact());
    assert(apart(e * cu, r.exact() * unit) == unit * z) by (nonlinear_arith)
        requires
            cu == n * unit,
            unit > 0,
            z == n * e - r.exact() || z == r.exact() - n * e,
            z >= 0,
            apart(e * cu, r.exact() * unit) == e * cu - r.exact() * unit || apart(
                e * cu,
                r.exact() * unit,
            ) == r.exact() * unit - e * cu,
            apart(e * cu, r.exact() * unit) >= 0,
    {
        assert(e * cu == (n * e) * unit);
        assert(unit * z >= 0);
        assert(unit * z == (n * e) * unit - r.exact() * unit || unit * z == r.exact() * unit - (n
            * e) * unit);
    }
    assert(0x20_0000_0000_0000 * z <= r.exact()) by (nonlinear_arith)
        requires
            0x20_0000_0000_0000 * (unit * z) <= r.exact() * unit || 2 * (unit * z) <= cu,
            cu == n * unit,
            unit > 0,
            z >= 0,
            n <= 2000,
            r.exact() >= 0x1_0000_0000_0000_0000,
    {
        if 0x20_0000_0000_0000 * (unit * z) <= r.exact() * unit {
            assert(unit * (0x20_0000_0000_0000 * z) <= unit * r.exact());
        } else {
            assert(unit * (2 * z) <= unit * n);
        }
    }
}

/// The constants that the way is multiplied by.
proof fn lemma_constants()
    ensures
        (F64 { bits: METRES }).is_finite_number() && !(F64 { bits: METRES }).parts().neg,
        (F64 { bits: METRES }).exact() == 20 * pow2(1074),
        (F64 { bits: METRES_PER_MILE }).is_finite_number() && !(F64 {
            bits: METRES_PER_MILE,
        }).parts().neg,
        (F64 { bits: METRES_PER_MILE }).exact() == 1852 * pow2(1074),
        (F64 { bits: THOUSAND }).is_finite_number() && !(F64 { bits: THOUSAND }).parts().neg,
        (F64 { bits: THOUSAND }).exact() == 1000 * pow2(1074),
{
    let unit = pow2(1074);
    lemma2_to64();
    lemma2_to64_rest();
    lemma_encoded(METRES, 0x403, 0x4_0000_0000_0000);
    lemma_encoded(METRES_PER_MILE, 0x409, 0xc_f000_0000_0000);
    lemma_encoded(THOUSAND, 0x408, 0xf_4000_0000_0000);
    lemma_pow2_adds(48, 1026);
    lemma_pow2_adds(42, 1032);
    lemma_pow2_adds(43, 1031);
    assert(0x14_0000_0000_0000nat * pow2(1026) == 20 * unit) by (nonlinear_arith)
        requires
            unit == 0x1_0000_0000_0000 * pow2(1026),
    ;
    assert(0x1c_f000_0000_0000nat * pow2(1032) == 1852 * unit) by (nonlinear_arith)
        requires
            unit == 0x400_0000_0000 * pow2(1032),
    ;
    assert(0x1f_4000_0000_0000nat * pow2(1031) == 1000 * unit) by (nonlinear_arith)
        requires
            unit == 0x800_0000_0000 * pow2(1031),
    ;
}

/// The sum of the squares of two legs.
proof fn lemma_legs_squared(from: Position, to: Position) -> (s: F64)
    requires
        is_place(from),
        is_place(to),
        size(from.x.exact() - to.x.exact()) <= 0x10_0000 * pow2(149),
        size(from.y.exact() - to.y.exact()) <= 0x10_0000 * pow2(149),
    ensures
        milli_miles(from, to) == s.root().times(F64 { bits: METRES }).over(
            F64 { bits: METRES_PER_MILE },
        ).times(F64 { bits: THOUSAND }).trunc(u64::MAX as nat) as u64,
        s.is_finite_number(),
        !s.parts().neg,
        ({
            let q = square_apart(from, to) * (pow2(925) * pow2(925));
            0x40_0000 * apart(s.exact() * pow2(1074), q) <= 2 * q
        }),
{
    let f = Format::Double;
    let unit = pow2(1074);
    let k = pow2(925);
    lemma2_to64();
    lemma2_to64_rest();
    lemma_zero(f);
    lemma_pow2_pos(1074);
    lemma_pow2_pos(925);
    crate::float::order::lemma_nearest_zero(f, 1);
    lemma_leg_squared(from.x, to.x);
    lemma_leg_squared(from.y, to.y);
    let (dx, dy) = (from.x.minus(to.x).to_f64_number(), from.y.minus(to.y).to_f64_number());
    let (sx, sy) = (dx.times(dx), dy.times(dy));
    let (x0, y0) = (from.x.exact() - to.x.exact(), from.y.exact() - to.y.exact());
    let (x, y) = (x0 * k, y0 * k);
    let s = sx.plus(sy);
    lemma_small_square(x0, k as int, unit as int, sx.exact());
    lemma_small_square(y0, k as int, unit as int, sy.exact());
    lemma_pow2_adds(45, 1074);
    lemma_pow2_strictly_increases(1119, 1653);
    lemma_sum_near(f, sx.parts(), sy.parts(), 1600);
    let q = square_apart(from, to) * (k * k);
    assert(q == x * x + y * y) by (nonlinear_arith)
        requires
            q == (x0 * x0 + y0 * y0) * (k * k),
            x == x0 * k,
            y == y0 * k,
    ;
    let both = sx.exact() + sy.exact();
    assert(both * unit == sx.exact() * unit + sy.exact() * unit) by (nonlinear_arith)
        requires
            both == sx.exact() + sy.exact(),
    ;
    let o = apart(s.exact(), both);
    assert(0x20_0000_0000_0000 * apart(s.exact() * unit, both * unit) <= both * unit)
        by (nonlinear_arith)
        requires
            0x20_0000_0000_0000 * o <= both,
            o == s.exact() - both || o == both - s.exact(),
            o >= 0,
            apart(s.exact() * unit, both * unit) == s.exact() * unit - both * unit || apart(
                s.exact() * unit,
                both * unit,
            ) == both * unit - s.exact() * unit,
            unit > 0,
    {
        assert(o * unit == s.exact() * unit - both * unit || o * unit == both * unit - s.exact()
            * unit);
        assert(o * unit >= 0);
        assert((0x20_0000_0000_0000 * o) * unit <= both * unit);
    }
    assert(x * x >= 0 && y * y >= 0) by (nonlinear_arith);
    s
}

/// The square of a leg is not too large.
proof fn lemma_small_square(x0: int, k: int, unit: int, sq: int)
    requires
        size(x0) <= 0x10_0000 * pow2(149),
        k == pow2(925),
        unit == pow2(1074),
        sq >= 0,
        0x80_0000 * apart(sq * unit, (x0 * k) * (x0 * k)) <= 2 * ((x0 * k) * (x0 * k)),
    ensures
        sq <= 0x400_0000_0000 * unit,
{
    lemma_pow2_adds(149, 925);
    lemma_pow2_pos(149);
    lemma_pow2_pos(925);
    lemma_pow2_pos(1074);
    let a = size(x0) * k;
    let x = x0 * k;
    assert(x * x == a * a) by (nonlinear_arith)
        requires
            x == x0 * k,
            a == size(x0) * k,
            size(x0) == x0 || size(x0) == -x0,
    ;
    assert(0 <= a <= 0x10_0000 * unit) by (nonlinear_arith)
        requires
            a == size(x0) * k,
            0 <= size(x0) <= 0x10_0000 * pow2(149),
            unit == pow2(149) * k,
            k > 0,
    ;
    assert(a * a <= 0x100_0000_0000 * (unit * unit)) by (nonlinear_arith)
        requires
            0 <= a <= 0x10_0000 * unit,
    ;
    assert(sq <= 0x400_0000_0000 * unit) by (nonlinear_arith)
        requires
            sq * unit <= 0x200_0000_0000 * (unit * unit),
            unit > 0,
    {
        if sq > 0x400_0000_0000 * unit {
            assert(sq * unit > (0x400_0000_0000 * unit) * unit);
            assert((0x400_0000_0000 * unit) * unit == 0x400_0000_0000 * (unit * unit));
            assert(unit * unit > 0);
        }
    }
}

/// Where a boat stays, it sails nothing.
proof fn lemma_no_miles(s: F64)
    requires
        s.is_finite_number(),
        !s.parts().neg,
        s.exact() == 0,
    ensures
        s.root().times(F64 { bits: METRES }).over(F64 { bits: METRES_PER_MILE }).times(
            F64 { bits: THOUSAND },
        ).trunc(u64::MAX as nat) == 0,
{
    let f = Format::Double;
    let unit = pow2(1074);
    lemma2_to64();
    lemma_zero(f);
    lemma_pow2_pos(1074);
    lemma_constants();
    if s.parts().abs > 0 {
        lemma_magnitude_monotone(f, 0, s.parts().abs as nat);
    }
    crate::float::order::lemma_nearest_zero(f, unit);
    crate::float::order::lemma_nearest_zero(f, 1852 * unit);
    let (a, b, c) = (20 * unit, 1852 * unit, 1000 * unit);
    assert(0 * a == 0 && 0 * b == 0 && 0 * c == 0 && 0 * unit == 0);
    let r = s.root();
    assert(r.parts().abs == 0);
    let r = r.times(F64 { bits: METRES });
    assert(r.parts().abs == 0);
    let r = r.over(F64 { bits: METRES_PER_MILE });
    assert(r.parts().abs == 0);
    let r = r.times(F64 { bits: THOUSAND });
    assert(r.parts().abs == 0);
    vstd::arithmetic::div_mod::lemma_fundamental_div_mod_converse(0, unit as int, 0, 0);
}

/// From the root to thousandths of a mile.
proof fn lemma_from_root(r: F64) -> (c: F64)
    requires
        r.is_finite_number(),
        !r.parts().neg,
        pow2(600) <= r.exact() <= pow2(1200),
    ensures
        c == r.times(F64 { bits: METRES }).over(F64 { bits: METRES_PER_MILE }).times(
            F64 { bits: THOUSAND },
        ),
        c.is_finite_number(),
        !c.parts().neg,
        0x4_0000_0000_0000 * apart(1852 * c.exact(), 20000 * r.exact()) <= 20000 * r.exact(),
{
    lemma2_to64();
    lemma2_to64_rest();
    lemma_constants();
    lemma_pow2_strictly_increases(500, 600);
    lemma_pow2_strictly_increases(1200, 1300);
    lemma_pow2_adds(12, 500);
    lemma_pow2_strictly_increases(512, 600);
    lemma_pow2_adds(6, 1200);
    lemma_pow2_strictly_increases(1206, 1300);
    lemma_pow2_pos(500);
    let a = r.times(F64 { bits: METRES });
    lemma_times_whole(r, F64 { bits: METRES }, 20);
    let b = a.over(F64 { bits: METRES_PER_MILE });
    lemma_over_whole(a, F64 { bits: METRES_PER_MILE }, 1852);
    let c = b.times(F64 { bits: THOUSAND });
    lemma_times_whole(b, F64 { bits: THOUSAND }, 1000);
    c
}

/// What is counted of a move is how far it leads: a tile is twenty metres, a nautical mile 1852, and
/// what is counted are whole thousandths of a mile; exact up to one part in a million of the square.
pub proof fn lemma_miles_are_as_far_as_the_move(from: Position, to: Position)
    requires
        is_place(from),
        is_place(to),
        size(from.x.exact() - to.x.exact()) <= 0x10_0000 * pow2(149),
        size(from.y.exact() - to.y.exact()) <= 0x10_0000 * pow2(149),
    ensures
        ({
            let q = square_apart(from, to);
            let tile = pow2(149) as int;
            let low = 1852 * (milli_miles(from, to) * tile);
            let high = 1852 * ((milli_miles(from, to) + 1) * tile);
            &&& 0x10_0000 * (low * low) <= 0x10_0001 * (400_000_000 * q)
            &&& 0x10_0000 * (high * high) >= 0xf_ffff * (400_000_000 * q)
        }),
{
    let unit = pow2(1074) as int;
    let tile = pow2(149) as int;
    let k = pow2(925) as int;
    let q0 = square_apart(from, to);
    lemma2_to64();
    lemma2_to64_rest();
    lemma_pow2_pos(149);
    lemma_pow2_pos(925);
    lemma_pow2_pos(1074);
    lemma_pow2_adds(149, 925);
    lemma_zero(Format::Double);
    let s = lemma_legs_squared(from, to);
    let (x0, y0) = (from.x.exact() - to.x.exact(), from.y.exact() - to.y.exact());
    assert(x0 * x0 >= 0 && y0 * y0 >= 0) by (nonlinear_arith);
    let q = q0 * (k * k);
    let m = milli_miles(from, to) as int;
    if q0 == 0 {
        assert(0 * (k * k) == 0);
        assert(s.exact() == 0) by (nonlinear_arith)
            requires
                s.exact() * unit == 0,
                unit > 0,
        ;
        lemma_no_miles(s);
        assert(m == 0);
        assert(0 * tile == 0);
        let high = 1852 * (1 * tile);
        assert(high * high >= 0) by (nonlinear_arith);
    } else {
        lemma_not_small(q0, k, unit, s.exact());
        lemma_not_large(from, to, s.exact());
        lemma_root_alike(s);
        let r = s.root();
        let c = lemma_from_root(r);
        lemma_count_of(c, r.exact(), s.exact());
        lemma_miles_off(m, c.exact(), r.exact(), s.exact() * unit, q, unit);
        lemma_scale_down(m, tile, k, q0);
        lemma_scale_down(m + 1, tile, k, q0);
    }
}

proof fn lemma_not_small(q0: int, k: int, unit: int, s: int)
    requires
        q0 >= 1,
        k == pow2(925),
        unit == pow2(1074),
        s >= 0,
        0x40_0000 * apart(s * unit, q0 * (k * k)) <= 2 * (q0 * (k * k)),
    ensures
        s >= pow2(200),
{
    lemma2_to64();
    lemma_pow2_adds(925, 925);
    lemma_pow2_adds(1, 1275);
    lemma_pow2_adds(201, 1074);
    lemma_pow2_strictly_increases(1276, 1850);
    lemma_pow2_adds(1, 200);
    lemma_pow2_pos(200);
    lemma_pow2_pos(1074);
    let kk = k * k;
    assert(q0 * kk >= kk) by (nonlinear_arith)
        requires
            q0 >= 1,
            kk >= 0,
    ;
    assert(2 * (s * unit) >= kk);
    assert(s >= pow2(200)) by (nonlinear_arith)
        requires
            2 * (s * unit) >= pow2(201) * unit * 2,
            pow2(201) == 2 * pow2(200),
            unit > 0,
    {
        if s < pow2(200) {
            assert(s * unit < pow2(200) * unit);
        }
    }
}

proof fn lemma_not_large(from: Position, to: Position, s: int)
    requires
        size(from.x.exact() - to.x.exact()) <= 0x10_0000 * pow2(149),
        size(from.y.exact() - to.y.exact()) <= 0x10_0000 * pow2(149),
        ({
            let q = square_apart(from, to) * (pow2(925) * pow2(925));
            0x40_0000 * apart(s * pow2(1074), q) <= 2 * q
        }),
    ensures
        s <= 0x800_0000_0000 * pow2(1074),
        s <= pow2(1300),
{
    let unit = pow2(1074) as int;
    let (k, v) = (pow2(925) as int, pow2(149) as int);
    lemma2_to64();
    lemma2_to64_rest();
    lemma_pow2_adds(149, 925);
    lemma_pow2_adds(43, 1074);
    lemma_pow2_strictly_increases(1117, 1300);
    lemma_pow2_pos(149);
    lemma_pow2_pos(925);
    lemma_pow2_pos(1074);
    let (x, y) = (from.x.exact() - to.x.exact(), from.y.exact() - to.y.exact());
    assert(x * x <= 0x100_0000_0000 * (v * v)) by (nonlinear_arith)
        requires
            -(0x10_0000 * v) <= x <= 0x10_0000 * v,
            v > 0,
    ;
    assert(y * y <= 0x100_0000_0000 * (v * v)) by (nonlinear_arith)
        requires
            -(0x10_0000 * v) <= y <= 0x10_0000 * v,
            v > 0,
    ;
    let q0 = x * x + y * y;
    let q = q0 * (k * k);
    assert(q <= 0x200_0000_0000 * (unit * unit)) by (nonlinear_arith)
        requires
            q == q0 * (k * k),
            q0 <= 0x200_0000_0000 * (v * v),
            unit == v * k,
    {
        assert(k * k >= 0);
        assert(q0 * (k * k) <= (0x200_0000_0000 * (v * v)) * (k * k));
        assert((v * v) * (k * k) == unit * unit);
    }
    assert(s * unit <= 0x400_0000_0000 * (unit * unit));
    assert(s <= 0x400_0000_0000 * unit) by (nonlinear_arith)
        requires
            s * unit <= 0x400_0000_0000 * (unit * unit),
            unit > 0,
    {
        if s > 0x400_0000_0000 * unit {
            assert(s * unit > (0x400_0000_0000 * unit) * unit);
        }
    }
}

/// The whole number that is counted.
proof fn lemma_count_of(c: F64, r: int, s: int)
    requires
        c.is_finite_number(),
        !c.parts().neg,
        r >= 0,
        0 <= s <= 0x800_0000_0000 * pow2(1074),
        alike(r * r, s * pow2(1074), 1),
        0x4_0000_0000_0000 * apart(1852 * c.exact(), 20000 * r) <= 20000 * r,
    ensures
        ({
            let m = c.trunc(u64::MAX as nat);
            &&& m <= u64::MAX
            &&& m * pow2(1074) <= c.exact() < (m + 1) * pow2(1074)
        }),
{
    let unit = pow2(1074) as int;
    lemma_pow2_pos(1074);
    assert(s * unit <= 0x800_0000_0000 * (unit * unit)) by (nonlinear_arith)
        requires
            s <= 0x800_0000_0000 * unit,
            unit > 0,
    ;
    assert(r * r <= 0x1000_0000_0000 * (unit * unit));
    assert(r <= 0x100_0000 * unit) by (nonlinear_arith)
        requires
            r * r <= 0x1000_0000_0000 * (unit * unit),
            unit > 0,
            r >= 0,
    {
        if r > 0x100_0000 * unit {
            assert(r * r > (0x100_0000 * unit) * (0x100_0000 * unit));
            assert((0x100_0000 * unit) * (0x100_0000 * unit) == 0x1_0000_0000_0000 * (unit * unit));
            assert(unit * unit > 0);
        }
    }
    let e = c.exact();
    let m = e / unit;
    vstd::arithmetic::div_mod::lemma_fundamental_div_mod(e, unit);
    vstd::arithmetic::div_mod::lemma_mod_bound(e, unit);
    assert(unit * m == m * unit && (m + 1) * unit == m * unit + unit) by (nonlinear_arith);
    assert(0 <= m <= 0x1_0000_0000) by (nonlinear_arith)
        requires
            m * unit <= e,
            0 <= e < (m + 1) * unit,
            e <= 0x1000_0000 * unit,
            unit > 0,
    ;
}

proof fn lemma_miles_off(m: int, c: int, r: int, n: int, q: int, unit: int)
    requires
        m >= 0,
        r >= 0,
        unit > 0,
        q >= 0,
        n >= 0,
        m * unit <= c < (m + 1) * unit,
        0x4_0000_0000_0000 * apart(1852 * c, 20000 * r) <= 20000 * r,
        alike(r * r, n, 1),
        0x40_0000 * apart(n, q) <= 2 * q,
    ensures
        ({
            let low = 1852 * (m * unit);
            let high = 1852 * ((m + 1) * unit);
            &&& 0x10_0000 * (low * low) <= 0x10_0001 * (400_000_000 * q)
            &&& 0x10_0000 * (high * high) >= 0xf_ffff * (400_000_000 * q)
        }),
{
    let p = 0x4_0000_0000_0000int;
    let (low, high, w) = (1852 * (m * unit), 1852 * ((m + 1) * unit), 20000 * r);
    let (rr, ww) = (r * r, w * w);
    assert(ww == 400_000_000 * rr) by (nonlinear_arith)
        requires
            ww == w * w,
            w == 20000 * r,
            rr == r * r,
    ;
    assert(m * unit >= 0) by (nonlinear_arith)
        requires
            m >= 0,
            unit > 0,
    ;
    assert(p * low <= (p + 1) * w);
    assert(p * high >= (p - 1) * w);
    assert(p * (low * low) <= (p + 3) * ww) by (nonlinear_arith)
        requires
            p * low <= (p + 1) * w,
            low >= 0,
            w >= 0,
            ww == w * w,
            p == 0x4_0000_0000_0000,
    {
        let (a, b) = (p * low, (p + 1) * w);
        assert(a * a <= b * b);
        assert(a * a == p * (p * (low * low)));
        assert(b * b == (p * p + 2 * p + 1) * ww);
        assert(ww >= 0);
        assert((p * p + 2 * p + 1) * ww <= (p * (p + 3)) * ww);
        assert((p * (p + 3)) * ww == p * ((p + 3) * ww));
    }
    assert(p * (high * high) >= (p - 2) * ww) by (nonlinear_arith)
        requires
            p * high >= (p - 1) * w,
            high >= 0,
            w >= 0,
            ww == w * w,
            p == 0x4_0000_0000_0000,
    {
        let (a, b) = (p * high, (p - 1) * w);
        assert(a * a >= b * b);
        assert(a * a == p * (p * (high * high)));
        assert(b * b == (p * p - 2 * p + 1) * ww);
        assert(ww >= 0);
        assert((p * p - 2 * p + 1) * ww >= (p * (p - 2)) * ww);
        assert((p * (p - 2)) * ww == p * ((p - 2) * ww));
    }
    let (ll, hh) = (low * low, high * high);
    lemma_all_alike(ll, hh, rr, n, q);
}

proof fn lemma_all_alike(ll: int, hh: int, rr: int, n: int, q: int)
    requires
        q >= 0,
        n >= 0,
        rr >= 0,
        0x4_0000_0000_0000 * ll <= 0x4_0000_0000_0003 * (400_000_000 * rr),
        0x4_0000_0000_0000 * hh >= 0x3_ffff_ffff_fffe * (400_000_000 * rr),
        0x4000_0000 * apart(rr, n) <= n,
        0x40_0000 * apart(n, q) <= 2 * q,
    ensures
        0x10_0000 * ll <= 0x10_0001 * (400_000_000 * q),
        0x10_0000 * hh >= 0xf_ffff * (400_000_000 * q),
{
    assert(0x40_0000 * n <= 0x40_0002 * q);
    assert(0x40_0000 * n >= 0x3f_fffe * q);
    assert(0x4000_0000 * rr <= 0x4000_0001 * n);
    assert(0x4000_0000 * rr >= 0x3fff_ffff * n);
}

proof fn lemma_scale_down(m: int, tile: int, k: int, q0: int)
    requires
        tile > 0,
        k > 0,
    ensures
        ({
            let big = 1852 * (m * (tile * k));
            let small = 1852 * (m * tile);
            let q = q0 * (k * k);
            &&& 0x10_0000 * (big * big) <= 0x10_0001 * (400_000_000 * q) ==> 0x10_0000 * (small
                * small) <= 0x10_0001 * (400_000_000 * q0)
            &&& 0x10_0000 * (big * big) >= 0xf_ffff * (400_000_000 * q) ==> 0x10_0000 * (small
                * small) >= 0xf_ffff * (400_000_000 * q0)
        }),
{
    let big = 1852 * (m * (tile * k));
    let small = 1852 * (m * tile);
    let kk = k * k;
    let q = q0 * kk;
    assert(kk > 0) by (nonlinear_arith)
        requires
            kk == k * k,
            k > 0,
    ;
    assert(big * big == (small * small) * kk) by (nonlinear_arith)
        requires
            big == 1852 * (m * (tile * k)),
            small == 1852 * (m * tile),
            kk == k * k,
    ;
    let ss = small * small;
    assert(0x10_0000 * (ss * kk) <= 0x10_0001 * (400_000_000 * (q0 * kk)) ==> 0x10_0000 * ss
        <= 0x10_0001 * (400_000_000 * q0)) by (nonlinear_arith)
        requires
            kk > 0,
    {
        let (a, b) = (0x10_0000 * ss, 0x10_0001 * (400_000_000 * q0));
        if a > b {
            assert(a * kk > b * kk);
        }
    }
    assert(0x10_0000 * (ss * kk) >= 0xf_ffff * (400_000_000 * (q0 * kk)) ==> 0x10_0000 * ss
        >= 0xf_ffff * (400_000_000 * q0)) by (nonlinear_arith)
        requires
            kk > 0,
    {
        let (a, b) = (0x10_0000 * ss, 0xf_ffff * (400_000_000 * q0));
        if a < b {
            assert(a * kk < b * kk);
        }
    }
}

} // verus!
