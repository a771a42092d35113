//! Single steps of a conversion, and what each is off by.

use vstd::arithmetic::div_mod::lemma_fundamental_div_mod_converse;
use vstd::arithmetic::power2::{lemma2_to64, lemma2_to64_rest, lemma_pow2_adds, lemma_pow2_pos, pow2};
use vstd::prelude::*;

use crate::coords::{BBOX_MAX_LAT, BBOX_MAX_LON, BBOX_MIN_LAT, BBOX_MIN_LON};
use crate::float::error::{distance, lemma_exact, lemma_off_by_half, lemma_on_grid};
use crate::float::laws::lemma_nearest_scaled;
use crate::float::model::{is_quantum, magnitude, nearest, Format, Parts};
use crate::float::{F32, F64};

verus! {

/// Whether a number is not negative, finite, and `m` units large.
pub open spec fn holds(f: Format, p: Parts, m: nat) -> bool {
    !p.neg && p.is_finite(f) && p.magnitude(f) == m
}

/// A part of a unit in the last place of one: everything below is counted in it.
pub open spec fn grain() -> nat {
    pow2(1021)
}

/// A power of two in grains.
pub proof fn lemma_grains(i: nat)
    ensures
        pow2(1021 + i) == pow2(i) * grain(),
        grain() > 0,
{
    lemma_pow2_adds(1021, i);
    lemma_pow2_pos(1021);
    assert(pow2(i) * pow2(1021) == pow2(1021) * pow2(i)) by (nonlinear_arith);
}

/// A whole number that single precision holds is the same one in double precision.
pub proof fn lemma_whole_single(n: nat)
    requires
        n < 0x100_0000,
    ensures
        holds(Format::Single, F32::of_nat(n).parts(), n * pow2(149)),
        holds(Format::Double, F32::of_nat(n).to_f64_number().parts(), n * pow2(1074)),
{
    lemma2_to64();
    lemma2_to64_rest();
    lemma_exact(Format::Single, n, 149);
    lemma_exact(Format::Double, n, 1074);
    lemma_pow2_pos(149);
    lemma_nearest_scaled(Format::Double, n * pow2(1074), 1, pow2(149));
    assert((n * pow2(149)) * pow2(1074) == (n * pow2(1074)) * pow2(149)) by (nonlinear_arith);
    assert(1 * pow2(149) == pow2(149));
}

pub proof fn lemma_whole_double(n: nat)
    requires
        n < 0x20_0000_0000_0000,
    ensures
        holds(Format::Double, F64::of_nat(n).parts(), n * pow2(1074)),
{
    lemma2_to64();
    lemma2_to64_rest();
    lemma_exact(Format::Double, n, 1074);
}

/// What a quotient is off by, where the two numbers stand to each other as `num` to `den`.
pub proof fn lemma_over(a: F64, b: F64, x: nat, y: nat, num: nat, den: nat, c: nat, top: nat) -> (r: nat)
    requires
        holds(Format::Double, a.parts(), x),
        holds(Format::Double, b.parts(), y),
        x * pow2(1074) == num * c,
        y == den * c,
        den > 0,
        c > 0,
        b.parts().abs > 0,
        num < den * pow2(53 + top),
        top < 2000,
    ensures
        holds(Format::Double, a.over(b).parts(), r),
        2 * distance(den * r, num) <= den * pow2(top),
{
    lemma2_to64();
    lemma2_to64_rest();
    lemma_nearest_scaled(Format::Double, num, den, c);
    lemma_off_by_half(Format::Double, num, den, top);
    a.over(b).parts().magnitude(Format::Double)
}

/// What a product is off by, where it stands to the unit as `num` to `den`.
pub proof fn lemma_times(a: F64, b: F64, x: nat, y: nat, num: nat, den: nat, c: nat, top: nat) -> (r: nat)
    requires
        holds(Format::Double, a.parts(), x),
        holds(Format::Double, b.parts(), y),
        x * y == num * c,
        pow2(1074) == den * c,
        den > 0,
        c > 0,
        num < den * pow2(53 + top),
        top < 2000,
    ensures
        holds(Format::Double, a.times(b).parts(), r),
        2 * distance(den * r, num) <= den * pow2(top),
{
    lemma2_to64();
    lemma2_to64_rest();
    lemma_nearest_scaled(Format::Double, num, den, c);
    lemma_off_by_half(Format::Double, num, den, top);
    a.times(b).parts().magnitude(Format::Double)
}

/// What a sum is off by, where it lies in the upper half of the range of its precision.
pub proof fn lemma_plus(a: F64, b: F64, x: nat, y: nat, top: nat) -> (digits: nat)
    requires
        holds(Format::Double, a.parts(), x),
        holds(Format::Double, b.parts(), y),
        pow2(52 + top) <= x + y < pow2(53 + top),
        0 < top < 2000,
    ensures
        holds(Format::Double, a.plus(b).parts(), digits * pow2(top)),
        2 * distance(digits * pow2(top), x + y) <= pow2(top),
{
    lemma2_to64();
    lemma2_to64_rest();
    lemma_pow2_pos(52 + top);
    lemma_off_by_half(Format::Double, x + y, 1, top);
    assert(is_quantum(Format::Double, x + y, 1, top));
    lemma_on_grid(Format::Double, x + y, 1, top)
}

/// The same of a difference.
pub proof fn lemma_minus(a: F64, b: F64, x: nat, y: nat, top: nat) -> (digits: nat)
    requires
        holds(Format::Double, a.parts(), x),
        holds(Format::Double, b.parts(), y),
        pow2(52 + top) <= x - y < pow2(53 + top),
        0 < top < 2000,
    ensures
        holds(Format::Double, a.minus(b).parts(), digits * pow2(top)),
        2 * distance(digits * pow2(top), (x - y) as nat) <= pow2(top),
{
    lemma2_to64();
    lemma2_to64_rest();
    lemma_pow2_pos(52 + top);
    let n = (x - y) as nat;
    lemma_off_by_half(Format::Double, n, 1, top);
    assert(is_quantum(Format::Double, n, 1, top));
    lemma_on_grid(Format::Double, n, 1, top)
}

/// A difference with few digits is exact.
pub proof fn lemma_minus_exact(a: F64, b: F64, x: nat, y: nat, digits: nat, top: nat)
    requires
        holds(Format::Double, a.parts(), x),
        holds(Format::Double, b.parts(), y),
        x == y + digits * pow2(top),
        digits < 0x20_0000_0000_0000,
        top < 2000,
    ensures
        holds(Format::Double, a.minus(b).parts(), digits * pow2(top)),
{
    lemma2_to64();
    lemma2_to64_rest();
    lemma_exact(Format::Double, digits, top);
}

/// A number that lies within a small part of a whole one is that whole number in single precision,
/// once it is rounded.
pub proof fn lemma_back(a: F64, m: nat, n: nat)
    requires
        holds(Format::Double, a.parts(), m),
        n <= 8500,
        distance(m, n * pow2(1074)) <= 0x4_0000 * grain(),
    ensures
        a.to_f32_number().nearest_whole().trunc(u32::MAX as nat) == n,
{
    lemma2_to64();
    lemma2_to64_rest();
    lemma_grains(53);
    let unit = pow2(1074);
    let p = pow2(149);
    let h = pow2(138);
    lemma_pow2_adds(11, 138);
    lemma_pow2_adds(1, 138);
    lemma_pow2_adds(14, 149);
    lemma_pow2_pos(138);
    let g = grain();
    assert(unit == 0x20_0000_0000_0000 * g);
    assert(p == 2048 * h);
    assert(n * unit == n * (0x20_0000_0000_0000 * g));
    assert(m * p < unit * pow2(163)) by (nonlinear_arith)
        requires
            m <= n * unit + 0x4_0000 * g,
            unit == 0x20_0000_0000_0000 * g,
            n <= 8500,
            g > 0,
            p > 0,
            pow2(163) == 0x4000 * p,
    {
        assert(n * unit <= 8500 * unit);
        assert(m < 0x4000 * unit);
        assert(m * p < (0x4000 * unit) * p);
    }
    lemma_off_by_half(Format::Single, m * p, unit, 139);
    let s = magnitude(Format::Single, nearest(Format::Single, m * p, unit));
    let single = a.to_f32_number();
    assert(holds(Format::Single, single.parts(), s));
    // Counted in grains times `h`, both errors are constants.
    let gh = g * h;
    assert(unit * pow2(139) == 2 * (0x20_0000_0000_0000 * gh)) by (nonlinear_arith)
        requires
            unit == 0x20_0000_0000_0000 * g,
            pow2(139) == 2 * h,
            gh == g * h,
    ;
    let whole = n * p;
    assert(unit * whole == (n * unit) * p) by (nonlinear_arith)
        requires
            whole == n * p,
    ;
    assert(distance(m * p, unit * whole) <= 0x4_0000 * (2048 * gh)) by (nonlinear_arith)
        requires
            distance(m, n * unit) <= 0x4_0000 * g,
            m <= n * unit ==> n * unit - m == distance(m, n * unit),
            m >= n * unit ==> m - n * unit == distance(m, n * unit),
            m * p <= unit * whole ==> distance(m * p, unit * whole) == unit * whole - m * p,
            m * p >= unit * whole ==> distance(m * p, unit * whole) == m * p - unit * whole,
            unit * whole == (n * unit) * p,
            p == 2048 * h,
            gh == g * h,
            h > 0,
    {
        let d = distance(m, n * unit);
        assert(d * p <= (0x4_0000 * g) * p);
        assert((0x4_0000 * g) * p == 0x4_0000 * (2048 * (g * h)));
        if m <= n * unit {
            assert(m * p + d * p == (n * unit) * p);
        } else {
            assert((n * unit) * p + d * p == m * p);
        }
    }
    assert(gh > 0) by (nonlinear_arith)
        requires
            gh == g * h,
            g > 0,
            h > 0,
    ;
    assert(distance(unit * s, unit * whole) < 0x40_0000_0000_0000 * gh);
    assert(distance(s, whole) < 2 * h) by (nonlinear_arith)
        requires
            distance(unit * s, unit * whole) < 0x40_0000_0000_0000 * gh,
            unit * s <= unit * whole ==> distance(unit * s, unit * whole) == unit * whole - unit * s,
            unit * s >= unit * whole ==> distance(unit * s, unit * whole) == unit * s - unit * whole,
            s <= whole ==> distance(s, whole) == whole - s,
            s >= whole ==> distance(s, whole) == s - whole,
            unit == 0x20_0000_0000_0000 * g,
            gh == g * h,
            g > 0,
    {
        let d = distance(s, whole);
        if d >= 2 * h {
            assert(unit * d >= unit * (2 * h));
            assert(unit * (2 * h) == 0x40_0000_0000_0000 * (g * h));
            if s <= whole {
                assert(unit * s + unit * d == unit * whole);
            } else {
                assert(unit * whole + unit * d == unit * s);
            }
        }
    }
    // Half a tile is much more.
    assert(n * (2 * p) == 2 * whole) by (nonlinear_arith)
        requires
            whole == n * p,
    ;
    lemma_fundamental_div_mod_converse(
        (2 * s + p) as int,
        (2 * p) as int,
        n as int,
        2 * s - 2 * whole + p,
    );
    lemma_exact(Format::Single, n, 149);
    lemma_fundamental_div_mod_converse(whole as int, p as int, n as int, 0);
}

/// What an encoding holds, by its two fields.
pub proof fn lemma_encoded(bits: u64, field: nat, low: nat)
    requires
        bits == field * 0x10_0000_0000_0000 + low,
        0 < field < 2047,
        low < 0x10_0000_0000_0000,
    ensures
        holds(
            Format::Double,
            F64 { bits }.parts(),
            (low + 0x10_0000_0000_0000) as nat * pow2((field - 1) as nat),
        ),
{
    lemma2_to64();
    lemma2_to64_rest();
    lemma_fundamental_div_mod_converse(
        bits as int,
        0x10_0000_0000_0000,
        field as int,
        low as int,
    );
}

/// The borders of the map in grains.
pub proof fn lemma_borders()
    ensures
        holds(Format::Double, F64 { bits: BBOX_MIN_LON }.parts(), 0x230_0000_0000_0000 * grain()),
        holds(Format::Double, F64 { bits: BBOX_MAX_LON }.parts(), 0x280_0000_0000_0000 * grain()),
        holds(Format::Double, F64 { bits: BBOX_MIN_LAT }.parts(), 0x759_9999_9999_9980 * grain()),
        holds(Format::Double, F64 { bits: BBOX_MAX_LAT }.parts(), 0x779_9999_9999_9980 * grain()),
{
    lemma2_to64();
    lemma_grains(5);
    lemma_grains(6);
    let g = grain();
    let tick = pow2(1026);
    let tock = pow2(1027);
    assert(tick == 32 * g);
    assert(tock == 64 * g);
    lemma_encoded(BBOX_MIN_LON, 0x403, 0x1_8000_0000_0000);
    assert(0x11_8000_0000_0000nat * tick == 0x230_0000_0000_0000 * g) by (nonlinear_arith)
        requires
            tick == 32 * g,
    ;
    lemma_encoded(BBOX_MAX_LON, 0x403, 0x4_0000_0000_0000);
    assert(0x14_0000_0000_0000nat * tick == 0x280_0000_0000_0000 * g) by (nonlinear_arith)
        requires
            tick == 32 * g,
    ;
    lemma_encoded(BBOX_MIN_LAT, 0x404, 0xd_6666_6666_6666);
    assert(0x1d_6666_6666_6666nat * tock == 0x759_9999_9999_9980 * g) by (nonlinear_arith)
        requires
            tock == 64 * g,
    ;
    lemma_encoded(BBOX_MAX_LAT, 0x404, 0xd_e666_6666_6666);
    assert(0x1d_e666_6666_6666nat * tock == 0x779_9999_9999_9980 * g) by (nonlinear_arith)
        requires
            tock == 64 * g,
    ;
}

/// From the west to the east border, exactly.
pub proof fn lemma_breadth()
    ensures
        holds(
            Format::Double,
            F64 { bits: BBOX_MAX_LON }.minus(F64 { bits: BBOX_MIN_LON }).parts(),
            5 * pow2(1073),
        ),
{
    lemma2_to64();
    lemma2_to64_rest();
    lemma_borders();
    lemma_grains(52);
    lemma_minus_exact(
        F64 { bits: BBOX_MAX_LON },
        F64 { bits: BBOX_MIN_LON },
        0x280_0000_0000_0000 * grain(),
        0x230_0000_0000_0000 * grain(),
        5,
        1073,
    );
}

/// From the north to the south border, exactly.
pub proof fn lemma_height()
    ensures
        holds(
            Format::Double,
            F64 { bits: BBOX_MAX_LAT }.minus(F64 { bits: BBOX_MIN_LAT }).parts(),
            pow2(1074),
        ),
{
    lemma2_to64();
    lemma2_to64_rest();
    lemma_borders();
    lemma_grains(53);
    lemma_minus_exact(
        F64 { bits: BBOX_MAX_LAT },
        F64 { bits: BBOX_MIN_LAT },
        0x779_9999_9999_9980 * grain(),
        0x759_9999_9999_9980 * grain(),
        1,
        1074,
    );
}

/// The longitude of a column, and what it is off by: the exact one is two and a half degrees times
/// the column's part of the width.
pub proof fn lemma_from_west(at: F64, m: nat) -> (digits: nat)
    requires
        holds(Format::Double, at.parts(), m),
        m <= 8501 * pow2(1074),
    ensures
        ({
            let west = F64 { bits: BBOX_MIN_LON };
            let span = F64 { bits: BBOX_MAX_LON }.minus(west);
            holds(
                Format::Double,
                west.plus(at.over(F64::of_nat(8500)).times(span)).parts(),
                digits * pow2(1026),
            )
        }),
        distance(
            3400 * (digits * pow2(1026)),
            3400 * (0x230_0000_0000_0000 * grain()) + m,
        ) <= 69700 * grain(),
{
    lemma2_to64();
    lemma2_to64_rest();
    lemma_borders();
    lemma_breadth();
    lemma_whole_double(8500);
    lemma_grains(1);
    lemma_grains(2);
    lemma_grains(5);
    lemma_grains(52);
    lemma_grains(53);
    lemma_grains(54);
    lemma_grains(55);
    lemma_grains(57);
    lemma_grains(58);
    let unit = pow2(1074);
    let half = pow2(1073);
    let west = F64 { bits: BBOX_MIN_LON };
    let span = F64 { bits: BBOX_MAX_LON }.minus(west);
    let width = F64::of_nat(8500);
    let a = lemma_over(at, width, m, 8500 * unit, m, 8500, unit, 1022);
    assert(a * (5 * half) == (5 * a) * half) by (nonlinear_arith);
    let b = lemma_times(at.over(width), span, a, 5 * half, 5 * a, 2, half, 1023);
    lemma_plus(west, at.over(width).times(span), 0x230_0000_0000_0000 * grain(), b, 1026)
}

/// The latitude of a row, and what it is off by: the exact one is one degree times the row's part
/// of the height, from the north.
pub proof fn lemma_from_north(at: F64, m: nat) -> (digits: nat)
    requires
        holds(Format::Double, at.parts(), m),
        m <= 5501 * pow2(1074),
    ensures
        ({
            let north = F64 { bits: BBOX_MAX_LAT };
            let span = north.minus(F64 { bits: BBOX_MIN_LAT });
            holds(
                Format::Double,
                north.minus(at.over(F64::of_nat(5500)).times(span)).parts(),
                digits * pow2(1027),
            )
        }),
        distance(
            5500 * (digits * pow2(1027)) + m,
            5500 * (0x779_9999_9999_9980 * grain()),
        ) <= 192500 * grain(),
{
    lemma2_to64();
    lemma2_to64_rest();
    lemma_borders();
    lemma_height();
    lemma_whole_double(5500);
    lemma_grains(1);
    lemma_grains(6);
    lemma_grains(53);
    lemma_grains(54);
    lemma_grains(58);
    lemma_grains(59);
    let unit = pow2(1074);
    let north = F64 { bits: BBOX_MAX_LAT };
    let span = north.minus(F64 { bits: BBOX_MIN_LAT });
    let height = F64::of_nat(5500);
    let a = lemma_over(at, height, m, 5500 * unit, m, 5500, unit, 1022);
    let b = lemma_times(at.over(height), span, a, unit, a, 1, unit, 1022);
    lemma_minus(north, at.over(height).times(span), 0x779_9999_9999_9980 * grain(), b, 1027)
}

} // verus!
