//! Results of operations against exact arithmetic, with signs.

use vstd::arithmetic::div_mod::lemma_fundamental_div_mod_converse;
use vstd::arithmetic::power2::{lemma_pow2_adds, lemma_pow2_pos, lemma_pow2_unfold, pow2};
use vstd::prelude::*;

use super::error::{distance, lemma_digits, lemma_exact, lemma_off_by_half};
use super::laws::{lemma_fields, lemma_nearest_scaled, lemma_zero};
use super::model::{
    magnitude, nearest, product, quotient, sum, Format, Parts,
};
use super::ops::quantum_exists;
use super::order::lemma_nearest_zero;
use super::{F32, F64};

verus! {

/// How far two integers lie apart.
pub open spec fn apart(a: int, b: int) -> int {
    if a < b {
        b - a
    } else {
        a - b
    }
}

/// An integer without its sign.
pub open spec fn size(a: int) -> int {
    apart(a, 0)
}

impl F32 {
    /// What a finite number stands for, in parts of one of which there are two to the power of 149.
    pub open spec fn exact(self) -> int {
        self.parts().value(Format::Single)
    }
}

impl F64 {
    /// What a finite number stands for, in parts of one of which there are two to the power of
    /// 1074.
    pub open spec fn exact(self) -> int {
        self.parts().value(Format::Double)
    }
}

/// Whether a coordinate lies on a tile, which reaches from its number up to the next.
pub open spec fn lies_on(v: F32, n: int) -> bool {
    v.is_finite_number() && n * pow2(149) <= v.exact() < (n + 1) * pow2(149)
}

/// The number of the tile that a coordinate lies on is the coordinate without its fraction.
pub proof fn lemma_lies_on(v: F32, n: int)
    requires
        lies_on(v, n),
        0 <= n <= u32::MAX,
    ensures
        v.trunc(u32::MAX as nat) == n,
{
    let unit = pow2(149);
    lemma_pow2_pos(149);
    lemma_zero(Format::Single);
    assert(n * unit >= 0) by (nonlinear_arith)
        requires
            n >= 0,
    ;
    assert((n + 1) * unit == n * unit + unit) by (nonlinear_arith);
    if v.parts().neg {
        assert(v.exact() == 0);
        if n > 0 {
            assert(n * unit > 0) by (nonlinear_arith)
                requires
                    n > 0,
                    unit > 0,
            ;
        }
    } else {
        lemma_fundamental_div_mod_converse(v.exact(), unit as int, n, v.exact() - n * unit);
    }
}

/// Every coordinate that is not negative lies on some tile.
pub proof fn lemma_on_some_tile(v: F32) -> (n: int)
    requires
        v.is_finite_number(),
        v.exact() >= 0,
    ensures
        lies_on(v, n),
        n >= 0,
{
    let unit = pow2(149) as int;
    lemma_pow2_pos(149);
    let e = v.exact();
    let n = e / unit;
    assert(n * unit <= e < (n + 1) * unit && n >= 0) by (nonlinear_arith)
        requires
            n == e / unit,
            unit > 0,
            e >= 0,
    ;
    n
}

/// Rounding is off by one part in two to the power of the precision, or by half of the smallest
/// magnitude.
pub proof fn lemma_off_by_part(f: Format, num: nat, den: nat)
    requires
        den > 0,
        nearest(f, num, den) < f.infinity(),
    ensures
        ({
            let off = distance(den * magnitude(f, nearest(f, num, den)), num);
            pow2(f.precision()) * off <= num || 2 * off <= den
        }),
{
    let k = quantum_exists(f, num, den);
    let digits = lemma_digits(f, num, den, k);
    let p = f.precision();
    let off = distance(den * magnitude(f, nearest(f, num, den)), num);
    if k == 0 {
        vstd::arithmetic::power2::lemma2_to64();
        assert(den * pow2(0) == den);
    } else {
        lemma_pow2_adds((p - 1) as nat, k);
        lemma_pow2_unfold(p);
        let half = pow2((p - 1) as nat);
        assert(pow2(p) * off <= den * (half * pow2(k))) by (nonlinear_arith)
            requires
                pow2(p) == 2 * half,
                2 * off <= den * pow2(k),
        {
            assert(pow2(p) * off == half * (2 * off));
            assert(half * (2 * off) <= half * (den * pow2(k)));
        }
    }
}

/// A finite sum is off by one part in two to the power of the precision at most.
pub proof fn lemma_sum_off(f: Format, a: Parts, b: Parts)
    requires
        a.is_finite(f),
        b.is_finite(f),
        sum(f, a, b).is_finite(f),
    ensures
        pow2(f.precision()) * apart(sum(f, a, b).value(f), a.value(f) + b.value(f)) <= size(
            a.value(f) + b.value(f),
        ),
{
    let num = size(a.value(f) + b.value(f)) as nat;
    lemma_zero(f);
    lemma_nearest_zero(f, 1);
    lemma_off_by_part(f, num, 1);
    assert(pow2(f.precision()) * 0 == 0);
}

/// A sum whose exact value is not too large is finite, and off by no more than that.
pub proof fn lemma_sum_near(f: Format, a: Parts, b: Parts, top: nat)
    requires
        a.is_finite(f),
        b.is_finite(f),
        size(a.value(f) + b.value(f)) < pow2(f.precision() + top),
        (top + 2) * pow2(f.fraction()) < f.infinity(),
    ensures
        sum(f, a, b).is_finite(f),
        pow2(f.precision()) * apart(sum(f, a, b).value(f), a.value(f) + b.value(f)) <= size(
            a.value(f) + b.value(f),
        ),
{
    lemma_off_by_half(f, size(a.value(f) + b.value(f)) as nat, 1, top);
    lemma_pow2_pos(f.fraction());
    lemma_sum_off(f, a, b);
}

/// The same of a product, in which what is smaller than the smallest magnitude may be lost.
pub proof fn lemma_product_near(f: Format, a: Parts, b: Parts)
    requires
        a.is_finite(f),
        b.is_finite(f),
        product(f, a, b).is_finite(f),
    ensures
        ({
            let unit = pow2(f.unit());
            let off = apart(product(f, a, b).value(f) * unit, a.value(f) * b.value(f));
            pow2(f.precision()) * off <= size(a.value(f)) * size(b.value(f)) || 2 * off <= unit
        }),
{
    let unit = pow2(f.unit());
    lemma_pow2_pos(f.unit());
    let (m, n) = (a.magnitude(f), b.magnitude(f));
    let r = magnitude(f, nearest(f, m * n, unit));
    lemma_off_by_part(f, m * n, unit);
    assert(unit * r == r * unit) by (nonlinear_arith);
    assert((-(m as int)) * n == -((m * n) as int)) by (nonlinear_arith);
    assert((m as int) * (-(n as int)) == -((m * n) as int)) by (nonlinear_arith);
    assert((-(m as int)) * (-(n as int)) == (m * n) as int) by (nonlinear_arith);
    assert((-(r as int)) * unit == -((r * unit) as int)) by (nonlinear_arith);
    assert(r * unit >= 0 && m * n >= 0) by (nonlinear_arith);
}

/// The same of a quotient.
pub proof fn lemma_quotient_near(f: Format, a: Parts, b: Parts)
    requires
        a.is_finite(f),
        b.is_finite(f),
        b.value(f) != 0,
        quotient(f, a, b).is_finite(f),
    ensures
        ({
            let unit = pow2(f.unit());
            let off = apart(quotient(f, a, b).value(f) * b.value(f), a.value(f) * unit);
            pow2(f.precision()) * off <= size(a.value(f)) * unit || 2 * off <= size(b.value(f))
        }),
{
    let unit = pow2(f.unit());
    lemma_zero(f);
    let (m, n) = (a.magnitude(f), b.magnitude(f));
    let r = magnitude(f, nearest(f, m * unit, n));
    lemma_off_by_part(f, m * unit, n);
    assert(n * r == r * n) by (nonlinear_arith);
    assert((-(m as int)) * unit == -((m * unit) as int)) by (nonlinear_arith);
    assert((r as int) * (-(n as int)) == -((r * n) as int)) by (nonlinear_arith);
    assert((-(r as int)) * (-(n as int)) == (r * n) as int) by (nonlinear_arith);
    assert((-(r as int)) * n == -((r * n) as int)) by (nonlinear_arith);
    assert(r * n >= 0 && m * unit >= 0) by (nonlinear_arith);
}

/// A single precision number is the same one in double precision.
pub proof fn lemma_same_in_double(v: F32)
    requires
        v.is_finite_number(),
    ensures
        v.to_f64_number().is_finite_number(),
        v.to_f64_number().exact() == v.exact() * pow2(925),
        size(v.exact()) < pow2(277),
{
    let f = Format::Double;
    let m = v.parts().magnitude(Format::Single);
    let (d, k) = lemma_fields(Format::Single, v.parts().abs as nat);
    vstd::arithmetic::power2::lemma2_to64();
    vstd::arithmetic::power2::lemma2_to64_rest();
    lemma_pow2_pos(149);
    lemma_pow2_pos(k);
    lemma_pow2_adds(925, 149);
    lemma_pow2_adds(k, 925);
    assert(v.parts().abs == k * 0x80_0000 + d);
    assert(k <= 253);
    super::bits::lemma_pow2_le(k, 253);
    lemma_pow2_adds(24, 253);
    assert(m < pow2(277)) by (nonlinear_arith)
        requires
            m == d * pow2(k),
            d < pow2(24),
            0 < pow2(k) <= pow2(253),
            pow2(277) == pow2(24) * pow2(253),
    {
        assert(d * pow2(k) <= d * pow2(253));
        assert(d * pow2(253) < pow2(24) * pow2(253));
    }
    let r = m * pow2(925);
    assert(r == d * pow2(k + 925)) by (nonlinear_arith)
        requires
            r == m * pow2(925),
            m == d * pow2(k),
            pow2(k + 925) == pow2(k) * pow2(925),
    ;
    assert((k + 925 + 2) * 0x10_0000_0000_0000 <= 1180 * 0x10_0000_0000_0000) by (nonlinear_arith)
        requires
            k <= 253,
    ;
    lemma_exact(f, d, k + 925);
    assert(m * pow2(1074) == r * pow2(149)) by (nonlinear_arith)
        requires
            r == m * pow2(925),
            pow2(1074) == pow2(925) * pow2(149),
    ;
    assert(1 * pow2(149) == pow2(149));
    lemma_nearest_scaled(f, r, 1, pow2(149));
    assert((-(m as int)) * pow2(925) == -((m * pow2(925)) as int)) by (nonlinear_arith);
}

/// Differences and sums of numbers that are not too large are off by little.
pub proof fn lemma_doubles_near(a: F64, b: F64)
    requires
        a.is_finite_number(),
        b.is_finite_number(),
        size(a.exact()) <= pow2(1600),
        size(b.exact()) <= pow2(1600),
    ensures
        a.minus(b).is_finite_number(),
        0x20_0000_0000_0000 * apart(a.minus(b).exact(), a.exact() - b.exact()) <= size(
            a.exact() - b.exact(),
        ),
        a.plus(b).is_finite_number(),
        0x20_0000_0000_0000 * apart(a.plus(b).exact(), a.exact() + b.exact()) <= size(
            a.exact() + b.exact(),
        ),
{
    vstd::arithmetic::power2::lemma2_to64();
    vstd::arithmetic::power2::lemma2_to64_rest();
    lemma_pow2_adds(2, 1600);
    lemma_pow2_pos(1600);
    vstd::arithmetic::power2::lemma_pow2_strictly_increases(1602, 1653);
    assert(b.negative().exact() == -b.exact());
    lemma_sum_near(Format::Double, a.parts(), b.negative().parts(), 1600);
    lemma_sum_near(Format::Double, a.parts(), b.parts(), 1600);
}

/// A double precision number in single precision is off by one part in two to the power of 24, or
/// by half of the smallest magnitude.
pub proof fn lemma_converted_near(v: F64)
    requires
        v.is_finite_number(),
        size(v.exact()) <= 0x1000_0000 * pow2(1074),
    ensures
        v.to_f32_number().is_finite_number(),
        0x100_0000 * apart(v.to_f32_number().exact() * pow2(925), v.exact()) <= size(v.exact())
            + 0x100_0000 * pow2(925),
{
    let f = Format::Single;
    let m = v.parts().magnitude(Format::Double);
    let (small, large) = (pow2(149), pow2(1074));
    let k = pow2(925);
    vstd::arithmetic::power2::lemma2_to64();
    vstd::arithmetic::power2::lemma2_to64_rest();
    lemma_pow2_pos(149);
    lemma_pow2_pos(925);
    lemma_pow2_pos(1074);
    lemma_pow2_adds(925, 149);
    lemma_pow2_adds(28, 149);
    vstd::arithmetic::power2::lemma_pow2_strictly_increases(177, 224);
    assert(m * small < large * pow2(224)) by (nonlinear_arith)
        requires
            m <= 0x1000_0000 * large,
            0x1000_0000 * small < pow2(224),
            large > 0,
            small > 0,
    {
        assert(m * small <= (0x1000_0000 * large) * small);
        assert((0x1000_0000 * large) * small == large * (0x1000_0000 * small));
        assert(large * (0x1000_0000 * small) < large * pow2(224));
    }
    lemma_off_by_half(f, m * small, large, 200);
    lemma_off_by_part(f, m * small, large);
    let r = magnitude(f, nearest(f, m * small, large));
    let off = apart((r * k) as int, m as int);
    assert(distance(large * r, m * small) == off * small) by (nonlinear_arith)
        requires
            large == k * small,
            off == r * k - m || off == m - r * k,
            off >= 0,
            small > 0,
            distance(large * r, m * small) == large * r - m * small || distance(
                large * r,
                m * small,
            ) == m * small - large * r,
            distance(large * r, m * small) >= 0,
    {
        assert(large * r == (r * k) * small);
        assert(off * small == (r * k) * small - m * small || off * small == m * small - (r * k)
            * small);
        assert(off * small >= 0);
    }
    assert(0x100_0000 * off <= m + 0x100_0000 * k) by (nonlinear_arith)
        requires
            0x100_0000 * (off * small) <= m * small || 2 * (off * small) <= large,
            large == k * small,
            small > 0,
            off >= 0,
            m >= 0,
            k >= 0,
    {
        if 0x100_0000 * (off * small) <= m * small {
            assert((0x100_0000 * off) * small <= m * small);
        } else {
            assert((2 * off) * small <= k * small);
        }
    }
    assert((-(r as int)) * k == -((r * k) as int)) by (nonlinear_arith);
}

} // verus!
