//! Operations keep the order of numbers.

use vstd::arithmetic::div_mod::{lemma_div_is_ordered, lemma_fundamental_div_mod_converse};
use vstd::arithmetic::power2::{lemma_pow2_pos, pow2};
use vstd::prelude::*;

use super::laws::{
    lemma_magnitude_monotone, lemma_nearest_monotone, lemma_nearest_scaled, lemma_order_of_values,
    lemma_representable, lemma_zero,
};
use super::model::{
    converted, infinite, less_or_equal, nearest, negated, product, quotient, rounded, sum,
    to_nearest_whole, truncated, Format, Parts,
};

verus! {

/// The place on the number line that `v / den` is rounded to.
pub open spec fn rounded_key(f: Format, v: int, den: nat) -> int {
    if v < 0 {
        -(nearest(f, (-v) as nat, den) as int)
    } else {
        nearest(f, v as nat, den) as int
    }
}

/// Larger numbers are rounded to larger ones, none beyond the infinities, and zero to zero.
proof fn lemma_rounded_key(f: Format, v: int, w: int, den: nat)
    requires
        v <= w,
        den > 0,
    ensures
        rounded_key(f, v, den) <= rounded_key(f, w, den),
        -f.infinity() <= rounded_key(f, v, den) <= f.infinity(),
        -f.infinity() <= rounded_key(f, w, den) <= f.infinity(),
{
    if v >= 0 {
        lemma_nearest_monotone(f, v as nat, w as nat, den);
    } else if w < 0 {
        lemma_nearest_monotone(f, (-w) as nat, (-v) as nat, den);
    }
}

/// Zero is rounded to zero.
pub proof fn lemma_nearest_zero(f: Format, den: nat)
    requires
        den > 0,
    ensures
        nearest(f, 0, den) == 0,
{
    lemma_zero(f);
    lemma_representable(f, 0);
    lemma_nearest_scaled(f, 0, 1, den);
    assert(0 * den == 0 && 1 * den == den);
}

/// Larger numbers have larger sums with a finite one.
pub proof fn lemma_sum_ordered(f: Format, a1: Parts, a2: Parts, b: Parts)
    requires
        less_or_equal(f, a1, a2),
        b.is_finite(f),
    ensures
        less_or_equal(f, sum(f, a1, b), sum(f, a2, b)),
{
    lemma_nearest_zero(f, 1);
    let v1 = a1.value(f) + b.value(f);
    let v2 = a2.value(f) + b.value(f);
    lemma_rounded_key(f, v1, v1, 1);
    lemma_rounded_key(f, v2, v2, 1);
    if a1.is_finite(f) && a2.is_finite(f) {
        lemma_order_of_values(f, a1, a2);
        lemma_rounded_key(f, v1, v2, 1);
    }
    if a1.is_finite(f) {
        assert(sum(f, a1, b).key() == rounded_key(f, v1, 1));
    }
    if a2.is_finite(f) {
        assert(sum(f, a2, b).key() == rounded_key(f, v2, 1));
    }
}

/// A number that may be infinite times `num / den`, rounded.
spec fn scaled(from: Format, to: Format, a: Parts, num: nat, den: nat) -> Parts {
    if a.is_infinite(from) {
        infinite(to, a.neg)
    } else {
        rounded(to, a.neg, a.magnitude(from) * num, den)
    }
}

proof fn lemma_scaled_ordered(from: Format, to: Format, a1: Parts, a2: Parts, num: nat, den: nat)
    requires
        less_or_equal(from, a1, a2),
        den > 0,
    ensures
        less_or_equal(to, scaled(from, to, a1, num, den), scaled(from, to, a2, num, den)),
{
    lemma_nearest_zero(to, den);
    let v1 = a1.value(from) * num;
    let v2 = a2.value(from) * num;
    lemma_rounded_key(to, v1, v1, den);
    lemma_rounded_key(to, v2, v2, den);
    if a1.is_finite(from) {
        lemma_scaled_key(from, to, a1, num, den);
    }
    if a2.is_finite(from) {
        lemma_scaled_key(from, to, a2, num, den);
    }
    if a1.is_finite(from) && a2.is_finite(from) {
        lemma_order_of_values(from, a1, a2);
        let (x, y) = (a1.value(from), a2.value(from));
        assert(x * num <= y * num) by (nonlinear_arith)
            requires
                x <= y,
                num >= 0,
        ;
        lemma_rounded_key(to, v1, v2, den);
    }
}

proof fn lemma_scaled_key(from: Format, to: Format, a: Parts, num: nat, den: nat)
    requires
        a.is_finite(from),
        den > 0,
    ensures
        scaled(from, to, a, num, den).key() == rounded_key(to, a.value(from) * num, den),
{
    lemma_nearest_zero(to, den);
    let m = a.magnitude(from);
    assert((-(m as int)) * num == -((m * num) as int)) by (nonlinear_arith);
    assert(m * num >= 0) by (nonlinear_arith);
}

/// Larger numbers have larger quotients by a positive finite one.
pub proof fn lemma_quotient_ordered(f: Format, a1: Parts, a2: Parts, b: Parts)
    requires
        less_or_equal(f, a1, a2),
        b.is_finite(f),
        !b.neg,
        b.abs > 0,
    ensures
        less_or_equal(f, quotient(f, a1, b), quotient(f, a2, b)),
{
    lemma_zero(f);
    lemma_magnitude_monotone(f, 0, b.abs as nat);
    lemma_scaled_ordered(f, f, a1, a2, pow2(f.unit()), b.magnitude(f));
}

/// Larger numbers have larger products with a positive finite one.
pub proof fn lemma_product_ordered(f: Format, a1: Parts, a2: Parts, b: Parts)
    requires
        less_or_equal(f, a1, a2),
        b.is_finite(f),
        !b.neg,
        b.abs > 0,
    ensures
        less_or_equal(f, product(f, a1, b), product(f, a2, b)),
{
    lemma_pow2_pos(f.unit());
    lemma_scaled_ordered(f, f, a1, a2, b.magnitude(f), pow2(f.unit()));
}

/// Larger numbers are larger in another format, too.
pub proof fn lemma_converted_ordered(from: Format, to: Format, a1: Parts, a2: Parts)
    requires
        less_or_equal(from, a1, a2),
    ensures
        less_or_equal(to, converted(from, to, a1), converted(from, to, a2)),
{
    lemma_pow2_pos(from.unit());
    lemma_scaled_ordered(from, to, a1, a2, pow2(to.unit()), pow2(from.unit()));
}

/// The negatives of numbers are ordered the other way round.
pub proof fn lemma_negated_ordered(f: Format, a1: Parts, a2: Parts)
    requires
        less_or_equal(f, a1, a2),
    ensures
        less_or_equal(f, negated(a2), negated(a1)),
{
}

/// Larger numbers have larger nearest integers.
pub proof fn lemma_whole_ordered(f: Format, a1: Parts, a2: Parts)
    requires
        less_or_equal(f, a1, a2),
    ensures
        less_or_equal(f, to_nearest_whole(f, a1), to_nearest_whole(f, a2)),
{
    let unit = pow2(f.unit());
    lemma_pow2_pos(f.unit());
    lemma_nearest_zero(f, 1);
    let v1 = whole_value(f, a1);
    let v2 = whole_value(f, a2);
    lemma_rounded_key(f, v1, v1, 1);
    lemma_rounded_key(f, v2, v2, 1);
    if a1.is_finite(f) {
        lemma_whole_key(f, a1);
    }
    if a2.is_finite(f) {
        lemma_whole_key(f, a2);
    }
    if a1.is_finite(f) && a2.is_finite(f) {
        lemma_whole_values(f, a1, a2);
        lemma_rounded_key(f, v1, v2, 1);
    }
}

/// The integer nearest to the magnitude of a finite number.
spec fn whole_magnitude(f: Format, a: Parts) -> nat {
    (2 * a.magnitude(f) + pow2(f.unit())) / (2 * pow2(f.unit()))
}

/// The integer nearest to a finite number, in units.
spec fn whole_value(f: Format, a: Parts) -> int {
    let m = whole_magnitude(f, a) * pow2(f.unit());
    if a.neg {
        -(m as int)
    } else {
        m as int
    }
}

proof fn lemma_whole_key(f: Format, a: Parts)
    requires
        a.is_finite(f),
    ensures
        to_nearest_whole(f, a).key() == rounded_key(f, whole_value(f, a), 1),
{
    lemma_nearest_zero(f, 1);
}

proof fn lemma_whole_values(f: Format, a1: Parts, a2: Parts)
    requires
        less_or_equal(f, a1, a2),
        a1.is_finite(f),
        a2.is_finite(f),
    ensures
        whole_value(f, a1) <= whole_value(f, a2),
{
    let unit = pow2(f.unit());
    lemma_pow2_pos(f.unit());
    let n1 = whole_magnitude(f, a1);
    let n2 = whole_magnitude(f, a2);
    if a1.abs <= a2.abs {
        lemma_whole_magnitudes(f, a1, a2);
    }
    if a2.abs <= a1.abs {
        lemma_whole_magnitudes(f, a2, a1);
    }
    assert(n1 <= n2 ==> n1 * unit <= n2 * unit) by (nonlinear_arith);
    assert(n2 <= n1 ==> n2 * unit <= n1 * unit) by (nonlinear_arith);
    if a1.abs == 0 {
        lemma_zero(f);
        lemma_fundamental_div_mod_converse(unit as int, (2 * unit) as int, 0, unit as int);
        assert(n1 == 0);
        assert(0 * unit == 0);
    }
    if a2.abs == 0 {
        lemma_zero(f);
        lemma_fundamental_div_mod_converse(unit as int, (2 * unit) as int, 0, unit as int);
        assert(n2 == 0);
        assert(0 * unit == 0);
    }
}

proof fn lemma_whole_magnitudes(f: Format, a1: Parts, a2: Parts)
    requires
        a1.abs <= a2.abs,
        a2.is_finite(f),
    ensures
        whole_magnitude(f, a1) <= whole_magnitude(f, a2),
{
    let unit = pow2(f.unit());
    lemma_pow2_pos(f.unit());
    if a1.abs < a2.abs {
        lemma_magnitude_monotone(f, a1.abs as nat, a2.abs as nat);
    }
    lemma_div_is_ordered(
        (2 * a1.magnitude(f) + unit) as int,
        (2 * a2.magnitude(f) + unit) as int,
        (2 * unit) as int,
    );
}

/// Larger numbers are not smaller without their fractions.
pub proof fn lemma_truncated_ordered(f: Format, a1: Parts, a2: Parts, max: nat)
    requires
        less_or_equal(f, a1, a2),
    ensures
        truncated(f, a1, max) <= truncated(f, a2, max),
{
    let unit = pow2(f.unit());
    lemma_pow2_pos(f.unit());
    lemma_zero(f);
    if a1.abs == 0 {
        lemma_fundamental_div_mod_converse(0, unit as int, 0, 0);
    }
    if !a1.neg && !a2.neg && a2.is_finite(f) {
        if a1.abs < a2.abs {
            lemma_magnitude_monotone(f, a1.abs as nat, a2.abs as nat);
        }
        lemma_div_is_ordered(a1.magnitude(f) as int, a2.magnitude(f) as int, unit as int);
    }
}

} // verus!
