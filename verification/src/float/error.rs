//! How far a rounded result lies from the exact one.

use vstd::arithmetic::div_mod::{lemma_fundamental_div_mod, lemma_fundamental_div_mod_converse};
use vstd::arithmetic::power2::{
    lemma2_to64, lemma_pow2_adds, lemma_pow2_pos, lemma_pow2_unfold, pow2,
};
use vstd::prelude::*;

use super::bits::lemma_pow2_le;
use super::laws::lemma_fields;
use super::model::{is_quantum, magnitude, nearest, round_half_even, Format};
use super::ops::quantum_exists;
use super::round::{lemma_kept_digits, lemma_quantum_is};

verus! {

/// How far two numbers lie apart.
pub open spec fn distance(a: nat, b: nat) -> nat {
    if a < b {
        (b - a) as nat
    } else {
        (a - b) as nat
    }
}

/// Rounding keeps so many digits, and leaves out less than half of the last one.
pub proof fn lemma_digits(f: Format, num: nat, den: nat, k: nat) -> (digits: nat)
    requires
        den > 0,
        is_quantum(f, num, den, k),
    ensures
        (k + 2) * pow2(f.fraction()) < f.infinity() ==> nearest(f, num, den) < f.infinity(),
        nearest(f, num, den) < f.infinity() ==> magnitude(f, nearest(f, num, den)) == digits * pow2(
            k,
        ),
        digits == round_half_even(num, den * pow2(k)),
        digits <= pow2(f.precision()),
        2 * distance(den * (digits * pow2(k)), num) <= den * pow2(k),
{
    lemma_quantum_is(f, num, den, k);
    let p = f.precision();
    let hidden = pow2(f.fraction());
    let d = den * pow2(k);
    let digits = round_half_even(num, d);
    lemma_pow2_unfold(p);
    lemma_pow2_pos(f.fraction());
    lemma_pow2_pos(k);
    lemma_pow2_adds(p, k);
    assert(d > 0) by (nonlinear_arith)
        requires
            d == den * pow2(k),
            den > 0,
            pow2(k) > 0,
    ;
    lemma_fundamental_div_mod(num as int, d as int);
    let q = num / d;
    assert(q < pow2(p)) by (nonlinear_arith)
        requires
            num == d * q + num % d,
            num % d >= 0,
            num < den * pow2(p + k),
            pow2(p + k) == pow2(p) * pow2(k),
            d == den * pow2(k),
            d > 0,
    {
        if q >= pow2(p) {
            assert(d * q >= d * pow2(p));
            assert(d * pow2(p) == den * (pow2(p) * pow2(k)));
        }
    }
    if k > 0 {
        lemma_kept_digits(f, num, den, k);
    }
    assert(den * (digits * pow2(k)) == d * digits) by (nonlinear_arith)
        requires
            d == den * pow2(k),
    ;
    assert(digits == q ==> d * digits == d * q);
    assert(digits == q + 1 ==> d * digits == d * q + d) by (nonlinear_arith);
    let abs = (k * hidden + digits) as nat;
    assert(abs <= (k + 2) * hidden) by (nonlinear_arith)
        requires
            abs == k * hidden + digits,
            digits <= 2 * hidden,
    ;
    if digits < hidden {
        assert(k == 0);
        lemma2_to64();
        assert(0 * hidden == 0);
        assert(digits * 1 == digits);
    } else if digits < 2 * hidden {
        assert(abs == (k + 1) * hidden + (digits - hidden)) by (nonlinear_arith)
            requires
                abs == k * hidden + digits,
        ;
        assert((k + 1) * hidden >= hidden) by (nonlinear_arith)
            requires
                k >= 0,
        ;
        lemma_fundamental_div_mod_converse(
            abs as int,
            hidden as int,
            (k + 1) as int,
            (digits - hidden) as int,
        );
    } else {
        assert(abs == (k + 2) * hidden) by (nonlinear_arith)
            requires
                abs == k * hidden + digits,
                digits == 2 * hidden,
        ;
        assert((k + 2) * hidden >= hidden) by (nonlinear_arith)
            requires
                k >= 0,
        ;
        lemma_fundamental_div_mod_converse(abs as int, hidden as int, (k + 2) as int, 0);
        lemma_pow2_unfold(k + 1);
        assert(hidden * pow2(k + 1) == digits * pow2(k)) by (nonlinear_arith)
            requires
                digits == 2 * hidden,
                pow2(k + 1) == 2 * pow2(k),
        ;
    }
    digits
}

/// No representable number is nearer to the exact result than the rounded one.
pub proof fn lemma_nothing_nearer(f: Format, num: nat, den: nat, other: nat)
    requires
        den > 0,
        nearest(f, num, den) < f.infinity(),
        other < f.infinity(),
    ensures
        distance(den * magnitude(f, nearest(f, num, den)), num) <= distance(
            den * magnitude(f, other),
            num,
        ),
{
    let k = quantum_exists(f, num, den);
    let digits = lemma_digits(f, num, den, k);
    let (m, j) = lemma_fields(f, other);
    lemma_pow2_pos(k);
    if j >= k {
        let more = (j - k) as nat;
        lemma_pow2_adds(more, k);
        assert(m * pow2(j) == (m * pow2(more)) * pow2(k)) by (nonlinear_arith)
            requires
                pow2(j) == pow2(more) * pow2(k),
        ;
        lemma_grid_nearest(num, den, pow2(k), digits, m * pow2(more));
    } else {
        // The other number lies below a point of the grid that is itself not above the exact
        // result.
        let p = f.precision();
        let hidden = pow2(f.fraction());
        lemma_pow2_adds(f.fraction(), k);
        assert(p + k - 1 == f.fraction() + k);
        lemma_pow2_adds(p, j);
        lemma_pow2_le(p + j, (p + k - 1) as nat);
        lemma_pow2_pos(j);
        assert(m * pow2(j) <= hidden * pow2(k)) by (nonlinear_arith)
            requires
                m < pow2(p),
                pow2(p) * pow2(j) <= hidden * pow2(k),
                pow2(j) > 0,
        ;
        assert(den * (m * pow2(j)) <= den * (hidden * pow2(k))) by (nonlinear_arith)
            requires
                m * pow2(j) <= hidden * pow2(k),
        ;
        lemma_grid_nearest(num, den, pow2(k), digits, hidden);
    }
}

/// No multiple of `unit` is nearer than the one that was rounded to.
proof fn lemma_grid_nearest(num: nat, den: nat, unit: nat, digits: nat, other: nat)
    requires
        den > 0,
        unit > 0,
        2 * distance(den * (digits * unit), num) <= den * unit,
    ensures
        distance(den * (digits * unit), num) <= distance(den * (other * unit), num),
{
    let d = den * unit;
    assert(den * (digits * unit) == d * digits) by (nonlinear_arith)
        requires
            d == den * unit,
    ;
    assert(den * (other * unit) == d * other) by (nonlinear_arith)
        requires
            d == den * unit,
    ;
    assert(d > 0) by (nonlinear_arith)
        requires
            d == den * unit,
            den > 0,
            unit > 0,
    ;
    if other > digits {
        assert(d * other >= d * digits + d) by (nonlinear_arith)
            requires
                other >= digits + 1,
        ;
    } else if other < digits {
        assert(d * other + d <= d * digits) by (nonlinear_arith)
            requires
                other + 1 <= digits,
        ;
    }
}

/// A result below two to the power of the precision and `top` is off by half of two to the power
/// of `top` at most.
pub proof fn lemma_off_by_half(f: Format, num: nat, den: nat, top: nat)
    requires
        den > 0,
        num < den * pow2(f.precision() + top),
        (top + 2) * pow2(f.fraction()) < f.infinity(),
    ensures
        nearest(f, num, den) < f.infinity(),
        2 * distance(den * magnitude(f, nearest(f, num, den)), num) <= den * pow2(top),
{
    let k = quantum_exists(f, num, den);
    let p = f.precision();
    if k > top {
        lemma_pow2_le(p + top, (p + k - 1) as nat);
        assert(den * pow2(p + top) <= den * pow2((p + k - 1) as nat)) by (nonlinear_arith)
            requires
                pow2(p + top) <= pow2((p + k - 1) as nat),
        ;
    }
    lemma_pow2_pos(f.fraction());
    assert((k + 2) * pow2(f.fraction()) <= (top + 2) * pow2(f.fraction())) by (nonlinear_arith)
        requires
            k <= top,
    ;
    let digits = lemma_digits(f, num, den, k);
    lemma_pow2_le(k, top);
    assert(den * pow2(k) <= den * pow2(top)) by (nonlinear_arith)
        requires
            pow2(k) <= pow2(top),
    ;
}

/// A result in the upper half of that range is a multiple of two to the power of `top`.
pub proof fn lemma_on_grid(f: Format, num: nat, den: nat, top: nat) -> (digits: nat)
    requires
        den > 0,
        is_quantum(f, num, den, top),
        (top + 2) * pow2(f.fraction()) < f.infinity(),
    ensures
        magnitude(f, nearest(f, num, den)) == digits * pow2(top),
{
    lemma_digits(f, num, den, top)
}

/// A number with no more digits than the format holds is exact.
pub proof fn lemma_exact(f: Format, digits: nat, top: nat)
    requires
        digits < pow2(f.precision()),
        (top + 2) * pow2(f.fraction()) < f.infinity(),
    ensures
        nearest(f, digits * pow2(top), 1) < f.infinity(),
        magnitude(f, nearest(f, digits * pow2(top), 1)) == digits * pow2(top),
{
    let num = digits * pow2(top);
    let p = f.precision();
    lemma_pow2_pos(top);
    lemma_pow2_adds(p, top);
    assert(num < pow2(p + top)) by (nonlinear_arith)
        requires
            num == digits * pow2(top),
            digits < pow2(p),
            pow2(p + top) == pow2(p) * pow2(top),
            pow2(top) > 0,
    ;
    let k = quantum_exists(f, num, 1);
    if k > top {
        lemma_pow2_le(p + top, (p + k - 1) as nat);
    }
    lemma_pow2_pos(f.fraction());
    assert((k + 2) * pow2(f.fraction()) <= (top + 2) * pow2(f.fraction())) by (nonlinear_arith)
        requires
            k <= top,
    ;
    let kept = lemma_digits(f, num, 1, k);
    let more = (top - k) as nat;
    lemma_pow2_adds(more, k);
    lemma_pow2_pos(k);
    assert(1 * pow2(k) == pow2(k));
    assert(num == (digits * pow2(more)) * pow2(k)) by (nonlinear_arith)
        requires
            num == digits * pow2(top),
            pow2(top) == pow2(more) * pow2(k),
    ;
    lemma_fundamental_div_mod_converse(
        num as int,
        pow2(k) as int,
        (digits * pow2(more)) as int,
        0,
    );
}

} // verus!
