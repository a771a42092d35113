//! What the encodings and the rounding keep.

use vstd::arithmetic::div_mod::{
    lemma_div_is_ordered, lemma_fundamental_div_mod, lemma_fundamental_div_mod_converse,
};
use vstd::arithmetic::power2::{
    lemma2_to64, lemma2_to64_rest, lemma_pow2_adds, lemma_pow2_pos, lemma_pow2_unfold, pow2,
};
use vstd::prelude::*;

use super::bits::lemma_pow2_le;
use super::model::{less, less_or_equal, magnitude, nearest, round_half_even, Format, Parts};
use super::ops::quantum_exists;
use super::round::{lemma_kept_digits, lemma_quantum_is, lemma_round_scaled};

verus! {

/// A finite encoding apart: its digits, and the power of two that they count.
pub proof fn lemma_fields(f: Format, abs: nat) -> (r: (nat, nat))
    requires
        abs < f.infinity(),
    ensures
        magnitude(f, abs) == r.0 * pow2(r.1),
        abs == r.1 * pow2(f.fraction()) + r.0,
        r.0 < pow2(f.precision()),
        r.1 > 0 ==> r.0 >= pow2(f.fraction()),
{
    lemma2_to64();
    lemma2_to64_rest();
    let hidden = pow2(f.fraction());
    lemma_pow2_unfold(f.precision());
    if abs < hidden {
        assert(abs * pow2(0) == abs);
        (abs, 0)
    } else {
        lemma_fundamental_div_mod(abs as int, hidden as int);
        let field = abs / hidden;
        let low = abs % hidden;
        assert(field >= 1) by (nonlinear_arith)
            requires
                abs == hidden * field + low,
                low < hidden,
                abs >= hidden,
        ;
        assert((field - 1) * hidden + (low + hidden) == abs) by (nonlinear_arith)
            requires
                abs == hidden * field + low,
        ;
        ((low + hidden) as nat, (field - 1) as nat)
    }
}

/// A representable number is rounded to itself.
pub proof fn lemma_representable(f: Format, abs: nat)
    requires
        abs < f.infinity(),
    ensures
        nearest(f, magnitude(f, abs), 1) == abs,
{
    let (m, k) = lemma_fields(f, abs);
    let num = m * pow2(k);
    lemma_pow2_pos(k);
    lemma_pow2_adds(f.precision(), k);
    assert(num < 1 * pow2(f.precision() + k)) by (nonlinear_arith)
        requires
            num == m * pow2(k),
            m < pow2(f.precision()),
            pow2(f.precision() + k) == pow2(f.precision()) * pow2(k),
            pow2(k) > 0,
    ;
    if k > 0 {
        lemma_pow2_adds(f.fraction(), k);
        assert(f.precision() + k - 1 == f.fraction() + k);
        assert(num >= 1 * pow2((f.precision() + k - 1) as nat)) by (nonlinear_arith)
            requires
                num == m * pow2(k),
                m >= pow2(f.fraction()),
                pow2((f.precision() + k - 1) as nat) == pow2(f.fraction()) * pow2(k),
        ;
    }
    lemma_quantum_is(f, num, 1, k);
    assert(1 * pow2(k) == pow2(k));
    lemma_fundamental_div_mod_converse(num as int, pow2(k) as int, m as int, 0);
}

/// Larger numbers have larger encodings.
pub proof fn lemma_nearest_monotone(f: Format, a: nat, b: nat, den: nat)
    requires
        a <= b,
        den > 0,
    ensures
        nearest(f, a, den) <= nearest(f, b, den),
{
    let ka = quantum_exists(f, a, den);
    let kb = quantum_exists(f, b, den);
    lemma_quantum_is(f, a, den, ka);
    lemma_quantum_is(f, b, den, kb);
    let p = f.precision();
    let hidden = pow2(f.fraction());
    lemma_pow2_unfold(p);
    lemma_pow2_pos(f.fraction());
    lemma_pow2_pos(ka);
    lemma_pow2_pos(kb);
    if ka > kb {
        lemma_pow2_le((p + kb) as nat, (p + ka - 1) as nat);
        assert(den * pow2((p + kb) as nat) <= den * pow2((p + ka - 1) as nat)) by (nonlinear_arith)
            requires
                pow2((p + kb) as nat) <= pow2((p + ka - 1) as nat),
        ;
        assert(false);
    }
    let da = den * pow2(ka);
    assert(da > 0) by (nonlinear_arith)
        requires
            da == den * pow2(ka),
            den > 0,
            pow2(ka) > 0,
    ;
    if ka == kb {
        lemma_round_monotone(a, b, da);
    } else {
        // The smaller one keeps at most twice the hidden digit, the larger one at least one more
        // step.
        lemma_kept_digits(f, b, den, kb);
        lemma_pow2_adds(p, ka);
        lemma_fundamental_div_mod(a as int, da as int);
        assert(a / da < pow2(p)) by (nonlinear_arith)
            requires
                a == da * (a / da) + a % da,
                a % da >= 0,
                a < den * pow2(p + ka),
                pow2(p + ka) == pow2(p) * pow2(ka),
                da == den * pow2(ka),
                da > 0,
        {
            let q = a / da;
            if q >= pow2(p) {
                assert(da * q >= da * pow2(p));
                assert(da * pow2(p) == den * (pow2(p) * pow2(ka)));
            }
        }
        assert(kb * hidden >= ka * hidden + hidden) by (nonlinear_arith)
            requires
                kb >= ka + 1,
        ;
    }
}

proof fn lemma_round_monotone(a: nat, b: nat, d: nat)
    requires
        a <= b,
        d > 0,
    ensures
        round_half_even(a, d) <= round_half_even(b, d),
{
    lemma_div_is_ordered(a as int, b as int, d as int);
    lemma_fundamental_div_mod(a as int, d as int);
    lemma_fundamental_div_mod(b as int, d as int);
}

/// Encodings of one sign are ordered like the magnitudes they stand for.
pub proof fn lemma_magnitude_monotone(f: Format, a: nat, b: nat)
    requires
        a < b < f.infinity(),
    ensures
        magnitude(f, a) < magnitude(f, b),
{
    if magnitude(f, a) >= magnitude(f, b) {
        lemma_nearest_monotone(f, magnitude(f, b), magnitude(f, a), 1);
        lemma_representable(f, a);
        lemma_representable(f, b);
    }
}

/// The order of finite numbers is the order of the values they stand for.
pub proof fn lemma_order_of_values(f: Format, a: Parts, b: Parts)
    requires
        a.is_finite(f),
        b.is_finite(f),
    ensures
        less(f, a, b) <==> a.value(f) < b.value(f),
        less_or_equal(f, a, b) <==> a.value(f) <= b.value(f),
{
    lemma_zero(f);
    if a.abs < b.abs {
        lemma_magnitude_monotone(f, a.abs as nat, b.abs as nat);
    }
    if b.abs < a.abs {
        lemma_magnitude_monotone(f, b.abs as nat, a.abs as nat);
    }
    if a.abs > 0 {
        lemma_magnitude_monotone(f, 0, a.abs as nat);
    }
    if b.abs > 0 {
        lemma_magnitude_monotone(f, 0, b.abs as nat);
    }
}

/// The zeros stand for zero.
pub proof fn lemma_zero(f: Format)
    ensures
        magnitude(f, 0) == 0,
{
    lemma_pow2_pos(f.fraction());
}

/// Rounding looks at the ratio alone.
pub proof fn lemma_nearest_scaled(f: Format, num: nat, den: nat, c: nat)
    requires
        den > 0,
        c > 0,
    ensures
        nearest(f, num * c, den * c) == nearest(f, num, den),
{
    let k = quantum_exists(f, num, den);
    lemma_quantum_is(f, num, den, k);
    let p = f.precision();
    let hi = pow2(p + k);
    assert(num * c < (den * c) * hi) by (nonlinear_arith)
        requires
            num < den * hi,
            c > 0,
    ;
    if k > 0 {
        let lo = pow2((p + k - 1) as nat);
        assert(num * c >= (den * c) * lo) by (nonlinear_arith)
            requires
                num >= den * lo,
                c > 0,
        ;
    }
    lemma_quantum_is(f, num * c, den * c, k);
    lemma_pow2_pos(k);
    let d = den * pow2(k);
    assert(d > 0) by (nonlinear_arith)
        requires
            d == den * pow2(k),
            den > 0,
            pow2(k) > 0,
    ;
    assert((den * c) * pow2(k) == d * c) by (nonlinear_arith)
        requires
            d == den * pow2(k),
    ;
    lemma_round_scaled(num, d, c);
}

/// Twice a number is its encoding one power of two further up.
pub proof fn lemma_twice(f: Format, abs: nat)
    requires
        pow2(f.fraction()) <= abs,
        abs + pow2(f.fraction()) < f.infinity(),
    ensures
        magnitude(f, abs + pow2(f.fraction())) == 2 * magnitude(f, abs),
{
    let hidden = pow2(f.fraction());
    lemma_pow2_pos(f.fraction());
    lemma_fundamental_div_mod(abs as int, hidden as int);
    let q = abs / hidden;
    let r = abs % hidden;
    assert(abs + hidden == (q + 1) * hidden + r) by (nonlinear_arith)
        requires
            abs == hidden * q + r,
    ;
    lemma_fundamental_div_mod_converse((abs + hidden) as int, hidden as int, (q + 1) as int, r as int);
    assert(q >= 1) by (nonlinear_arith)
        requires
            abs == hidden * q + r,
            r < hidden,
            abs >= hidden,
    ;
    lemma_pow2_unfold(q);
    assert((r + hidden) * pow2(q) == 2 * ((r + hidden) * pow2((q - 1) as nat))) by (nonlinear_arith)
        requires
            pow2(q) == 2 * pow2((q - 1) as nat),
    ;
}

} // verus!
