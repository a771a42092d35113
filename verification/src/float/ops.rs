//! The operations, on numbers split in sign and magnitude.

use vstd::arithmetic::div_mod::{lemma_fundamental_div_mod, lemma_fundamental_div_mod_converse};
use vstd::arithmetic::power2::{
    lemma2_to64, lemma2_to64_rest, lemma_pow2_adds, lemma_pow2_pos, lemma_pow2_unfold, pow2,
};
use vstd::prelude::*;

use super::bits::{bit_length, lemma_pow2_128, lemma_pow2_le, shift_left, shift_right};
use super::model::{
    converted, is_root, less, less_or_equal, magnitude, nearest, negated, not_a_number, product,
    quotient, root, square_root, sum, to_nearest_whole, truncated, whole, is_quantum, Format, Parts,
};
use super::round::{fraction_bits, infinity_bits, located, lemma_quantum_is, round, unit_bits};

verus! {

/// A magnitude as `digits` times two to the power of `exponent`.
struct Decoded {
    digits: u64,
    exponent: u32,
}

/// Takes the encoding of a finite magnitude apart.
fn decode(f: Format, abs: u64) -> (r: Decoded)
    requires
        abs < f.infinity(),
    ensures
        magnitude(f, abs as nat) == r.digits * pow2(r.exponent as nat),
        r.digits < pow2(f.precision()),
        r.exponent > 0 ==> r.digits >= pow2(f.fraction()),
        r.exponent <= 2045,
        f is Single ==> r.exponent <= 253,
        r.digits == 0 <==> abs == 0,
{
    let fraction: u32 = fraction_bits(f);
    proof {
        lemma2_to64();
        lemma2_to64_rest();
        lemma_pow2_unfold(f.precision());
    }
    let field: u64 = shift_right(abs as u128, fraction) as u64;
    let ghost hidden = pow2(f.fraction());
    proof {
        lemma_fundamental_div_mod(abs as int, hidden as int);
        assert(field <= 2046) by (nonlinear_arith)
            requires
                abs == hidden * field + abs as int % hidden as int,
                abs as int % hidden as int >= 0,
                abs < f.infinity(),
                (hidden == 0x80_0000 && f.infinity() == 0x7f80_0000) || (hidden == 0x10_0000_0000_0000
                    && f.infinity() == 0x7ff0_0000_0000_0000),
        ;
        assert(f is Single ==> field <= 254) by (nonlinear_arith)
            requires
                abs == hidden * field + abs as int % hidden as int,
                abs as int % hidden as int >= 0,
                abs < f.infinity(),
                f is Single ==> (hidden == 0x80_0000 && f.infinity() == 0x7f80_0000),
        ;
        assert(field * hidden == hidden * field) by (nonlinear_arith);
        if abs < hidden {
            assert(field == 0) by (nonlinear_arith)
                requires
                    abs == hidden * field + abs as int % hidden as int,
                    abs as int % hidden as int >= 0,
                    abs < hidden,
                    hidden > 0,
                    field >= 0,
            ;
        } else {
            assert(field != 0) by (nonlinear_arith)
                requires
                    abs == hidden * field + abs as int % hidden as int,
                    (abs as int % hidden as int) < hidden,
                    abs >= hidden,
            ;
        }
    }
    let low: u64 = abs - shift_left(field as u128, fraction) as u64;
    if field == 0 {
        proof {
            assert(low * 1 == low);
        }
        Decoded { digits: low, exponent: 0 }
    } else {
        Decoded { digits: low + shift_left(1, fraction) as u64, exponent: (field - 1) as u32 }
    }
}

/// A multiple of a power of two lies on the grid of that power.
proof fn lemma_located_exact(m: nat, a: nat, b: nat)
    ensures
        located(m * pow2(a), pow2(b), m, a - b, false),
{
    let e = a - b;
    let x: nat = if e < 0 { (-e) as nat } else { 0 };
    let y: nat = if e < 0 { 0 } else { e as nat };
    lemma_pow2_pos(a);
    lemma_pow2_pos(b);
    lemma_pow2_pos(x);
    lemma_pow2_pos(y);
    lemma_pow2_adds(a, x);
    lemma_pow2_adds(b, y);
    assert(a + x == b + y);
    let d = pow2(b) * pow2(y);
    assert(d > 0) by (nonlinear_arith)
        requires
            d == pow2(b) * pow2(y),
            pow2(b) > 0,
            pow2(y) > 0,
    ;
    assert((m * pow2(a)) * pow2(x) == m * d) by (nonlinear_arith)
        requires
            pow2(a) * pow2(x) == d,
    ;
    lemma_fundamental_div_mod_converse(((m * pow2(a)) * pow2(x)) as int, d as int, m as int, 0);
}

/// Rounds `m` times two to the power of `a - b`.
fn round_exact(f: Format, m: u128, a: u32, b: u32) -> (r: u64)
    requires
        m < pow2(127),
        a < 6000,
        b < 2000,
        -4000 < a - b < 4000,
    ensures
        r == nearest(f, m as nat * pow2(a as nat), pow2(b as nat)),
{
    if m == 0 {
        proof {
            lemma_pow2_pos(b as nat);
            lemma_nearest_zero(f, pow2(b as nat));
        }
        return 0;
    }
    proof {
        lemma_pow2_pos(b as nat);
        lemma_located_exact(m as nat, a as nat, b as nat);
    }
    round(f, m, a as i32 - b as i32, false, Ghost(m as nat * pow2(a as nat)), Ghost(pow2(b as nat)))
}

/// Zero is representable.
proof fn lemma_nearest_zero(f: Format, den: nat)
    requires
        den > 0,
    ensures
        nearest(f, 0, den) == 0,
{
    lemma_pow2_pos(f.precision());
    lemma2_to64();
    assert(den * pow2(f.precision()) > 0) by (nonlinear_arith)
        requires
            den > 0,
            pow2(f.precision()) > 0,
    ;
    lemma_quantum_is(f, 0, den, 0);
    assert(den * pow2(0) == den);
    vstd::arithmetic::div_mod::lemma_div_basics(den as int);
    lemma_fundamental_div_mod_converse(0, den as int, 0, 0);
}

/// Sum or difference of two magnitudes, the first of them on the coarser grid.
///
/// The flag tells that the second magnitude was the larger one of a difference.
fn combine(f: Format, hi: Decoded, lo: Decoded, opposed: bool) -> (r: (bool, u64))
    requires
        hi.digits < pow2(53),
        lo.digits < pow2(53),
        hi.exponent >= lo.exponent,
        hi.exponent <= 2045,
        hi.exponent > 0 ==> hi.digits >= pow2(22),
    ensures
        ({
            let x = hi.digits * pow2(hi.exponent as nat);
            let y = lo.digits * pow2(lo.exponent as nat);
            let exact: int = if opposed { x - y } else { x + y };
            &&& r.0 == (exact < 0)
            &&& r.1 == nearest(f, if exact < 0 { (-exact) as nat } else { exact as nat }, 1)
        }),
{
    let d: u32 = hi.exponent - lo.exponent;
    let ghost x = hi.digits * pow2(hi.exponent as nat);
    let ghost y = lo.digits * pow2(lo.exponent as nat);
    let ghost exact: int = if opposed { x - y } else { x + y };
    proof {
        lemma2_to64();
        lemma2_to64_rest();
        lemma_pow2_128();
        lemma_pow2_adds(lo.exponent as nat, d as nat);
        lemma_pow2_pos(lo.exponent as nat);
    }
    if d <= 64 {
        proof {
            lemma_pow2_le(d as nat, 64);
            lemma_pow2_pos(d as nat);
            assert(hi.digits * pow2(d as nat) <= 0x20_0000_0000_0000 * 0x1_0000_0000_0000_0000) by (nonlinear_arith)
                requires
                    hi.digits < 0x20_0000_0000_0000,
                    pow2(d as nat) <= 0x1_0000_0000_0000_0000,
            ;
            assert(x == (hi.digits * pow2(d as nat)) * pow2(lo.exponent as nat)) by (nonlinear_arith)
                requires
                    x == hi.digits * pow2(hi.exponent as nat),
                    pow2(hi.exponent as nat) == pow2(lo.exponent as nat) * pow2(d as nat),
            ;
        }
        let big: u128 = shift_left(hi.digits as u128, d);
        let low: u128 = lo.digits as u128;
        proof {
            assert((big + low) * pow2(lo.exponent as nat) == x + y) by (nonlinear_arith)
                requires
                    x == big * pow2(lo.exponent as nat),
                    y == low * pow2(lo.exponent as nat),
            ;
            assert((big - low) * pow2(lo.exponent as nat) == x - y) by (nonlinear_arith)
                requires
                    x == big * pow2(lo.exponent as nat),
                    y == low * pow2(lo.exponent as nat),
            ;
            assert((low - big) * pow2(lo.exponent as nat) == y - x) by (nonlinear_arith)
                requires
                    x == big * pow2(lo.exponent as nat),
                    y == low * pow2(lo.exponent as nat),
            ;
            assert(low > big ==> (low - big) * pow2(lo.exponent as nat) > 0) by (nonlinear_arith)
                requires
                    pow2(lo.exponent as nat) > 0,
            ;
            assert(low <= big ==> (big - low) * pow2(lo.exponent as nat) >= 0) by (nonlinear_arith)
                requires
                    pow2(lo.exponent as nat) > 0,
            ;
        }
        if !opposed {
            (false, round_exact(f, big + low, lo.exponent, 0))
        } else if low > big {
            (true, round_exact(f, low - big, lo.exponent, 0))
        } else {
            (false, round_exact(f, big - low, lo.exponent, 0))
        }
    } else {
        let e: u32 = hi.exponent - 64;
        let s: u32 = d - 64;
        let big: u128 = shift_left_64(hi.digits);
        let low: u128 = if s >= 128 { 0 } else { shift_right(lo.digits as u128, s) };
        let ghost step = pow2(s as nat);
        proof {
            lemma_pow2_pos(s as nat);
            lemma_fundamental_div_mod(lo.digits as int, step as int);
            if s >= 128 {
                lemma_pow2_le(128, s as nat);
                vstd::arithmetic::div_mod::lemma_basic_div(lo.digits as int, step as int);
            }
            assert(low == lo.digits as nat / step);
            assert(low * step == step * low) by (nonlinear_arith);
            assert(low <= lo.digits) by (nonlinear_arith)
                requires
                    lo.digits == step * low + lo.digits as int % step as int,
                    lo.digits as int % step as int >= 0,
                    step >= 1,
                    low >= 0,
            ;
        }
        let lost: bool = if s >= 128 {
            lo.digits != 0
        } else {
            lo.digits as u128 != shift_left(low, s)
        };
        let ghost rest: nat = (lo.digits as int % step as int) as nat;
        proof {
            if s >= 128 {
                vstd::arithmetic::div_mod::lemma_small_mod(lo.digits as nat, step);
            }
            assert(lost <==> rest != 0);
            // In units of the grid of the smaller number.
            lemma_pow2_adds(64, s as nat);
            assert(x == (big * step) * pow2(lo.exponent as nat)) by (nonlinear_arith)
                requires
                    x == hi.digits * pow2(hi.exponent as nat),
                    big == hi.digits * pow2(64),
                    pow2(hi.exponent as nat) == pow2(lo.exponent as nat) * pow2(d as nat),
                    pow2(d as nat) == pow2(64) * step,
            ;
            assert(big >= pow2(86)) by {
                lemma_pow2_adds(22, 64);
                assert(hi.digits * pow2(64) >= pow2(22) * pow2(64)) by (nonlinear_arith)
                    requires
                        hi.digits >= pow2(22),
                ;
            }
            lemma_pow2_le(54, 86);
            lemma_pow2_le(55, 86);
            lemma_pow2_adds(1, 85);
            lemma_pow2_unfold(86);
        }
        let m: u128 = if !opposed {
            big + low
        } else if lost {
            big - low - 1
        } else {
            big - low
        };
        proof {
            let units: int = if opposed { big * step - lo.digits } else { big * step + lo.digits };
            assert(exact == units * pow2(lo.exponent as nat)) by (nonlinear_arith)
                requires
                    exact == (if opposed { x - y } else { x + y }),
                    x == (big * step) * pow2(lo.exponent as nat),
                    y == lo.digits * pow2(lo.exponent as nat),
                    units == (if opposed { big * step - lo.digits } else { big * step + lo.digits }),
            ;
            let left: nat = if opposed && lost { (step - rest) as nat } else { rest };
            assert(units == m * step + left) by (nonlinear_arith)
                requires
                    lo.digits == step * low + rest,
                    units == (if opposed { big * step - lo.digits } else { big * step + lo.digits }),
                    m == (if !opposed { big + low } else if lost { big - low - 1 } else { big - low }),
                    left == (if opposed && lost { (step - rest) as nat } else { rest }),
                    lost <==> rest != 0,
                    rest < step,
            ;
            assert(m * step >= 0) by (nonlinear_arith)
                requires
                    m >= 0,
                    step > 0,
            ;
            lemma_located_rest(units as nat, step, m as nat, left, lo.exponent as nat, s as nat);
            assert(lo.exponent + s == e);
            assert(exact >= 0) by (nonlinear_arith)
                requires
                    exact == units * pow2(lo.exponent as nat),
                    units >= 0,
                    pow2(lo.exponent as nat) > 0,
            ;
            lemma_pow2_le(f.precision(), 53);
        }
        (false, round(f, m, e as i32, lost, Ghost(exact as nat), Ghost(1)))
    }
}

/// `x` times two to the power of 64.
fn shift_left_64(x: u64) -> (r: u128)
    ensures
        r == x * pow2(64),
{
    proof {
        lemma2_to64_rest();
        lemma2_to64();
        assert(x * pow2(64) <= 0xffff_ffff_ffff_ffff * 0x1_0000_0000_0000_0000) by (nonlinear_arith)
            requires
                x <= 0xffff_ffff_ffff_ffff,
                pow2(64) == 0x1_0000_0000_0000_0000,
        ;
    }
    shift_left(x as u128, 64)
}

/// A number that is not quite on a grid: `m` steps and something left.
proof fn lemma_located_rest(units: nat, step: nat, m: nat, left: nat, low: nat, s: nat)
    requires
        step == pow2(s),
        units == m * step + left,
        left < step,
    ensures
        located(units * pow2(low), 1, m, (low + s) as int, left != 0),
{
    let e = low + s;
    lemma2_to64();
    lemma_pow2_adds(s, low);
    lemma_pow2_pos(low);
    let d = pow2(e);
    let num = units * pow2(low);
    assert(num * pow2(0) == num) by (nonlinear_arith)
        requires
            pow2(0) == 1,
    ;
    assert(1 * d == d);
    let rest = left * pow2(low);
    assert(num == m * d + rest) by (nonlinear_arith)
        requires
            num == units * pow2(low),
            units == m * step + left,
            d == step * pow2(low),
            rest == left * pow2(low),
    ;
    assert(0 <= rest < d) by (nonlinear_arith)
        requires
            rest == left * pow2(low),
            left < step,
            d == step * pow2(low),
            pow2(low) > 0,
    ;
    assert(rest != 0 <==> left != 0) by (nonlinear_arith)
        requires
            rest == left * pow2(low),
            pow2(low) > 0,
    ;
    lemma_fundamental_div_mod_converse(num as int, d as int, m as int, rest as int);
}

/// Whether the number is "not a number".
pub fn is_nan(f: Format, a: Parts) -> (r: bool)
    ensures
        r == a.is_nan(f),
{
    a.abs > infinity_bits(f)
}

fn nan_parts(f: Format) -> (r: Parts)
    ensures
        r == not_a_number(f),
{
    match f {
        Format::Single => Parts { neg: false, abs: 0x7fc0_0000 },
        Format::Double => Parts { neg: false, abs: 0x7ff8_0000_0000_0000 },
    }
}

/// `a + b`.
pub fn add_parts(f: Format, a: Parts, b: Parts) -> (r: Parts)
    ensures
        r == sum(f, a, b),
{
    let inf: u64 = infinity_bits(f);
    if a.abs > inf || b.abs > inf {
        return nan_parts(f);
    }
    if a.abs == inf {
        if b.abs == inf && a.neg != b.neg {
            return nan_parts(f);
        }
        return a;
    }
    if b.abs == inf {
        return b;
    }
    let x: Decoded = decode(f, a.abs);
    let y: Decoded = decode(f, b.abs);
    let opposed: bool = a.neg != b.neg;
    proof {
        lemma_pow2_le(f.precision(), 53);
        lemma_pow2_le(22, f.fraction());
        lemma_magnitude_zero(f, a.abs as nat);
        lemma_magnitude_zero(f, b.abs as nat);
    }
    let a_first: bool = x.exponent >= y.exponent;
    let (swapped, abs): (bool, u64) = if a_first {
        combine(f, x, y, opposed)
    } else {
        combine(f, y, x, opposed)
    };
    let ghost exact = a.value(f) + b.value(f);
    proof {
        let size: nat = if exact < 0 { (-exact) as nat } else { exact as nat };
        assert(abs == nearest(f, size, 1));
        if exact == 0 {
            lemma_nearest_zero(f, 1);
        } else {
            lemma_nearest_positive(f, size);
        }
    }
    if abs == 0 {
        Parts { neg: a.neg && b.neg, abs: 0 }
    } else if a_first {
        Parts { neg: a.neg != swapped, abs }
    } else {
        Parts { neg: b.neg != swapped, abs }
    }
}

/// Only the zeros have no magnitude.
proof fn lemma_magnitude_zero(f: Format, abs: nat)
    requires
        abs < f.infinity(),
    ensures
        magnitude(f, abs) == 0 <==> abs == 0,
{
    lemma2_to64();
    lemma2_to64_rest();
    let hidden = pow2(f.fraction());
    if abs >= hidden {
        lemma_pow2_pos((abs / hidden - 1) as nat);
        assert((abs % hidden + hidden) * pow2((abs / hidden - 1) as nat) > 0) by (nonlinear_arith)
            requires
                hidden > 0,
                abs % hidden >= 0,
                pow2((abs / hidden - 1) as nat) > 0,
        ;
    }
}

/// A whole number of units other than zero does not round to zero.
proof fn lemma_nearest_positive(f: Format, n: nat)
    requires
        n > 0,
    ensures
        nearest(f, n, 1) > 0,
{
    let k = quantum_exists(f, n, 1);
    lemma_quantum_is(f, n, 1, k);
    lemma2_to64();
    lemma2_to64_rest();
    if k == 0 {
        assert(pow2(0) == 1);
        assert(1 * pow2(0) == 1);
        lemma_fundamental_div_mod_converse(n as int, 1, n as int, 0);
    } else {
        assert(k * pow2(f.fraction()) > 0) by (nonlinear_arith)
            requires
                k > 0,
                pow2(f.fraction()) > 0,
        ;
    }
}

/// Every number has neighbours at some distance.
pub proof fn quantum_exists(f: Format, num: nat, den: nat) -> (k: nat)
    requires
        den > 0,
    ensures
        is_quantum(f, num, den, k),
    decreases num,
{
    quantum_below(f, num, den, num)
}

proof fn quantum_below(f: Format, num: nat, den: nat, top: nat) -> (k: nat)
    requires
        den > 0,
        num < den * pow2(f.precision() + top) || top >= num,
    ensures
        is_quantum(f, num, den, k),
    decreases top,
{
    lemma_above(num, den, f.precision() + top);
    if top == 0 || num >= den * pow2((f.precision() + top - 1) as nat) {
        top
    } else {
        quantum_below(f, num, den, (top - 1) as nat)
    }
}

/// Powers of two outgrow their exponents.
proof fn lemma_above(num: nat, den: nat, e: nat)
    requires
        den > 0,
    ensures
        num <= e ==> num < den * pow2(e),
    decreases e,
{
    if e == 0 {
        lemma2_to64();
        assert(den * pow2(0) == den);
    } else {
        lemma_pow2_unfold(e);
        lemma_pow2_pos((e - 1) as nat);
        if num > 0 {
            lemma_above((num - 1) as nat, den, (e - 1) as nat);
        } else {
            lemma_above(0, den, (e - 1) as nat);
        }
        assert(den * pow2(e) == 2 * (den * pow2((e - 1) as nat))) by (nonlinear_arith)
            requires
                pow2(e) == 2 * pow2((e - 1) as nat),
        ;
        assert(den * pow2((e - 1) as nat) > 0) by (nonlinear_arith)
            requires
                den > 0,
                pow2((e - 1) as nat) > 0,
        ;
    }
}

/// `-a`.
pub fn negate_parts(a: Parts) -> (r: Parts)
    ensures
        r == negated(a),
{
    Parts { neg: !a.neg, abs: a.abs }
}

/// `a * b`.
pub fn multiply_parts(f: Format, a: Parts, b: Parts) -> (r: Parts)
    ensures
        r == product(f, a, b),
{
    let inf: u64 = infinity_bits(f);
    let neg: bool = a.neg != b.neg;
    if a.abs > inf || b.abs > inf {
        return nan_parts(f);
    }
    if a.abs == inf || b.abs == inf {
        if a.abs == 0 || b.abs == 0 {
            return nan_parts(f);
        }
        return Parts { neg, abs: inf };
    }
    let x: Decoded = decode(f, a.abs);
    let y: Decoded = decode(f, b.abs);
    let unit: u32 = unit_bits(f);
    proof {
        lemma_pow2_le(f.precision(), 53);
        lemma2_to64();
        lemma2_to64_rest();
        lemma_pow2_128();
        lemma_pow2_adds(x.exponent as nat, y.exponent as nat);
        assert(x.digits * y.digits <= 0x20_0000_0000_0000 * 0x20_0000_0000_0000) by (nonlinear_arith)
            requires
                0 <= x.digits < 0x20_0000_0000_0000,
                0 <= y.digits < 0x20_0000_0000_0000,
        ;
        assert(x.digits * y.digits >= 0) by (nonlinear_arith)
            requires
                0 <= x.digits,
                0 <= y.digits,
        ;
        assert(a.magnitude(f) * b.magnitude(f) == (x.digits * y.digits) * pow2(
            (x.exponent + y.exponent) as nat,
        )) by (nonlinear_arith)
            requires
                a.magnitude(f) == x.digits * pow2(x.exponent as nat),
                b.magnitude(f) == y.digits * pow2(y.exponent as nat),
                pow2((x.exponent + y.exponent) as nat) == pow2(x.exponent as nat) * pow2(y.exponent as nat),
        ;
    }
    let abs: u64 = round_exact(f, x.digits as u128 * y.digits as u128, x.exponent + y.exponent, unit);
    Parts { neg, abs }
}

/// A quotient of decoded numbers on the grid that the long division yields.
proof fn lemma_located_quotient(ma: nat, ea: nat, mb: nat, eb: nat, unit: nat, t: nat, m: nat, sticky: bool)
    requires
        mb > 0,
        t <= ea + unit,
        m == (ma * pow2(t)) / mb,
        sticky <==> (ma * pow2(t)) % mb != 0,
    ensures
        located((ma * pow2(ea)) * pow2(unit), mb * pow2(eb), m, ea - eb + unit - t, sticky),
{
    let e = ea - eb + unit - t;
    let a: nat = if e < 0 { (-e) as nat } else { 0 };
    let b: nat = if e < 0 { 0 } else { e as nat };
    // Both sides carry the same power of two beyond the long division.
    let c: nat = (eb + b) as nat;
    assert(ea + unit + a == t + c);
    lemma_pow2_adds(ea, unit);
    lemma_pow2_adds(ea + unit, a);
    lemma_pow2_adds(t, c);
    lemma_pow2_adds(eb, b);
    lemma_pow2_pos(c);
    let n = ma * pow2(t);
    let left = n % mb;
    lemma_fundamental_div_mod(n as int, mb as int);
    let num = ((ma * pow2(ea)) * pow2(unit)) * pow2(a);
    let den = (mb * pow2(eb)) * pow2(b);
    assert(num == n * pow2(c)) by (nonlinear_arith)
        requires
            num == ((ma * pow2(ea)) * pow2(unit)) * pow2(a),
            n == ma * pow2(t),
            pow2(ea + unit) == pow2(ea) * pow2(unit),
            pow2(ea + unit) * pow2(a) == pow2(t) * pow2(c),
    {
        assert(num == ma * ((pow2(ea) * pow2(unit)) * pow2(a)));
    }
    assert(den == mb * pow2(c)) by (nonlinear_arith)
        requires
            den == (mb * pow2(eb)) * pow2(b),
            pow2(c) == pow2(eb) * pow2(b),
    ;
    let rest = left * pow2(c);
    assert(num == m * den + rest) by (nonlinear_arith)
        requires
            num == n * pow2(c),
            den == mb * pow2(c),
            n == mb * m + left,
            rest == left * pow2(c),
    ;
    assert(0 <= rest < den) by (nonlinear_arith)
        requires
            rest == left * pow2(c),
            den == mb * pow2(c),
            0 <= left < mb,
            pow2(c) > 0,
    ;
    assert(rest != 0 <==> left != 0) by (nonlinear_arith)
        requires
            rest == left * pow2(c),
            pow2(c) > 0,
    ;
    lemma_fundamental_div_mod_converse(num as int, den as int, m as int, rest as int);
}

/// `a / b`.
pub fn divide_parts(f: Format, a: Parts, b: Parts) -> (r: Parts)
    ensures
        r == quotient(f, a, b),
{
    let inf: u64 = infinity_bits(f);
    let neg: bool = a.neg != b.neg;
    if a.abs > inf || b.abs > inf {
        return nan_parts(f);
    }
    if a.abs == inf {
        if b.abs == inf {
            return nan_parts(f);
        }
        return Parts { neg, abs: inf };
    }
    if b.abs == inf {
        return Parts { neg, abs: 0 };
    }
    if b.abs == 0 {
        if a.abs == 0 {
            return nan_parts(f);
        }
        return Parts { neg, abs: inf };
    }
    let x: Decoded = decode(f, a.abs);
    let y: Decoded = decode(f, b.abs);
    proof {
        lemma_magnitude_zero(f, a.abs as nat);
        lemma_magnitude_zero(f, b.abs as nat);
    }
    if a.abs == 0 {
        proof {
            assert(0 * pow2(f.unit()) == 0);
            lemma_nearest_zero(f, b.magnitude(f));
        }
        return Parts { neg, abs: 0 };
    }
    let unit: u32 = unit_bits(f);
    let len: u32 = bit_length(x.digits as u128);
    let ghost p = f.precision();
    proof {
        lemma_pow2_le(p, 53);
        lemma2_to64();
        lemma2_to64_rest();
        lemma_pow2_128();
        assert(len <= 53) by {
            if len > 53 {
                lemma_pow2_le(53, (len - 1) as nat);
            }
        }
    }
    let t: u32 = 117 - len;
    proof {
        lemma_pow2_pos(t as nat);
        lemma_pow2_adds(len as nat, t as nat);
        lemma_pow2_adds((len - 1) as nat, t as nat);
        lemma_pow2_le(117, 127);
        assert(x.digits * pow2(t as nat) < pow2(len as nat) * pow2(t as nat)) by (nonlinear_arith)
            requires
                x.digits < pow2(len as nat),
                pow2(t as nat) > 0,
        ;
        assert(x.digits * pow2(t as nat) >= pow2((len - 1) as nat) * pow2(t as nat)) by (nonlinear_arith)
            requires
                x.digits >= pow2((len - 1) as nat),
        ;
    }
    let n: u128 = shift_left(x.digits as u128, t);
    let m: u128 = n / (y.digits as u128);
    let sticky: bool = n % (y.digits as u128) != 0;
    let e: i32 = x.exponent as i32 - y.exponent as i32 + unit as i32 - t as i32;
    proof {
        lemma_fundamental_div_mod(n as int, y.digits as int);
        lemma_pow2_adds(53, 63);
        lemma_pow2_le(p, 63);
        assert(m >= pow2(63)) by (nonlinear_arith)
            requires
                n == y.digits * m + n as int % y.digits as int,
                (n as int % y.digits as int) < y.digits,
                n >= pow2(116),
                pow2(116) == 0x20_0000_0000_0000 * pow2(63),
                0 < y.digits < 0x20_0000_0000_0000,
        {
            assert(y.digits * (m + 1) > 0x20_0000_0000_0000 * pow2(63));
            if m + 1 <= pow2(63) {
                assert(y.digits * (m + 1) <= 0x20_0000_0000_0000 * pow2(63));
            }
        }
        assert(m <= n) by (nonlinear_arith)
            requires
                n == y.digits * m + n as int % y.digits as int,
                n as int % y.digits as int >= 0,
                y.digits >= 1,
                m >= 0,
        ;
        lemma_located_quotient(
            x.digits as nat,
            x.exponent as nat,
            y.digits as nat,
            y.exponent as nat,
            unit as nat,
            t as nat,
            m as nat,
            sticky,
        );
    }
    let abs: u64 = round(
        f,
        m,
        e,
        sticky,
        Ghost(a.magnitude(f) * pow2(f.unit())),
        Ghost(b.magnitude(f)),
    );
    Parts { neg, abs }
}

/// The largest integer whose square is not above `n`.
fn integer_root(n: u128) -> (r: u128)
    requires
        n < pow2(110),
    ensures
        r * r <= n < (r + 1) * (r + 1),
        r < pow2(55),
{
    let mut r: u128 = 0;
    let mut i: u32 = 55;
    proof {
        lemma2_to64();
        lemma2_to64_rest();
        lemma_pow2_adds(55, 55);
        assert((0 + pow2(55)) * (0 + pow2(55)) == pow2(55) * pow2(55));
    }
    while i > 0
        invariant
            i <= 55,
            r * r <= n,
            n < (r + pow2(i as nat)) * (r + pow2(i as nat)),
            r + pow2(i as nat) <= pow2(55),
            pow2(55) == 0x80_0000_0000_0000,
        decreases i,
    {
        proof {
            lemma_pow2_unfold(i as nat);
            lemma_pow2_pos((i - 1) as nat);
        }
        i = i - 1;
        let candidate: u128 = r + shift_left(1, i);
        proof {
            assert(candidate * candidate <= 0x80_0000_0000_0000 * 0x80_0000_0000_0000) by (nonlinear_arith)
                requires
                    0 <= candidate <= 0x80_0000_0000_0000,
            ;
        }
        if candidate * candidate <= n {
            r = candidate;
        }
    }
    proof {
        lemma2_to64();
    }
    r
}

/// A square root on the grid that the integer root yields.
proof fn lemma_located_root(n: nat, digits: nat, m: nat, e: nat, sticky: bool)
    requires
        n == digits * pow2(2 * e),
        m * m <= digits < (m + 1) * (m + 1),
        sticky <==> digits != m * m,
    ensures
        ({
            let s = root(n);
            located(2 * s + (if s * s == n { 0nat } else { 1nat }), 2, m, e as int, sticky)
        }),
{
    let g = pow2(e);
    lemma_pow2_adds(e, e);
    lemma_pow2_pos(e);
    lemma2_to64();
    // The root of `n` lies between `m` and `m + 1` steps of the grid.
    lemma_root(n);
    let s = root(n);
    assert((m * g) * (m * g) <= n) by (nonlinear_arith)
        requires
            n == digits * (g * g),
            m * m <= digits,
    ;
    assert(n < ((m + 1) * g) * ((m + 1) * g)) by (nonlinear_arith)
        requires
            n == digits * (g * g),
            digits < (m + 1) * (m + 1),
            g > 0,
    ;
    assert(m * g <= s) by {
        if m * g > s {
            assert((m * g) * (m * g) >= (s + 1) * (s + 1)) by (nonlinear_arith)
                requires
                    m * g >= s + 1,
            ;
        }
    }
    assert(s < (m + 1) * g) by {
        if s >= (m + 1) * g {
            assert(s * s >= ((m + 1) * g) * ((m + 1) * g)) by (nonlinear_arith)
                requires
                    s >= (m + 1) * g,
                    (m + 1) * g >= 0,
            ;
        }
    }
    let extra: nat = if s * s == n { 0 } else { 1 };
    let num = 2 * s + extra;
    let rest: nat = (num - m * (2 * g)) as nat;
    assert((m + 1) * g == m * g + g) by (nonlinear_arith);
    assert(m * (2 * g) == 2 * (m * g)) by (nonlinear_arith);
    assert(num * pow2(0) == num) by (nonlinear_arith)
        requires
            pow2(0) == 1,
    ;
    lemma_fundamental_div_mod_converse(num as int, (2 * g) as int, m as int, rest as int);
    if rest == 0 {
        assert(s == m * g && extra == 0);
        assert((m * g) * (m * g) == (m * m) * (g * g)) by (nonlinear_arith);
        assert(digits == m * m) by (nonlinear_arith)
            requires
                digits * (g * g) == (m * m) * (g * g),
                g > 0,
        ;
    } else if digits == m * m {
        assert((m * g) * (m * g) == (m * m) * (g * g)) by (nonlinear_arith);
        assert(n == (m * g) * (m * g));
        assert(s == m * g) by {
            if s > m * g {
                assert(s * s > (m * g) * (m * g)) by (nonlinear_arith)
                    requires
                        s > m * g,
                        m * g >= 0,
                ;
            }
        }
        assert(false);
    }
}

/// Every number has an integer root.
pub proof fn lemma_root(n: nat)
    ensures
        root(n) * root(n) <= n < (root(n) + 1) * (root(n) + 1),
{
    assert(n < (n + 1) * (n + 1)) by (nonlinear_arith);
    let s = root_below(n, n);
    assert(is_root(n, s));
}

proof fn root_below(n: nat, top: nat) -> (s: nat)
    requires
        n < (top + 1) * (top + 1),
    ensures
        s * s <= n < (s + 1) * (s + 1),
    decreases top,
{
    if top * top <= n {
        top
    } else {
        assert(top > 0) by {
            if top == 0 {
                assert(top * top == 0) by (nonlinear_arith)
                    requires
                        top == 0,
                ;
            }
        }
        root_below(n, (top - 1) as nat)
    }
}

/// The square root of `a`.
pub fn root_parts(f: Format, a: Parts) -> (r: Parts)
    ensures
        r == square_root(f, a),
{
    let inf: u64 = infinity_bits(f);
    if a.abs > inf {
        return nan_parts(f);
    }
    if a.abs == 0 {
        return a;
    }
    if a.neg {
        return nan_parts(f);
    }
    if a.abs == inf {
        return a;
    }
    let x: Decoded = decode(f, a.abs);
    let unit: u32 = unit_bits(f);
    let len: u32 = bit_length(x.digits as u128);
    let ghost p = f.precision();
    proof {
        lemma_pow2_le(p, 53);
        lemma2_to64();
        lemma2_to64_rest();
        lemma_pow2_128();
        assert(len <= 53) by {
            if len > 53 {
                lemma_pow2_le(53, (len - 1) as nat);
            }
        }
    }
    let odd: u32 = (x.exponent + unit + len) % 2;
    let t: u32 = 110 - len - odd;
    let e: u32 = (x.exponent + unit - t) / 2;
    proof {
        assert(x.exponent + unit == t + 2 * e);
        lemma_pow2_pos(t as nat);
        lemma_pow2_adds(len as nat, t as nat);
        lemma_pow2_adds((len - 1) as nat, t as nat);
        lemma_pow2_le((len + t) as nat, 110);
        lemma_pow2_le(108, (len + t - 1) as nat);
        lemma_pow2_le(110, 127);
        assert(x.digits * pow2(t as nat) < pow2(len as nat) * pow2(t as nat)) by (nonlinear_arith)
            requires
                x.digits < pow2(len as nat),
                pow2(t as nat) > 0,
        ;
        assert(x.digits * pow2(t as nat) >= pow2((len - 1) as nat) * pow2(t as nat)) by (nonlinear_arith)
            requires
                x.digits >= pow2((len - 1) as nat),
        ;
    }
    let n: u128 = shift_left(x.digits as u128, t);
    let m: u128 = integer_root(n);
    proof {
        assert(m * m <= 0x80_0000_0000_0000 * 0x80_0000_0000_0000) by (nonlinear_arith)
            requires
                0 <= m <= 0x80_0000_0000_0000,
        ;
    }
    let sticky: bool = m * m != n;
    let ghost exact = a.magnitude(f) * pow2(f.unit());
    proof {
        lemma_pow2_adds(x.exponent as nat, unit as nat);
        lemma_pow2_adds(t as nat, (2 * e) as nat);
        assert(exact == n * pow2((2 * e) as nat)) by (nonlinear_arith)
            requires
                exact == (x.digits * pow2(x.exponent as nat)) * pow2(unit as nat),
                pow2(x.exponent as nat) * pow2(unit as nat) == pow2(t as nat) * pow2((2 * e) as nat),
                n == x.digits * pow2(t as nat),
        ;
        lemma_located_root(exact, n as nat, m as nat, e as nat, sticky);
        lemma_pow2_adds(54, 54);
        assert(m >= pow2(53)) by {
            if m < pow2(53) {
                lemma_pow2_unfold(54);
                assert((m + 1) * (m + 1) <= pow2(54) * pow2(54)) by (nonlinear_arith)
                    requires
                        m + 1 <= pow2(54),
                        m >= 0,
                ;
            }
        }
    }
    let ghost s = root(exact);
    let abs: u64 = round(
        f,
        m,
        e as i32,
        sticky,
        Ghost(2 * s + (if s * s == exact { 0nat } else { 1nat })),
        Ghost(2),
    );
    Parts { neg: false, abs }
}

/// Whether `a < b`.
pub fn less_parts(f: Format, a: Parts, b: Parts) -> (r: bool)
    ensures
        r == less(f, a, b),
{
    if is_nan(f, a) || is_nan(f, b) {
        false
    } else if a.neg {
        if b.neg {
            a.abs > b.abs
        } else {
            a.abs > 0 || b.abs > 0
        }
    } else if b.neg {
        false
    } else {
        a.abs < b.abs
    }
}

/// Whether `a <= b`.
pub fn less_or_equal_parts(f: Format, a: Parts, b: Parts) -> (r: bool)
    ensures
        r == less_or_equal(f, a, b),
{
    if is_nan(f, a) || is_nan(f, b) {
        false
    } else {
        !less_parts(f, b, a)
    }
}

/// The integer `n` as a number.
pub fn whole_parts(f: Format, n: u64) -> (r: Parts)
    ensures
        r == whole(f, n as nat),
{
    proof {
        lemma_pow2_128();
        lemma2_to64();
        assert(pow2(0) == 1);
    }
    Parts { neg: false, abs: round_exact(f, n as u128, unit_bits(f), 0) }
}

/// The whole units of `a`, up to `max`.
pub fn truncate_parts(f: Format, a: Parts, max: u64) -> (r: u64)
    ensures
        r == truncated(f, a, max as nat),
{
    if is_nan(f, a) || a.neg {
        return 0;
    }
    if a.abs == infinity_bits(f) {
        return max;
    }
    let x: Decoded = decode(f, a.abs);
    let unit: u32 = unit_bits(f);
    proof {
        lemma2_to64();
        lemma2_to64_rest();
        lemma_pow2_128();
        lemma_pow2_le(f.precision(), 53);
        lemma_pow2_pos(unit as nat);
    }
    if x.exponent >= unit {
        let s: u32 = x.exponent - unit;
        proof {
            lemma_pow2_adds(unit as nat, s as nat);
            lemma_pow2_pos(s as nat);
            assert(a.magnitude(f) == (x.digits * pow2(s as nat)) * pow2(unit as nat)) by (nonlinear_arith)
                requires
                    a.magnitude(f) == x.digits * pow2(x.exponent as nat),
                    pow2(x.exponent as nat) == pow2(unit as nat) * pow2(s as nat),
            ;
            lemma_fundamental_div_mod_converse(
                a.magnitude(f) as int,
                pow2(unit as nat) as int,
                (x.digits * pow2(s as nat)) as int,
                0,
            );
        }
        if s > 64 {
            proof {
                lemma_pow2_le(65, s as nat);
                lemma_pow2_unfold(65);
                assert(x.digits * pow2(s as nat) > 0xffff_ffff_ffff_ffff) by (nonlinear_arith)
                    requires
                        x.digits >= 1,
                        pow2(s as nat) > 0xffff_ffff_ffff_ffff,
                ;
            }
            return max;
        }
        proof {
            lemma_pow2_le(s as nat, 64);
            assert(x.digits * pow2(s as nat) <= 0x20_0000_0000_0000 * 0x1_0000_0000_0000_0000) by (nonlinear_arith)
                requires
                    0 <= x.digits < 0x20_0000_0000_0000,
                    0 < pow2(s as nat) <= 0x1_0000_0000_0000_0000,
            ;
        }
        let n: u128 = shift_left(x.digits as u128, s);
        if n > max as u128 {
            max
        } else {
            n as u64
        }
    } else {
        let s: u32 = unit - x.exponent;
        proof {
            lemma_truncate_below(x.digits as nat, x.exponent as nat, s as nat);
        }
        if s >= 128 {
            proof {
                lemma_pow2_le(128, s as nat);
                vstd::arithmetic::div_mod::lemma_basic_div(x.digits as int, pow2(s as nat) as int);
            }
            return 0;
        }
        let n: u128 = shift_right(x.digits as u128, s);
        proof {
            lemma_pow2_pos(s as nat);
            vstd::arithmetic::div_mod::lemma_div_nonincreasing(x.digits as int, pow2(s as nat) as int);
        }
        if n > max as u128 {
            max
        } else {
            n as u64
        }
    }
}

/// A common power of two leaves a quotient as it is.
proof fn lemma_truncate_below(digits: nat, exponent: nat, s: nat)
    ensures
        (digits * pow2(exponent)) / pow2(exponent + s) == digits / pow2(s),
{
    lemma_pow2_adds(exponent, s);
    lemma_pow2_pos(exponent);
    lemma_pow2_pos(s);
    let q = digits / pow2(s);
    let r = digits % pow2(s);
    lemma_fundamental_div_mod(digits as int, pow2(s) as int);
    assert(digits * pow2(exponent) == q * pow2(exponent + s) + r * pow2(exponent)) by (nonlinear_arith)
        requires
            digits == pow2(s) * q + r,
            pow2(exponent + s) == pow2(exponent) * pow2(s),
    ;
    assert(0 <= r * pow2(exponent) < pow2(exponent + s)) by (nonlinear_arith)
        requires
            0 <= r < pow2(s),
            pow2(exponent + s) == pow2(exponent) * pow2(s),
            pow2(exponent) > 0,
    ;
    lemma_fundamental_div_mod_converse(
        (digits * pow2(exponent)) as int,
        pow2(exponent + s) as int,
        q as int,
        (r * pow2(exponent)) as int,
    );
}

/// The integer nearest to `a`; of two, the one farther from zero.
pub fn round_to_whole(f: Format, a: Parts) -> (r: Parts)
    ensures
        r == to_nearest_whole(f, a),
{
    if a.abs >= infinity_bits(f) {
        return a;
    }
    let x: Decoded = decode(f, a.abs);
    let unit: u32 = unit_bits(f);
    let ghost g = pow2(unit as nat);
    proof {
        lemma2_to64();
        lemma2_to64_rest();
        lemma_pow2_128();
        lemma_pow2_le(f.precision(), 53);
        lemma_pow2_pos(unit as nat);
        lemma_pow2_unfold((unit + 1) as nat);
    }
    if x.exponent >= unit {
        let s: u32 = x.exponent - unit;
        proof {
            lemma_pow2_adds(unit as nat, s as nat);
            let n = x.digits * pow2(s as nat);
            assert(a.magnitude(f) == n * g) by (nonlinear_arith)
                requires
                    a.magnitude(f) == x.digits * pow2(x.exponent as nat),
                    pow2(x.exponent as nat) == g * pow2(s as nat),
                    n == x.digits * pow2(s as nat),
            ;
            assert(2 * a.magnitude(f) + g == n * (2 * g) + g) by (nonlinear_arith)
                requires
                    a.magnitude(f) == n * g,
            ;
            lemma_fundamental_div_mod_converse((2 * a.magnitude(f) + g) as int, (2 * g) as int, n as int, g as int);
        }
        Parts { neg: a.neg, abs: round_exact(f, x.digits as u128, x.exponent, 0) }
    } else {
        let s: u32 = unit - x.exponent;
        let n: u128;
        proof {
            // (2 m 2^e + 2^u) / 2^(u + 1) == (2 m + 2^s) / 2^(s + 1)
            lemma_pow2_adds(x.exponent as nat, s as nat);
            lemma_pow2_unfold((s + 1) as nat);
            assert((2 * x.digits + pow2(s as nat)) * pow2(x.exponent as nat) == 2 * a.magnitude(f) + g) by (nonlinear_arith)
                requires
                    a.magnitude(f) == x.digits * pow2(x.exponent as nat),
                    g == pow2(x.exponent as nat) * pow2(s as nat),
            ;
            lemma_truncate_below((2 * x.digits + pow2(s as nat)) as nat, x.exponent as nat, (s + 1) as nat);
            assert(x.exponent + (s + 1) == unit + 1);
        }
        if s >= 100 {
            proof {
                lemma_pow2_le(100, s as nat);
                lemma_pow2_le(54, 100);
                lemma_pow2_unfold(54);
                lemma_fundamental_div_mod_converse(
                    (2 * x.digits + pow2(s as nat)) as int,
                    pow2((s + 1) as nat) as int,
                    0,
                    (2 * x.digits + pow2(s as nat)) as int,
                );
            }
            n = 0;
        } else {
            proof {
                lemma_pow2_le(s as nat, 100);
                lemma_pow2_adds(100, 28);
                assert(pow2(100) * pow2(28) == pow2(128));
                assert(pow2(100) * 0x1000_0000 == pow2(128));
            }
            n = shift_right(2 * (x.digits as u128) + shift_left(1, s), s + 1);
        }
        proof {
            lemma_pow2_pos((s + 1) as nat);
            vstd::arithmetic::div_mod::lemma_div_nonincreasing(
                (2 * x.digits + pow2(s as nat)) as int,
                pow2((s + 1) as nat) as int,
            );
            if s < 100 {
                lemma_pow2_le(s as nat, 100);
                lemma_pow2_le(101, 127);
                lemma_pow2_unfold(101);
                lemma_pow2_le(54, 100);
                lemma_pow2_unfold(54);
            }
        }
        Parts { neg: a.neg, abs: round_exact(f, n, unit, 0) }
    }
}

/// `a` of one format in another.
pub fn convert_parts(from: Format, to: Format, a: Parts) -> (r: Parts)
    ensures
        r == converted(from, to, a),
{
    if is_nan(from, a) {
        return nan_parts(to);
    }
    if a.abs == infinity_bits(from) {
        return Parts { neg: a.neg, abs: infinity_bits(to) };
    }
    let x: Decoded = decode(from, a.abs);
    let unit: u32 = unit_bits(to);
    proof {
        lemma2_to64();
        lemma2_to64_rest();
        lemma_pow2_128();
        lemma_pow2_le(from.precision(), 53);
        lemma_pow2_adds(x.exponent as nat, unit as nat);
        assert(a.magnitude(from) * pow2(unit as nat) == x.digits * pow2((x.exponent + unit) as nat)) by (nonlinear_arith)
            requires
                a.magnitude(from) == x.digits * pow2(x.exponent as nat),
                pow2((x.exponent + unit) as nat) == pow2(x.exponent as nat) * pow2(unit as nat),
        ;
    }
    Parts { neg: a.neg, abs: round_exact(to, x.digits as u128, x.exponent + unit, unit_bits(from)) }
}

} // verus!
