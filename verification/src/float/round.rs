//! Rounding an exact result that is known up to a last bit.

use vstd::arithmetic::div_mod::{lemma_fundamental_div_mod, lemma_fundamental_div_mod_converse};
use vstd::arithmetic::power2::{
    lemma2_to64, lemma2_to64_rest, lemma_pow2_adds, lemma_pow2_pos, lemma_pow2_unfold, pow2,
};
use vstd::prelude::*;

use super::bits::{bit_length, lemma_pow2_128, lemma_pow2_le, shift_left, shift_right};
use super::model::{is_quantum, nearest, quantum, round_half_even, Format};

verus! {

/// The distance between representable numbers is unique.
pub proof fn lemma_quantum_is(f: Format, num: nat, den: nat, k: nat)
    requires
        is_quantum(f, num, den, k),
    ensures
        quantum(f, num, den) == k,
{
    let c = quantum(f, num, den);
    assert(is_quantum(f, num, den, c));
    let p = f.precision();
    if c < k {
        lemma_pow2_le(p + c, (p + k - 1) as nat);
        assert(den * pow2(p + c) <= den * pow2((p + k - 1) as nat)) by (nonlinear_arith)
            requires
                pow2(p + c) <= pow2((p + k - 1) as nat),
        ;
    } else if k < c {
        lemma_pow2_le(p + k, (p + c - 1) as nat);
        assert(den * pow2(p + k) <= den * pow2((p + c - 1) as nat)) by (nonlinear_arith)
            requires
                pow2(p + k) <= pow2((p + c - 1) as nat),
        ;
    }
}

/// Rounding looks at the ratio alone.
pub proof fn lemma_round_scaled(num: nat, den: nat, c: nat)
    requires
        den > 0,
        c > 0,
    ensures
        round_half_even(num * c, den * c) == round_half_even(num, den),
{
    let q = num / den;
    let r = num % den;
    lemma_fundamental_div_mod(num as int, den as int);
    assert(num * c == (den * c) * q + r * c) by (nonlinear_arith)
        requires
            num == den * q + r,
    ;
    assert(0 <= r * c < den * c) by (nonlinear_arith)
        requires
            0 <= r < den,
            c > 0,
    ;
    assert((den * c) * q == q * (den * c)) by (nonlinear_arith);
    lemma_fundamental_div_mod_converse((num * c) as int, (den * c) as int, q as int, (r * c) as int);
    assert(2 * (r * c) > den * c <==> 2 * r > den) by (nonlinear_arith)
        requires
            c > 0,
    ;
    assert(2 * (r * c) == den * c <==> 2 * r == den) by (nonlinear_arith)
        requires
            c > 0,
    ;
}

/// Rounding to a multiple of `2 * half` parts, from the whole parts `m` of the number and the
/// knowledge whether anything is left.
proof fn lemma_round_parts(x: nat, d: nat, m: nat, half: nat)
    requires
        d > 0,
        half > 0,
        m == x / d,
    ensures
        round_half_even(x, d * (2 * half)) == ({
            let q = m / (2 * half);
            let r = m % (2 * half);
            if r > half || (r == half && (x % d != 0 || q % 2 == 1)) {
                q + 1
            } else {
                q
            }
        }),
{
    let s = 2 * half;
    let t = x % d;
    let q = m / s;
    let r = m % s;
    lemma_fundamental_div_mod(x as int, d as int);
    lemma_fundamental_div_mod(m as int, s as int);
    assert(x == q * (d * s) + (r * d + t)) by (nonlinear_arith)
        requires
            x == d * m + t,
            m == s * q + r,
    ;
    assert(0 <= r * d + t < d * s) by (nonlinear_arith)
        requires
            0 <= t < d,
            0 <= r < s,
    ;
    lemma_fundamental_div_mod_converse(x as int, (d * s) as int, q as int, (r * d + t) as int);
    let rest = r * d + t;
    assert(d * s == 2 * (half * d)) by (nonlinear_arith)
        requires
            s == 2 * half,
    ;
    if r > half {
        assert(rest > half * d) by (nonlinear_arith)
            requires
                rest == r * d + t,
                r >= half + 1,
                d > 0,
                t >= 0,
        ;
    } else if r < half {
        assert(rest < half * d) by (nonlinear_arith)
            requires
                rest == r * d + t,
                r + 1 <= half,
                t < d,
        ;
    }
}

/// `m` and `sticky` tell where `num / den` lies on the grid of multiples of two to the power of
/// `e`: `m` counts the multiples below it, and `sticky` says that it is none of them.
pub open spec fn located(num: nat, den: nat, m: nat, e: int, sticky: bool) -> bool {
    let a = if e < 0 { (-e) as nat } else { 0 };
    let b = if e < 0 { 0 } else { e as nat };
    &&& (num * pow2(a)) / (den * pow2(b)) == m
    &&& sticky <==> (num * pow2(a)) % (den * pow2(b)) != 0
}

proof fn lemma_quantum_located(f: Format, num: nat, den: nat, m: nat, e: int, sticky: bool, len: nat, k: nat)
    requires
        den > 0,
        located(num, den, m, e, sticky),
        len >= 1,
        pow2((len - 1) as nat) <= m < pow2(len),
        k == (if e + len - f.precision() > 0 { e + len - f.precision() } else { 0 }),
    ensures
        is_quantum(f, num, den, k),
{
    let a: nat = if e < 0 { (-e) as nat } else { 0 };
    let b: nat = if e < 0 { 0 } else { e as nat };
    let p = f.precision();
    let x = num * pow2(a);
    let d = den * pow2(b);
    lemma_pow2_pos(a);
    lemma_pow2_pos(b);
    assert(d > 0) by (nonlinear_arith)
        requires
            d == den * pow2(b),
            den > 0,
            pow2(b) > 0,
    ;
    lemma_fundamental_div_mod(x as int, d as int);
    // Upper bound.
    let rest = x % d;
    assert(x < d * pow2(len)) by (nonlinear_arith)
        requires
            x == d * m + rest,
            rest < d,
            d > 0,
            m + 1 <= pow2(len),
    {
        assert(d * (m + 1) <= d * pow2(len));
        assert(d * (m + 1) == d * m + d);
    }
    lemma_pow2_adds(b, len);
    lemma_pow2_adds((p + k) as nat, a);
    lemma_pow2_le(b + len, (p + k + a) as nat);
    assert(num < den * pow2(p + k)) by (nonlinear_arith)
        requires
            x == num * pow2(a),
            d == den * pow2(b),
            x < d * pow2(len),
            pow2(b) * pow2(len) == pow2(b + len),
            pow2(b + len) <= pow2((p + k + a) as nat),
            pow2((p + k + a) as nat) == pow2((p + k) as nat) * pow2(a),
            pow2(a) > 0,
            den > 0,
    {
        assert(x < den * (pow2(b) * pow2(len)));
        assert(den * (pow2(b) * pow2(len)) <= den * pow2((p + k + a) as nat));
        assert(num * pow2(a) < (den * pow2(p + k)) * pow2(a));
    }
    if k > 0 {
        let l: nat = (len - 1) as nat;
        lemma_pow2_adds(b, l);
        lemma_pow2_adds((p + k - 1) as nat, a);
        assert(b + l == p + k - 1 + a);
        assert(x >= d * pow2(l)) by (nonlinear_arith)
            requires
                x == d * m + x % d,
                x % d >= 0,
                m >= pow2(l),
        ;
        assert(num >= den * pow2((p + k - 1) as nat)) by (nonlinear_arith)
            requires
                x == num * pow2(a),
                d == den * pow2(b),
                x >= d * pow2(l),
                pow2(b) * pow2(l) == pow2((p + k - 1) as nat) * pow2(a),
                pow2(a) > 0,
        {
            assert(x >= den * (pow2(b) * pow2(l)));
            assert(num * pow2(a) >= (den * pow2((p + k - 1) as nat)) * pow2(a));
        }
    }
}

/// Rounding a number to a coarser grid than the one it is located on.
proof fn lemma_round_coarser(num: nat, den: nat, m: nat, e: int, sticky: bool, k: nat, shift: nat)
    requires
        den > 0,
        located(num, den, m, e, sticky),
        shift == k - e,
        shift >= 1,
    ensures
        round_half_even(num, den * pow2(k)) == ({
            let half = pow2((shift - 1) as nat);
            let q = m / pow2(shift);
            let r = m % pow2(shift);
            if r > half || (r == half && (sticky || q % 2 == 1)) {
                q + 1
            } else {
                q
            }
        }),
{
    let a: nat = if e < 0 { (-e) as nat } else { 0 };
    let b: nat = if e < 0 { 0 } else { e as nat };
    let x = num * pow2(a);
    let d = den * pow2(b);
    lemma_pow2_pos(a);
    lemma_pow2_pos(b);
    lemma_pow2_pos(k);
    assert(d > 0) by (nonlinear_arith)
        requires
            d == den * pow2(b),
            den > 0,
            pow2(b) > 0,
    ;
    assert(den * pow2(k) > 0) by (nonlinear_arith)
        requires
            den > 0,
            pow2(k) > 0,
    ;
    lemma_round_scaled(num, den * pow2(k), pow2(a));
    lemma_pow2_adds(k, a);
    lemma_pow2_adds(b, shift);
    assert(k + a == b + shift);
    assert((den * pow2(k)) * pow2(a) == d * pow2(shift)) by (nonlinear_arith)
        requires
            d == den * pow2(b),
            pow2(k) * pow2(a) == pow2(b) * pow2(shift),
    ;
    let half = pow2((shift - 1) as nat);
    lemma_pow2_pos((shift - 1) as nat);
    lemma_pow2_unfold(shift);
    lemma_round_parts(x, d, m, half);
}

/// Rounding to a grid that holds the number already.
proof fn lemma_round_finer(num: nat, den: nat, m: nat, e: int, k: nat, s: nat)
    requires
        den > 0,
        located(num, den, m, e, false),
        s == e - k,
    ensures
        round_half_even(num, den * pow2(k)) == m * pow2(s),
{
    let a: nat = if e < 0 { (-e) as nat } else { 0 };
    let b: nat = if e < 0 { 0 } else { e as nat };
    assert(a == 0);
    lemma2_to64();
    assert(num * pow2(a) == num) by (nonlinear_arith)
        requires
            pow2(a) == 1,
    ;
    lemma_pow2_pos(b);
    lemma_pow2_pos(k);
    lemma_pow2_adds(k, s);
    assert(den * pow2(b) > 0) by (nonlinear_arith)
        requires
            den > 0,
            pow2(b) > 0,
    ;
    lemma_fundamental_div_mod(num as int, (den * pow2(b)) as int);
    let c = den * pow2(k);
    let q = m * pow2(s);
    assert(c > 0) by (nonlinear_arith)
        requires
            c == den * pow2(k),
            den > 0,
            pow2(k) > 0,
    ;
    assert(num == q * c) by (nonlinear_arith)
        requires
            num == (den * pow2(b)) * m,
            pow2(b) == pow2(k) * pow2(s),
            q == m * pow2(s),
            c == den * pow2(k),
    ;
    lemma_fundamental_div_mod_converse(num as int, c as int, q as int, 0);
}

/// Number of stored fraction bits.
pub fn fraction_bits(f: Format) -> (r: u32)
    ensures
        r == f.fraction(),
{
    match f {
        Format::Single => 23,
        Format::Double => 52,
    }
}

/// Two to the power of minus this number is the smallest positive magnitude.
pub fn unit_bits(f: Format) -> (r: u32)
    ensures
        r == f.unit(),
{
    match f {
        Format::Single => 149,
        Format::Double => 1074,
    }
}

/// Encoding of infinity, without the sign.
pub fn infinity_bits(f: Format) -> (r: u64)
    ensures
        r == f.infinity(),
{
    match f {
        Format::Single => 0x7f80_0000,
        Format::Double => 0x7ff0_0000_0000_0000,
    }
}

/// Encoding of the representable magnitude nearest to `num / den` units, from where that number
/// lies on the grid of multiples of two to the power of `e`.
pub fn round(f: Format, m: u128, e: i32, sticky: bool, Ghost(num): Ghost<nat>, Ghost(den): Ghost<nat>) -> (r: u64)
    requires
        den > 0,
        0 < m,
        m < pow2(127),
        -4000 < e < 4000,
        located(num, den, m as nat, e as int, sticky),
        sticky ==> m >= pow2(f.precision()),
    ensures
        r == nearest(f, num, den),
{
    let fraction: u32 = fraction_bits(f);
    let len: u32 = bit_length(m);
    let lead: i32 = e + len as i32 - (fraction as i32 + 1);
    let k: i32 = if lead > 0 { lead } else { 0 };
    let shift: i32 = k - e;
    let ghost p = f.precision();
    proof {
        lemma_quantum_located(f, num, den, m as nat, e as int, sticky, len as nat, k as nat);
        lemma_quantum_is(f, num, den, k as nat);
        lemma2_to64();
        lemma2_to64_rest();
        lemma_pow2_128();
    }
    let q: u128;
    if shift <= 0 {
        let s: u32 = (0 - shift) as u32;
        proof {
            if sticky {
                assert(len > p) by {
                    if len <= p {
                        lemma_pow2_le(len as nat, p);
                    }
                }
            }
            lemma_round_finer(num, den, m as nat, e as int, k as nat, s as nat);
            lemma_pow2_adds(len as nat, s as nat);
            lemma_pow2_le((len + s) as nat, p);
            lemma_pow2_pos(s as nat);
            assert(m * pow2(s as nat) < pow2(len as nat) * pow2(s as nat)) by (nonlinear_arith)
                requires
                    m < pow2(len as nat),
                    pow2(s as nat) > 0,
            ;
        }
        q = shift_left(m, s);
    } else if shift >= 128 {
        proof {
            lemma_round_coarser(num, den, m as nat, e as int, sticky, k as nat, shift as nat);
            lemma_pow2_le(127, (shift - 1) as nat);
            lemma_pow2_unfold(shift as nat);
            vstd::arithmetic::div_mod::lemma_basic_div(m as int, pow2(shift as nat) as int);
            vstd::arithmetic::div_mod::lemma_small_mod(m as nat, pow2(shift as nat));
        }
        q = 0;
    } else {
        let s: u32 = shift as u32;
        let down: u128 = shift_right(m, s);
        proof {
            lemma_pow2_pos(s as nat);
            lemma_fundamental_div_mod(m as int, pow2(s as nat) as int);
            assert(down * pow2(s as nat) == pow2(s as nat) * down) by (nonlinear_arith);
            lemma_pow2_le(s as nat, 127);
            lemma_pow2_le((s - 1) as nat, 127);
            lemma_round_coarser(num, den, m as nat, e as int, sticky, k as nat, shift as nat);
            // The kept digits are not more than the format holds.
            assert(down < pow2(p)) by {
                if down >= pow2(p) {
                    lemma_pow2_adds(p, s as nat);
                    lemma_pow2_le(len as nat, p + s as nat);
                    assert(pow2(s as nat) * down >= pow2(s as nat) * pow2(p)) by (nonlinear_arith)
                        requires
                            down >= pow2(p),
                    ;
                    assert(pow2(s as nat) * pow2(p) == pow2(p) * pow2(s as nat)) by (nonlinear_arith);
                }
            }
        }
        let rest: u128 = m - shift_left(down, s);
        let half: u128 = shift_left(1, s - 1);
        if rest > half || (rest == half && (sticky || down % 2 == 1)) {
            q = down + 1;
        } else {
            q = down;
        }
    }
    assert(q == round_half_even(num, den * pow2(k as nat)));
    assert(q <= pow2(p));
    let limit: i32 = match f {
        Format::Single => 254,
        Format::Double => 2046,
    };
    if k >= limit {
        proof {
            // At least half of what the format holds is kept, so the result is too large.
            assert(q >= pow2(f.fraction())) by {
                lemma_kept_digits(f, num, den, k as nat);
            }
            assert(k * pow2(f.fraction()) >= limit * pow2(f.fraction())) by (nonlinear_arith)
                requires
                    k >= limit,
            ;
        }
        return infinity_bits(f);
    }
    proof {
        assert(k * pow2(f.fraction()) <= limit * pow2(f.fraction())) by (nonlinear_arith)
            requires
                k <= limit,
        ;
        assert(k * pow2(f.fraction()) >= 0) by (nonlinear_arith)
            requires
                k >= 0,
        ;
    }
    let abs: u64 = shift_left(k as u128, fraction) as u64 + q as u64;
    if abs < infinity_bits(f) {
        abs
    } else {
        infinity_bits(f)
    }
}

/// Above the finest quantum all digits of the format are used.
pub proof fn lemma_kept_digits(f: Format, num: nat, den: nat, k: nat)
    requires
        den > 0,
        k > 0,
        is_quantum(f, num, den, k),
    ensures
        round_half_even(num, den * pow2(k)) >= pow2(f.fraction()),
{
    let d = den * pow2(k);
    let h = pow2(f.fraction());
    lemma_pow2_pos(k);
    lemma_pow2_pos(f.fraction());
    lemma_pow2_adds(f.fraction(), k);
    assert(d > 0) by (nonlinear_arith)
        requires
            d == den * pow2(k),
            den > 0,
            pow2(k) > 0,
    ;
    assert(f.precision() + k - 1 == f.fraction() + k);
    assert(num >= d * h) by (nonlinear_arith)
        requires
            num >= den * pow2(f.fraction() + k),
            pow2(f.fraction() + k) == h * pow2(k),
            d == den * pow2(k),
    ;
    lemma_fundamental_div_mod(num as int, d as int);
    let q = num / d;
    if q < h {
        assert(false) by (nonlinear_arith)
            requires
                num == d * q + num % d,
                num % d < d,
                q + 1 <= h,
                num >= d * h,
                d > 0,
        ;
    }
}

} // verus!
