//! Shifts and bit lengths as arithmetic.

use vstd::arithmetic::div_mod::lemma_fundamental_div_mod;
use vstd::arithmetic::power2::{
    lemma2_to64, lemma2_to64_rest, lemma_pow2_adds, lemma_pow2_pos, lemma_pow2_strictly_increases,
    lemma_pow2_unfold, pow2,
};
use vstd::bits::lemma_u128_shr_is_div;
use vstd::prelude::*;

verus! {

/// Powers of two grow with the exponent.
pub proof fn lemma_pow2_le(a: nat, b: nat)
    requires
        a <= b,
    ensures
        0 < pow2(a) <= pow2(b),
{
    lemma_pow2_pos(a);
    if a < b {
        lemma_pow2_strictly_increases(a, b);
    }
}

/// Two to the power of 127 and of 128.
pub proof fn lemma_pow2_128()
    ensures
        pow2(127) == 0x8000_0000_0000_0000_0000_0000_0000_0000,
        pow2(128) == 0x1_0000_0000_0000_0000_0000_0000_0000_0000,
{
    lemma2_to64();
    lemma2_to64_rest();
    lemma_pow2_adds(64, 63);
    lemma_pow2_adds(64, 64);
    assert(pow2(127) == pow2(64) * pow2(63));
    assert(0x1_0000_0000_0000_0000 * 0x8000_0000_0000_0000
        == 0x8000_0000_0000_0000_0000_0000_0000_0000) by (nonlinear_arith);
    assert(0x1_0000_0000_0000_0000 * 0x1_0000_0000_0000_0000
        == 0x1_0000_0000_0000_0000_0000_0000_0000_0000) by (nonlinear_arith);
}

proof fn lemma_shl_is_mul(x: u128, s: u128)
    requires
        s < 128,
        x * pow2(s as nat) <= u128::MAX,
    ensures
        x << s == x * pow2(s as nat),
    decreases s,
{
    if s == 0 {
        assert(x << 0 == x) by (bit_vector);
        lemma2_to64();
    } else {
        let t: u128 = (s - 1) as u128;
        lemma_pow2_unfold(s as nat);
        assert(x * pow2(s as nat) == 2 * (x * pow2(t as nat))) by (nonlinear_arith)
            requires
                pow2(s as nat) == 2 * pow2(t as nat),
        ;
        lemma_shl_is_mul(x, t);
        let y: u128 = x << t;
        assert(x << s == (x << t) << 1) by (bit_vector)
            requires
                s < 128,
                s == t + 1,
        ;
        assert(y << 1 == 2 * y) by (bit_vector)
            requires
                2 * y <= 0xffff_ffff_ffff_ffff_ffff_ffff_ffff_ffff,
        ;
    }
}

/// `x` times two to the power of `s`.
pub fn shift_left(x: u128, s: u32) -> (r: u128)
    requires
        s < 128,
        x * pow2(s as nat) <= u128::MAX,
    ensures
        r == x * pow2(s as nat),
{
    proof {
        lemma_shl_is_mul(x, s as u128);
    }
    x << (s as u128)
}

/// `x` divided by two to the power of `s`, rounded down.
pub fn shift_right(x: u128, s: u32) -> (r: u128)
    requires
        s < 128,
    ensures
        r == x as nat / pow2(s as nat),
{
    proof {
        lemma_u128_shr_is_div(x, s as u128);
    }
    x >> (s as u128)
}

proof fn lemma_halve_step(m: nat, n: nat, s: nat)
    ensures
        (m / pow2(n)) / pow2(s) == m / pow2(n + s),
{
    lemma_pow2_pos(n);
    lemma_pow2_pos(s);
    lemma_pow2_adds(n, s);
    vstd::arithmetic::div_mod::lemma_div_denominator(m as int, pow2(n) as int, pow2(s) as int);
}

/// Number of binary digits of `m`.
pub fn bit_length(m: u128) -> (n: u32)
    requires
        m > 0,
    ensures
        1 <= n <= 128,
        pow2((n - 1) as nat) <= m < pow2(n as nat),
{
    let mut x: u128 = m;
    let mut n: u32 = 0;
    let mut s: u32 = 64;
    proof {
        lemma2_to64();
        lemma_pow2_128();
        assert(m as nat / 1 == m) by (nonlinear_arith);
    }
    while s > 0
        invariant
            s == 64 || s == 32 || s == 16 || s == 8 || s == 4 || s == 2 || s == 1 || s == 0,
            n + 2 * s <= 128 || s == 0,
            s == 0 ==> n <= 127,
            x == m as nat / pow2(n as nat),
            0 < x < (if s == 0 { 2 } else { pow2((2 * s) as nat) }),
        decreases s,
    {
        let ghost before = x;
        proof {
            lemma2_to64();
            lemma2_to64_rest();
        }
        let top: u128 = shift_right(x, s);
        proof {
            lemma_halve_step(m as nat, n as nat, s as nat);
            lemma_pow2_pos(s as nat);
            lemma_pow2_adds(s as nat, s as nat);
            lemma_fundamental_div_mod(x as int, pow2(s as nat) as int);
            if top >= pow2(s as nat) {
                assert(pow2(s as nat) * top >= pow2(s as nat) * pow2(s as nat)) by (nonlinear_arith)
                    requires
                        top >= pow2(s as nat),
                ;
            }
        }
        if top > 0 {
            x = top;
            n = n + s;
        } else {
            proof {
                assert(x < pow2(s as nat)) by (nonlinear_arith)
                    requires
                        x == pow2(s as nat) * top + x as int % pow2(s as nat) as int,
                        top == 0,
                        (x as int % pow2(s as nat) as int) < pow2(s as nat),
                ;
            }
        }
        s = s / 2;
    }
    proof {
        lemma_pow2_pos(n as nat);
        lemma_fundamental_div_mod(m as int, pow2(n as nat) as int);
        lemma_pow2_unfold((n + 1) as nat);
        assert(pow2(n as nat) * x == pow2(n as nat)) by (nonlinear_arith)
            requires
                x == 1,
        ;
    }
    n + 1
}

} // verus!
