//! What the encodings mean and how exact results are rounded.

use vstd::arithmetic::power2::pow2;
use vstd::prelude::*;

verus! {

/// A binary interchange format.
#[derive(Clone, Copy, Debug, PartialEq, Eq, Structural)]
pub enum Format {
    /// 32 bits, 24 of them significant.
    Single,
    /// 64 bits, 53 of them significant.
    Double,
}

impl Format {
    /// Number of stored fraction bits.
    pub open spec fn fraction(self) -> nat {
        match self {
            Format::Single => 23,
            Format::Double => 52,
        }
    }

    /// Number of significant bits.
    pub open spec fn precision(self) -> nat {
        self.fraction() + 1
    }

    /// The smallest positive magnitude is two to the power of minus this number.
    pub open spec fn unit(self) -> nat {
        match self {
            Format::Single => 149,
            Format::Double => 1074,
        }
    }

    /// Encoding of infinity, without the sign.
    pub open spec fn infinity(self) -> nat {
        match self {
            Format::Single => 0x7f80_0000,
            Format::Double => 0x7ff0_0000_0000_0000,
        }
    }

    /// Encoding that stands for "not a number" in results.
    pub open spec fn nan(self) -> nat {
        match self {
            Format::Single => 0x7fc0_0000,
            Format::Double => 0x7ff8_0000_0000_0000,
        }
    }
}

/// A number split in its sign and the rest of its encoding.
#[derive(Clone, Copy, Debug, PartialEq, Eq, Structural)]
pub struct Parts {
    pub neg: bool,
    pub abs: u64,
}

impl Parts {
    pub open spec fn is_nan(self, f: Format) -> bool {
        self.abs > f.infinity()
    }

    pub open spec fn is_infinite(self, f: Format) -> bool {
        self.abs == f.infinity()
    }

    pub open spec fn is_finite(self, f: Format) -> bool {
        self.abs < f.infinity()
    }

    /// Magnitude of a finite number, in units of the smallest positive one.
    pub open spec fn magnitude(self, f: Format) -> nat {
        magnitude(f, self.abs as nat)
    }

    /// Value of a finite number, in units of the smallest positive magnitude.
    pub open spec fn value(self, f: Format) -> int {
        if self.neg {
            -(self.magnitude(f) as int)
        } else {
            self.magnitude(f) as int
        }
    }

    /// Position on the number line: encodings of equal sign are ordered like their magnitudes,
    /// and both zeros stand at the same place.
    pub open spec fn key(self) -> int {
        if self.neg {
            -(self.abs as int)
        } else {
            self.abs as int
        }
    }
}

/// Magnitude that a finite encoding stands for, in units of the smallest positive one.
pub open spec fn magnitude(f: Format, abs: nat) -> nat {
    let hidden = pow2(f.fraction());
    if abs < hidden {
        abs
    } else {
        (abs % hidden + hidden) * pow2((abs / hidden - 1) as nat)
    }
}

/// Whether numbers next to `num / den` are two to the power of `k` units apart.
pub open spec fn is_quantum(f: Format, num: nat, den: nat, k: nat) -> bool {
    &&& num < den * pow2(f.precision() + k)
    &&& k == 0 || num >= den * pow2((f.precision() + k - 1) as nat)
}

/// Exponent of the distance between the representable numbers next to `num / den`.
pub open spec fn quantum(f: Format, num: nat, den: nat) -> nat {
    choose|k: nat| is_quantum(f, num, den, k)
}

/// The integer nearest to `num / den`; of two, the even one.
pub open spec fn round_half_even(num: nat, den: nat) -> nat {
    let q = num / den;
    let r = num % den;
    if 2 * r > den || (2 * r == den && q % 2 == 1) {
        q + 1
    } else {
        q
    }
}

/// Encoding of the representable magnitude nearest to `num / den` units, ties going to the even
/// one; infinity where no finite one is near.
pub open spec fn nearest(f: Format, num: nat, den: nat) -> nat {
    let k = quantum(f, num, den);
    let abs = k * pow2(f.fraction()) + round_half_even(num, den * pow2(k));
    if abs < f.infinity() {
        abs
    } else {
        f.infinity()
    }
}

/// "Not a number".
pub open spec fn not_a_number(f: Format) -> Parts {
    Parts { neg: false, abs: f.nan() as u64 }
}

/// Infinity with a sign.
pub open spec fn infinite(f: Format, neg: bool) -> Parts {
    Parts { neg, abs: f.infinity() as u64 }
}

/// The representable number nearest to `num / den` units, with a sign.
pub open spec fn rounded(f: Format, neg: bool, num: nat, den: nat) -> Parts {
    Parts { neg, abs: nearest(f, num, den) as u64 }
}

/// `a + b`.
pub open spec fn sum(f: Format, a: Parts, b: Parts) -> Parts {
    if a.is_nan(f) || b.is_nan(f) {
        not_a_number(f)
    } else if a.is_infinite(f) {
        if b.is_infinite(f) && a.neg != b.neg {
            not_a_number(f)
        } else {
            a
        }
    } else if b.is_infinite(f) {
        b
    } else {
        let exact = a.value(f) + b.value(f);
        if exact == 0 {
            Parts { neg: a.neg && b.neg, abs: 0 }
        } else if exact < 0 {
            rounded(f, true, (-exact) as nat, 1)
        } else {
            rounded(f, false, exact as nat, 1)
        }
    }
}

/// `-a`.
pub open spec fn negated(a: Parts) -> Parts {
    Parts { neg: !a.neg, abs: a.abs }
}

/// `a * b`.
pub open spec fn product(f: Format, a: Parts, b: Parts) -> Parts {
    let neg = a.neg != b.neg;
    if a.is_nan(f) || b.is_nan(f) {
        not_a_number(f)
    } else if a.is_infinite(f) || b.is_infinite(f) {
        if a.abs == 0 || b.abs == 0 {
            not_a_number(f)
        } else {
            infinite(f, neg)
        }
    } else {
        rounded(f, neg, a.magnitude(f) * b.magnitude(f), pow2(f.unit()))
    }
}

/// `a / b`.
pub open spec fn quotient(f: Format, a: Parts, b: Parts) -> Parts {
    let neg = a.neg != b.neg;
    if a.is_nan(f) || b.is_nan(f) {
        not_a_number(f)
    } else if a.is_infinite(f) {
        if b.is_infinite(f) {
            not_a_number(f)
        } else {
            infinite(f, neg)
        }
    } else if b.is_infinite(f) {
        Parts { neg, abs: 0 }
    } else if b.abs == 0 {
        if a.abs == 0 {
            not_a_number(f)
        } else {
            infinite(f, neg)
        }
    } else {
        rounded(f, neg, a.magnitude(f) * pow2(f.unit()), b.magnitude(f))
    }
}

/// Whether `s` is the largest integer whose square is not above `n`.
pub open spec fn is_root(n: nat, s: nat) -> bool {
    s * s <= n < (s + 1) * (s + 1)
}

/// The largest integer whose square is not above `n`.
pub open spec fn root(n: nat) -> nat {
    choose|s: nat| is_root(n, s)
}

/// The square root of `a`.
///
/// The root of the exact number of units lies above the integer root by less than one; wherever it
/// lies in between, half way stands on the same side of every point where rounding turns.
pub open spec fn square_root(f: Format, a: Parts) -> Parts {
    if a.is_nan(f) {
        not_a_number(f)
    } else if a.abs == 0 {
        a
    } else if a.neg {
        not_a_number(f)
    } else if a.is_infinite(f) {
        a
    } else {
        let n = a.magnitude(f) * pow2(f.unit());
        let s = root(n);
        rounded(f, false, 2 * s + (if s * s == n { 0nat } else { 1nat }), 2)
    }
}

/// Whether `a < b`. Nothing is less than "not a number", nor the other way round.
pub open spec fn less(f: Format, a: Parts, b: Parts) -> bool {
    !a.is_nan(f) && !b.is_nan(f) && a.key() < b.key()
}

/// Whether `a <= b`.
pub open spec fn less_or_equal(f: Format, a: Parts, b: Parts) -> bool {
    !a.is_nan(f) && !b.is_nan(f) && a.key() <= b.key()
}

/// The integer `n` as a number.
pub open spec fn whole(f: Format, n: nat) -> Parts {
    rounded(f, false, n * pow2(f.unit()), 1)
}

/// `a` without its fraction, as an integer from zero to `max`: numbers outside that range go to
/// its near end, and "not a number" to zero.
pub open spec fn truncated(f: Format, a: Parts, max: nat) -> nat {
    if a.is_nan(f) || a.neg {
        0
    } else if a.is_infinite(f) || a.magnitude(f) / pow2(f.unit()) > max {
        max
    } else {
        a.magnitude(f) / pow2(f.unit())
    }
}

/// The integer nearest to `a`; of two, the one farther from zero.
pub open spec fn to_nearest_whole(f: Format, a: Parts) -> Parts {
    if a.is_finite(f) {
        let n = (2 * a.magnitude(f) + pow2(f.unit())) / (2 * pow2(f.unit()));
        rounded(f, a.neg, n * pow2(f.unit()), 1)
    } else {
        a
    }
}

/// `a` of one format in another.
pub open spec fn converted(from: Format, to: Format, a: Parts) -> Parts {
    if a.is_nan(from) {
        not_a_number(to)
    } else if a.is_infinite(from) {
        infinite(to, a.neg)
    } else {
        rounded(to, a.neg, a.magnitude(from) * pow2(to.unit()), pow2(from.unit()))
    }
}

} // verus!
