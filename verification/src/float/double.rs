//! Double precision numbers.

use vstd::prelude::*;

use super::model::{
    converted, less, less_or_equal, negated, product, quotient, square_root, sum,
    to_nearest_whole, truncated, whole, Format, Parts,
};
use super::ops::{
    add_parts, convert_parts, divide_parts, is_nan, less_or_equal_parts, less_parts,
    multiply_parts, negate_parts, root_parts, round_to_whole, truncate_parts, whole_parts,
};
use super::single::F32;

verus! {

/// A double precision number, by its encoding.
#[derive(Clone, Copy, Debug)]
pub struct F64 {
    pub bits: u64,
}

impl F64 {
    pub open spec fn parts(self) -> Parts {
        if self.bits >= 0x8000_0000_0000_0000 {
            Parts { neg: true, abs: (self.bits - 0x8000_0000_0000_0000) as u64 }
        } else {
            Parts { neg: false, abs: self.bits as u64 }
        }
    }

    pub open spec fn of_parts(p: Parts) -> F64 {
        if p.neg {
            F64 { bits: (p.abs + 0x8000_0000_0000_0000) as u64 }
        } else {
            F64 { bits: p.abs as u64 }
        }
    }

    pub open spec fn is_nan_number(self) -> bool {
        self.parts().is_nan(Format::Double)
    }

    pub open spec fn is_finite_number(self) -> bool {
        self.parts().is_finite(Format::Double)
    }

    /// `self + other`.
    pub open spec fn plus(self, other: F64) -> F64 {
        F64::of_parts(sum(Format::Double, self.parts(), other.parts()))
    }

    /// `-self`.
    pub open spec fn negative(self) -> F64 {
        F64::of_parts(negated(self.parts()))
    }

    /// `self - other`.
    pub open spec fn minus(self, other: F64) -> F64 {
        self.plus(other.negative())
    }

    /// `self * other`.
    pub open spec fn times(self, other: F64) -> F64 {
        F64::of_parts(product(Format::Double, self.parts(), other.parts()))
    }

    /// `self / other`.
    pub open spec fn over(self, other: F64) -> F64 {
        F64::of_parts(quotient(Format::Double, self.parts(), other.parts()))
    }

    /// The square root.
    pub open spec fn root(self) -> F64 {
        F64::of_parts(square_root(Format::Double, self.parts()))
    }

    /// `self < other`.
    pub open spec fn below(self, other: F64) -> bool {
        less(Format::Double, self.parts(), other.parts())
    }

    /// `self <= other`.
    pub open spec fn at_most(self, other: F64) -> bool {
        less_or_equal(Format::Double, self.parts(), other.parts())
    }

    /// `self`, but not below `low` and not above `high`.
    pub open spec fn clamped(self, low: F64, high: F64) -> F64 {
        let raised = if self.below(low) { low } else { self };
        if high.below(raised) { high } else { raised }
    }

    /// The larger of two numbers; the other one where one is "not a number".
    pub open spec fn larger(self, other: F64) -> F64 {
        if self.is_nan_number() || self.below(other) { other } else { self }
    }

    /// The smaller of two numbers; the other one where one is "not a number".
    pub open spec fn smaller(self, other: F64) -> F64 {
        if self.is_nan_number() || other.below(self) { other } else { self }
    }

    /// The nearest integer; of two, the one farther from zero.
    pub open spec fn nearest_whole(self) -> F64 {
        F64::of_parts(to_nearest_whole(Format::Double, self.parts()))
    }

    /// The number without its fraction, brought into the range from zero to `max`.
    pub open spec fn trunc(self, max: nat) -> nat {
        truncated(Format::Double, self.parts(), max)
    }

    /// An integer as a number.
    pub open spec fn of_nat(n: nat) -> F64 {
        F64::of_parts(whole(Format::Double, n))
    }

    /// The same number in the other precision.
    pub open spec fn to_f32_number(self) -> F32 {
        F32::of_parts(converted(Format::Double, Format::Single, self.parts()))
    }

    pub fn from_bits(bits: u64) -> (r: F64)
        ensures
            r.bits == bits,
    {
        F64 { bits }
    }

    pub fn to_bits(self) -> (r: u64)
        ensures
            r == self.bits,
    {
        self.bits
    }

    fn split(self) -> (r: Parts)
        ensures
            r == self.parts(),
    {
        if self.bits >= 0x8000_0000_0000_0000 {
            Parts { neg: true, abs: (self.bits - 0x8000_0000_0000_0000) as u64 }
        } else {
            Parts { neg: false, abs: self.bits as u64 }
        }
    }

    pub(crate) fn join(p: Parts) -> (r: F64)
        requires
            p.abs < 0x8000_0000_0000_0000,
        ensures
            r == F64::of_parts(p),
    {
        if p.neg {
            F64 { bits: p.abs as u64 + 0x8000_0000_0000_0000 }
        } else {
            F64 { bits: p.abs as u64 }
        }
    }

    pub fn is_nan(self) -> (r: bool)
        ensures
            r == self.is_nan_number(),
    {
        is_nan(Format::Double, self.split())
    }

    pub fn add(self, other: F64) -> (r: F64)
        ensures
            r == self.plus(other),
    {
        F64::join(add_parts(Format::Double, self.split(), other.split()))
    }

    pub fn neg(self) -> (r: F64)
        ensures
            r == self.negative(),
    {
        F64::join(negate_parts(self.split()))
    }

    pub fn sub(self, other: F64) -> (r: F64)
        ensures
            r == self.minus(other),
    {
        self.add(other.neg())
    }

    pub fn mul(self, other: F64) -> (r: F64)
        ensures
            r == self.times(other),
    {
        F64::join(multiply_parts(Format::Double, self.split(), other.split()))
    }

    pub fn div(self, other: F64) -> (r: F64)
        ensures
            r == self.over(other),
    {
        F64::join(divide_parts(Format::Double, self.split(), other.split()))
    }

    pub fn sqrt(self) -> (r: F64)
        ensures
            r == self.root(),
    {
        F64::join(root_parts(Format::Double, self.split()))
    }

    pub fn lt(self, other: F64) -> (r: bool)
        ensures
            r == self.below(other),
    {
        less_parts(Format::Double, self.split(), other.split())
    }

    pub fn le(self, other: F64) -> (r: bool)
        ensures
            r == self.at_most(other),
    {
        less_or_equal_parts(Format::Double, self.split(), other.split())
    }

    /// `self`, but not below `low` and not above `high`.
    pub fn clamp(self, low: F64, high: F64) -> (r: F64)
        requires
            low.at_most(high),
        ensures
            r == self.clamped(low, high),
    {
        let raised: F64 = if self.lt(low) { low } else { self };
        if high.lt(raised) { high } else { raised }
    }

    pub fn max(self, other: F64) -> (r: F64)
        ensures
            r == self.larger(other),
    {
        if self.is_nan() || self.lt(other) { other } else { self }
    }

    pub fn min(self, other: F64) -> (r: F64)
        ensures
            r == self.smaller(other),
    {
        if self.is_nan() || other.lt(self) { other } else { self }
    }

    pub fn round(self) -> (r: F64)
        ensures
            r == self.nearest_whole(),
    {
        F64::join(round_to_whole(Format::Double, self.split()))
    }

    pub fn to_u64(self) -> (r: u64)
        ensures
            r == self.trunc(u64::MAX as nat),
    {
        truncate_parts(Format::Double, self.split(), u64::MAX)
    }

    pub fn to_usize(self) -> (r: usize)
        ensures
            r == self.trunc(usize::MAX as nat),
    {
        truncate_parts(Format::Double, self.split(), usize::MAX as u64) as usize
    }

    pub fn from_u64(n: u64) -> (r: F64)
        ensures
            r == F64::of_nat(n as nat),
    {
        F64::join(whole_parts(Format::Double, n))
    }

    pub fn to_f32(self) -> (r: F32)
        ensures
            r == self.to_f32_number(),
    {
        F32::join(convert_parts(Format::Double, Format::Single, self.split()))
    }
}

} // verus!
