//! Single precision numbers.

use vstd::prelude::*;

use super::model::{
    converted, less, less_or_equal, negated, product, quotient, square_root, sum,
    to_nearest_whole, truncated, whole, Format, Parts,
};
use super::ops::{
    add_parts, convert_parts, divide_parts, is_nan, less_or_equal_parts, less_parts,
    multiply_parts, negate_parts, root_parts, round_to_whole, truncate_parts, whole_parts,
};
use super::double::F64;

verus! {

/// A single precision number, by its encoding.
#[derive(Clone, Copy, Debug)]
pub struct F32 {
    pub bits: u32,
}

impl F32 {
    pub open spec fn parts(self) -> Parts {
        if self.bits >= 0x8000_0000 {
            Parts { neg: true, abs: (self.bits - 0x8000_0000) as u64 }
        } else {
            Parts { neg: false, abs: self.bits as u64 }
        }
    }

    pub open spec fn of_parts(p: Parts) -> F32 {
        if p.neg {
            F32 { bits: (p.abs + 0x8000_0000) as u32 }
        } else {
            F32 { bits: p.abs as u32 }
        }
    }

    pub open spec fn is_nan_number(self) -> bool {
        self.parts().is_nan(Format::Single)
    }

    pub open spec fn is_finite_number(self) -> bool {
        self.parts().is_finite(Format::Single)
    }

    /// `self + other`.
    pub open spec fn plus(self, other: F32) -> F32 {
        F32::of_parts(sum(Format::Single, self.parts(), other.parts()))
    }

    /// `-self`.
    pub open spec fn negative(self) -> F32 {
        F32::of_parts(negated(self.parts()))
    }

    /// `self - other`.
    pub open spec fn minus(self, other: F32) -> F32 {
        self.plus(other.negative())
    }

    /// `self * other`.
    pub open spec fn times(self, other: F32) -> F32 {
        F32::of_parts(product(Format::Single, self.parts(), other.parts()))
    }

    /// `self / other`.
    pub open spec fn over(self, other: F32) -> F32 {
        F32::of_parts(quotient(Format::Single, self.parts(), other.parts()))
    }

    /// The square root.
    pub open spec fn root(self) -> F32 {
        F32::of_parts(square_root(Format::Single, self.parts()))
    }

    /// `self < other`.
    pub open spec fn below(self, other: F32) -> bool {
        less(Format::Single, self.parts(), other.parts())
    }

    /// `self <= other`.
    pub open spec fn at_most(self, other: F32) -> bool {
        less_or_equal(Format::Single, self.parts(), other.parts())
    }

    /// `self` without its sign.
    pub open spec fn absolute(self) -> F32 {
        F32 { bits: self.parts().abs as u32 }
    }

    /// `self`, but not below `low` and not above `high`.
    pub open spec fn clamped(self, low: F32, high: F32) -> F32 {
        let raised = if self.below(low) { low } else { self };
        if high.below(raised) { high } else { raised }
    }

    /// The nearest integer; of two, the one farther from zero.
    pub open spec fn nearest_whole(self) -> F32 {
        F32::of_parts(to_nearest_whole(Format::Single, self.parts()))
    }

    /// The number without its fraction, brought into the range from zero to `max`.
    pub open spec fn trunc(self, max: nat) -> nat {
        truncated(Format::Single, self.parts(), max)
    }

    /// An integer as a number.
    pub open spec fn of_nat(n: nat) -> F32 {
        F32::of_parts(whole(Format::Single, n))
    }

    /// The same number in the other precision.
    pub open spec fn to_f64_number(self) -> F64 {
        F64::of_parts(converted(Format::Single, Format::Double, self.parts()))
    }

    pub fn from_bits(bits: u32) -> (r: F32)
        ensures
            r.bits == bits,
    {
        F32 { bits }
    }

    pub fn to_bits(self) -> (r: u32)
        ensures
            r == self.bits,
    {
        self.bits
    }

    fn split(self) -> (r: Parts)
        ensures
            r == self.parts(),
    {
        if self.bits >= 0x8000_0000 {
            Parts { neg: true, abs: (self.bits - 0x8000_0000) as u64 }
        } else {
            Parts { neg: false, abs: self.bits as u64 }
        }
    }

    pub(crate) fn join(p: Parts) -> (r: F32)
        requires
            p.abs < 0x8000_0000,
        ensures
            r == F32::of_parts(p),
    {
        if p.neg {
            F32 { bits: p.abs as u32 + 0x8000_0000 }
        } else {
            F32 { bits: p.abs as u32 }
        }
    }

    pub fn is_nan(self) -> (r: bool)
        ensures
            r == self.is_nan_number(),
    {
        is_nan(Format::Single, self.split())
    }

    pub fn add(self, other: F32) -> (r: F32)
        ensures
            r == self.plus(other),
    {
        F32::join(add_parts(Format::Single, self.split(), other.split()))
    }

    pub fn neg(self) -> (r: F32)
        ensures
            r == self.negative(),
    {
        F32::join(negate_parts(self.split()))
    }

    pub fn sub(self, other: F32) -> (r: F32)
        ensures
            r == self.minus(other),
    {
        self.add(other.neg())
    }

    pub fn mul(self, other: F32) -> (r: F32)
        ensures
            r == self.times(other),
    {
        F32::join(multiply_parts(Format::Single, self.split(), other.split()))
    }

    pub fn div(self, other: F32) -> (r: F32)
        ensures
            r == self.over(other),
    {
        F32::join(divide_parts(Format::Single, self.split(), other.split()))
    }

    pub fn sqrt(self) -> (r: F32)
        ensures
            r == self.root(),
    {
        F32::join(root_parts(Format::Single, self.split()))
    }

    pub fn lt(self, other: F32) -> (r: bool)
        ensures
            r == self.below(other),
    {
        less_parts(Format::Single, self.split(), other.split())
    }

    pub fn le(self, other: F32) -> (r: bool)
        ensures
            r == self.at_most(other),
    {
        less_or_equal_parts(Format::Single, self.split(), other.split())
    }

    pub fn abs(self) -> (r: F32)
        ensures
            r == self.absolute(),
    {
        F32 { bits: self.split().abs as u32 }
    }

    /// `self`, but not below `low` and not above `high`.
    pub fn clamp(self, low: F32, high: F32) -> (r: F32)
        requires
            low.at_most(high),
        ensures
            r == self.clamped(low, high),
    {
        let raised: F32 = if self.lt(low) { low } else { self };
        if high.lt(raised) { high } else { raised }
    }

    pub fn round(self) -> (r: F32)
        ensures
            r == self.nearest_whole(),
    {
        F32::join(round_to_whole(Format::Single, self.split()))
    }

    pub fn to_u32(self) -> (r: u32)
        ensures
            r == self.trunc(u32::MAX as nat),
    {
        truncate_parts(Format::Single, self.split(), u32::MAX as u64) as u32
    }

    pub fn from_u64(n: u64) -> (r: F32)
        ensures
            r == F32::of_nat(n as nat),
    {
        F32::join(whole_parts(Format::Single, n))
    }

    pub fn to_f64(self) -> (r: F64)
        ensures
            r == self.to_f64_number(),
    {
        F64::join(convert_parts(Format::Single, Format::Double, self.split()))
    }
}

} // verus!
