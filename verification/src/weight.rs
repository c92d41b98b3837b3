//! Finite floating-point values, held as their IEEE-754 binary64 bit patterns.
//!
//! A weight or option value is carried through the library as the 64 bits of
//! an `f64` (`f64::to_bits`). The validity rules below are read off those
//! bits: the exponent field is bits 52..63 and the sign is bit 63.
use vstd::prelude::*;

use crate::model::GraphError;

verus! {

/// Bit pattern of the `f64` value 1.0.
pub const ONE_BITS: u64 = 0x3ff0_0000_0000_0000u64;

/// The biased exponent field of a binary64 bit pattern.
pub open spec fn exponent_field(bits: u64) -> u64 {
    (bits >> 52u64) & 0x7ffu64
}

/// The value is neither infinite nor NaN (its exponent field is not all ones).
pub open spec fn is_finite_bits(bits: u64) -> bool {
    exponent_field(bits) != 0x7ffu64
}

/// The value compares equal to zero (`+0.0` or `-0.0`).
pub open spec fn is_zero_bits(bits: u64) -> bool {
    bits & 0x7fff_ffff_ffff_ffffu64 == 0
}

/// The sign bit is clear.
pub open spec fn sign_clear(bits: u64) -> bool {
    bits >> 63u64 == 0
}

/// The value is finite and `value >= 0.0` holds (this admits `-0.0`).
pub open spec fn is_non_negative_finite_bits(bits: u64) -> bool {
    is_finite_bits(bits) && (sign_clear(bits) || is_zero_bits(bits))
}

/// The value is finite and `value > 0.0` holds.
pub open spec fn is_positive_finite_bits(bits: u64) -> bool {
    is_finite_bits(bits) && sign_clear(bits) && !is_zero_bits(bits)
}

pub fn is_finite(bits: u64) -> (r: bool)
    ensures
        r == is_finite_bits(bits),
{
    (bits >> 52u64) & 0x7ffu64 != 0x7ffu64
}

pub fn is_zero(bits: u64) -> (r: bool)
    ensures
        r == is_zero_bits(bits),
{
    bits & 0x7fff_ffff_ffff_ffffu64 == 0
}

pub fn is_non_negative_finite(bits: u64) -> (r: bool)
    ensures
        r == is_non_negative_finite_bits(bits),
{
    is_finite(bits) && (bits >> 63u64 == 0 || is_zero(bits))
}

pub fn is_positive_finite(bits: u64) -> (r: bool)
    ensures
        r == is_positive_finite_bits(bits),
{
    is_finite(bits) && bits >> 63u64 == 0 && !is_zero(bits)
}

/// Finite floating-point value strictly greater than zero.
#[derive(Debug, Clone, Copy, PartialEq, Eq, Structural)]
pub struct PositiveFiniteF64 {
    bits: u64,
}

impl PositiveFiniteF64 {
    /// The validated bit pattern.
    pub closed spec fn spec_bits(self) -> u64 {
        self.bits
    }

    /// Validate a positive finite value given by its bit pattern.
    pub fn new(bits: u64) -> (r: Result<Self, GraphError>)
        ensures
            r is Ok <==> is_positive_finite_bits(bits),
            r matches Ok(v) ==> v.spec_bits() == bits,
            r matches Err(e) ==> (e matches GraphError::InvalidOption(m) && m@ == "value must be finite and positive"@),
    {
        if is_positive_finite(bits) {
            Ok(Self { bits })
        } else {
            Err(GraphError::InvalidOption(String::from_str("value must be finite and positive")))
        }
    }

    /// Return the validated bit pattern.
    pub fn get(self) -> (bits: u64)
        ensures
            bits == self.spec_bits(),
    {
        self.bits
    }

    /// Wrap a bit pattern already known to be positive and finite.
    pub(crate) fn known(bits: u64) -> (v: Self)
        requires
            is_positive_finite_bits(bits),
        ensures
            v.spec_bits() == bits,
    {
        Self { bits }
    }
}

/// Finite floating-point value greater than or equal to zero.
#[derive(Debug, Clone, Copy, PartialEq, Eq, Structural)]
pub struct NonNegativeFiniteF64 {
    bits: u64,
}

impl NonNegativeFiniteF64 {
    /// The validated bit pattern.
    pub closed spec fn spec_bits(self) -> u64 {
        self.bits
    }

    /// Validate a non-negative finite value given by its bit pattern.
    pub fn new(bits: u64) -> (r: Result<Self, GraphError>)
        ensures
            r is Ok <==> is_non_negative_finite_bits(bits),
            r matches Ok(v) ==> v.spec_bits() == bits,
            r matches Err(e) ==> (e matches GraphError::InvalidOption(m) && m@ == "value must be finite and non-negative"@),
    {
        if is_non_negative_finite(bits) {
            Ok(Self { bits })
        } else {
            Err(
                GraphError::InvalidOption(
                    String::from_str("value must be finite and non-negative"),
                ),
            )
        }
    }

    /// Return the validated bit pattern.
    pub fn get(self) -> (bits: u64)
        ensures
            bits == self.spec_bits(),
    {
        self.bits
    }

    /// Wrap a bit pattern already known to be non-negative and finite.
    pub(crate) fn known(bits: u64) -> (v: Self)
        requires
            is_non_negative_finite_bits(bits),
        ensures
            v.spec_bits() == bits,
    {
        Self { bits }
    }
}

} // verus!
