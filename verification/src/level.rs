//! The level of dithering, read from the bits of a single-precision number.

use vstd::prelude::*;
use crate::error::QuantizeError;

verus! {

/// The strength of full error diffusion: levels are fractions of it.
pub const FULL_STRENGTH: u32 = 65536;

/// The bit pattern of the level 1.0 as an IEEE 754 single.
pub const ONE_BITS: u32 = 0x3F80_0000;

/// The bit pattern of negative zero.
pub const NEGATIVE_ZERO_BITS: u32 = 0x8000_0000;

/// Whether `bits`, read as an IEEE 754 single, is a number from 0.0 to 1.0.
/// Singles that are not negative are ordered as their bit patterns are, so
/// these are the patterns up to that of 1.0, and negative zero, which
/// equals zero. Every NaN and every other negative number is outside.
pub open spec fn level_in_range(bits: u32) -> bool {
    bits <= ONE_BITS || bits == NEGATIVE_ZERO_BITS
}

/// The level that `bits` denotes, as a fraction of 65536 and rounded down:
/// the significand, with its leading one, shifted by what the exponent
/// lacks. Levels below 1/65536 and patterns outside the range give 0.
pub open spec fn strength_of(bits: u32) -> u32 {
    if bits > ONE_BITS || (bits >> 23u32) < 111 {
        0
    } else {
        ((bits & 0x7F_FFFFu32) | 0x80_0000u32) >> ((134 - (bits >> 23u32)) as u32)
    }
}

/// Decides `level_in_range`.
pub fn check_level(bits: u32) -> (ok: bool)
    ensures
        ok == level_in_range(bits),
{
    bits <= ONE_BITS || bits == NEGATIVE_ZERO_BITS
}

/// Reads a dithering level from the bit pattern of a single-precision
/// number. A pattern outside `[0.0, 1.0]` is refused.
pub fn decode_level(bits: u32) -> (result: Result<u32, QuantizeError>)
    ensures
        match result {
            Ok(strength) => level_in_range(bits) && strength == strength_of(bits) && strength <= FULL_STRENGTH,
            Err(e) => !level_in_range(bits) && e == QuantizeError::InvalidDitherLevel,
        },
{
    if bits == NEGATIVE_ZERO_BITS {
        return Ok(0);
    }
    if bits > ONE_BITS {
        return Err(QuantizeError::InvalidDitherLevel);
    }
    let exponent: u32 = bits >> 23;
    assert(exponent <= 127) by (bit_vector)
        requires
            exponent == bits >> 23u32,
            bits <= 0x3F80_0000u32,
    ;
    if exponent < 111 {
        return Ok(0);
    }
    let shift: u32 = 134 - exponent;
    let strength: u32 = ((bits & 0x7F_FFFF) | 0x80_0000) >> shift;
    assert(strength <= 65536) by (bit_vector)
        requires
            strength == ((bits & 0x7F_FFFFu32) | 0x80_0000u32) >> shift,
            shift == (134 - (bits >> 23u32)) as u32,
            111 <= (bits >> 23u32),
            bits <= 0x3F80_0000u32,
    ;
    Ok(strength)
}

/// A level of zero has no strength, and the level 1.0 has all of it.
pub proof fn lemma_strength_ends()
    ensures
        strength_of(0) == 0,
        strength_of(NEGATIVE_ZERO_BITS) == 0,
        strength_of(ONE_BITS) == FULL_STRENGTH,
{
    assert((0u32 >> 23u32) < 111) by (bit_vector);
    assert((0x3F80_0000u32 >> 23u32) == 127) by (bit_vector);
    assert(((0x3F80_0000u32 & 0x7F_FFFFu32) | 0x80_0000u32) >> 7u32 == 65536) by (bit_vector);
}

/// A higher level has no less strength.
pub proof fn lemma_strength_grows(lower: u32, higher: u32)
    by (bit_vector)
    requires
        lower <= higher,
        higher <= 0x3F80_0000u32,
    ensures
        strength_of(lower) <= strength_of(higher),
{
}

} // verus!
