//! Bit-field access on 64-bit words, through the `bit_field` crate.
use vstd::prelude::*;
use bit_field::BitField;

verus! {

/// The value of the bits `[start, end)` of `x`, shifted down to bit 0.
pub open spec fn spec_get_bits(x: u64, start: usize, end: usize) -> u64 {
    if start == end {
        0
    } else {
        ((x << ((64 - end) as u64)) >> ((64 - end) as u64)) >> start
    }
}

/// `x` with the bits `[start, end)` replaced by `value`.
pub open spec fn spec_set_bits(x: u64, start: usize, end: usize, value: u64) -> u64 {
    if start == end {
        x
    } else {
        (x & !((((!0u64) << ((64 - end) as u64)) >> ((64 - end) as u64)) >> start << start))
            | (value << start)
    }
}

/// Whether `value` fits into a bit field of `len` bits.
pub open spec fn fits_bits(value: u64, len: usize) -> bool {
    if len == 0 {
        value == 0
    } else {
        (value << ((64 - len) as u64)) >> ((64 - len) as u64) == value
    }
}

/// Reads the bits `[start, end)` of `x` with `BitField::get_bits` of the `bit_field`
/// crate. Its source shifts away the bits above `end`, then those below `start`,
/// and panics unless `start < 64`, `end <= 64` and `start <= end`.
#[verifier::external_body]
pub(crate) fn get_bits(x: u64, start: usize, end: usize) -> (r: u64)
    requires
        start < 64,
        end <= 64,
        start <= end,
    ensures
        r == spec_get_bits(x, start, end),
{
    x.get_bits(start..end)
}

/// Replaces the bits `[start, end)` of `x` by `value` with `BitField::set_bits` of the
/// `bit_field` crate. Its source panics unless `start < 64`, `end <= 64`,
/// `start <= end` and `value` fits into `end - start` bits; it then clears the
/// field with a mask and ors in `value << start`.
#[verifier::external_body]
pub(crate) fn set_bits(x: &mut u64, start: usize, end: usize, value: u64)
    requires
        start < 64,
        end <= 64,
        start <= end,
        fits_bits(value, (end - start) as usize),
    ensures
        *final(x) == spec_set_bits(*old(x), start, end, value),
{
    x.set_bits(start..end, value);
}

/// Reads bit `bit` of `x` with `BitField::get_bit` of the `bit_field` crate, which
/// panics unless `bit < 64` and otherwise tests `x & (1 << bit) != 0`.
#[verifier::external_body]
pub(crate) fn get_bit(x: u64, bit: usize) -> (r: bool)
    requires
        bit < 64,
    ensures
        r == (x & (1u64 << bit) != 0),
{
    x.get_bit(bit)
}

} // verus!
