//! The range coder: an entropy coder that narrows an interval of 31-bit
//! integers symbol by symbol and moves whole bytes in or out as the interval
//! gets small.
use vstd::prelude::*;

pub mod arith;
pub mod code_range;
pub mod range_decoder;
pub mod range_encoder;
pub mod raw_bits;
pub mod round_trip;

pub use range_decoder::RangeDecoder;
pub use range_encoder::RangeEncoder;

verus! {

/// The number of bits to use for the range-coded part of unsigned integers.
pub const UINT_BITS: u32 = 8;

/// The total number of bits in each of the state registers.
pub const CODE_BITS: u32 = 32;

/// The number of bits to output at a time.
pub const SYMBOL_BITS: u32 = 8;

/// The maximum symbol value.
pub const SYMBOL_MAX: u32 = 255;

/// Bits to shift by to move a symbol into the high-order position.
pub const CODE_SHIFT: u32 = 23;

/// Carry bit of the high-order range symbol.
pub const CODE_TOP: u32 = 0x8000_0000;

/// Low-order bit of the high-order range symbol.
pub const CODE_BOTTOM: u32 = 0x0080_0000;

/// The number of bits available for the last, partial symbol in the code
/// field.
pub const CODE_EXTRA: u32 = 7;

/// The number of bits in the window of raw bits.
pub const WINDOW_SIZE: u32 = 32;

/// The largest number of raw bits that one call reads or writes.
pub const MAX_RAW_BITS: u32 = 25;

/// The number of bits that it takes to write `v`: 0 for 0, and one more than
/// the place of the highest bit that is set otherwise.
pub open spec fn spec_ilog(v: nat) -> nat
    decreases v,
{
    if v == 0 {
        0
    } else {
        1 + spec_ilog(v / 2)
    }
}

} // verus!
