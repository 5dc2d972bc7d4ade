//! The bit framing of the encoding: the marker bits that classify each byte
//! and the data bits each class of byte carries.
//!
//! Every byte of an encoded buffer falls in exactly one of four classes,
//! decided by its top three bits:
//!
//! * `0xxxxxxx` — singleton: a whole one-byte sequence, 7 data bits;
//! * `11xxxxxx` — start byte: first byte of a multi-byte sequence, 6 data bits;
//! * `100xxxxx` — continuation byte: interior byte, 5 data bits;
//! * `101xxxxx` — end byte: last byte of a multi-byte sequence, 5 data bits.
//!
//! In arithmetic terms the classes are the ranges `[0x00, 0x80)`,
//! `[0xC0, 0x100)`, `[0x80, 0xA0)` and `[0xA0, 0xC0)`; the specification
//! functions below use the ranges, and the executable code may use either
//! form, since the two are provably the same.

use vstd::prelude::*;

verus! {

/// Marker bit: set on every byte of a multi-byte sequence.
pub const MASK_SEQ: u8 = 0x80;

/// Marker bit: set on the first byte of a multi-byte sequence.
pub const MASK_SEQ_START: u8 = 0x40;

/// Marker bit: set on the last byte of a multi-byte sequence.
pub const MASK_SEQ_END: u8 = 0x20;

/// The data bits of a start byte.
pub const MASK_SEQ_START_DATA: u8 = 0x3F;

/// The data bits of a continuation or end byte.
pub const MASK_SEQ_CONT_DATA: u8 = 0x1F;

/// No scalar value of this encoding reaches 2^21.
pub const SCALAR_LIMIT: u32 = 0x20_0000;

/// A singleton byte: a complete one-byte sequence.
pub open spec fn is_singleton_byte(b: u8) -> bool {
    b < 0x80
}

/// The first byte of a multi-byte sequence.
pub open spec fn is_start_byte(b: u8) -> bool {
    b >= 0xC0
}

/// An interior byte of a multi-byte sequence.
pub open spec fn is_cont_byte(b: u8) -> bool {
    0x80 <= b < 0xA0
}

/// The last byte of a multi-byte sequence.
pub open spec fn is_end_byte(b: u8) -> bool {
    0xA0 <= b < 0xC0
}

/// A byte that opens a new sequence: a singleton or a start byte. Counting
/// these bytes counts the encoded scalar values.
pub open spec fn opens_sequence(b: u8) -> bool {
    is_singleton_byte(b) || is_start_byte(b)
}

/// The data bits a byte contributes to the value of its sequence: the whole
/// byte for a singleton, 6 bits for a start byte, 5 bits otherwise.
pub open spec fn data_bits(b: u8) -> int {
    if is_singleton_byte(b) {
        b as int
    } else if is_start_byte(b) {
        b - 0xC0
    } else if is_end_byte(b) {
        b - 0xA0
    } else {
        b - 0x80
    }
}

/// A scalar value the encoding can carry: at most 21 bits.
pub open spec fn in_range(v: u32) -> bool {
    v < SCALAR_LIMIT
}

} // verus!
